//! Resolves whether a reference (a normalized URL) already occurs in a corpus
//! of plain-text notes, and merges annotation metadata into the matching lines.
//!
//! The crate is organized around three components:
//!
//! * [`normalize`] — canonicalizes a raw reference and expands it into the set
//!   of textually equivalent alternative forms that are searched for;
//! * [`resolve`] — drives the search, one query per alternative form, stopping
//!   at the first alternative that yields any hit;
//! * [`annotate`] — rewrites the matched line of a file: strips a stale review
//!   marker, merges tags without duplication, and appends the card terminator.
//!
//! Around these stand [`tags`], which prepares the tag set a reference is
//! annotated with, and [`text`], the verified text primitives everything else
//! is built on.
//!
//! The search mechanism itself and all file handling are deliberately outside
//! this crate: callers run the searches and read and write the files, and hand
//! the results in as plain values.

pub mod annotate;
pub mod normalize;
pub mod resolve;
pub mod tags;
pub mod text;
