//! Match resolution: trying the alternative forms of a reference against a
//! search oracle, one query per form, in the fixed order of the alternative
//! set, and stopping at the first form that yields any hit.
//!
//! The search itself is outside this crate: the caller runs each query and
//! hands the outcome back to the [`Resolver`], which decides whether the
//! resolution is complete.  A reference is a miss only when every alternative
//! form yielded no hit; a failed search counts like an empty one, so that a
//! reference is rather recorded anew than silently lost.

use vstd::prelude::*;
use vstd::string::*;

use crate::normalize::AlternativeSet;
use crate::text;

verus! {

/// What a resolution does on success: `Archive` only establishes presence;
/// `AnnotateAndReset` also rewrites every matched line in place.
pub enum Mode {
    Archive,
    AnnotateAndReset,
}

/// One search hit: the path of the file, relative to the searched folder,
/// and the exact content of the matching line.
pub struct Hit {
    pub file_path: String,
    pub line_content: String,
}

impl View for Hit {
    type V = (Seq<char>, Seq<char>);

    open spec fn view(&self) -> (Seq<char>, Seq<char>) {
        (self.file_path@, self.line_content@)
    }
}

/// What one search query came back with: a hit list, possibly empty, or a
/// failure of the search mechanism itself.
pub enum OracleOutcome {
    Hits(Vec<Hit>),
    OracleError,
}

/// What the resolver concludes from one outcome: the resolution is done with
/// these hits, the next alternative should be tried, or every alternative is
/// exhausted and the reference is missing.
pub enum ResolveStep {
    Found(Vec<Hit>),
    Continue,
    Miss,
}

/// One line of raw search output: the file path stands before the first
/// colon, the line content after it.  A line without a colon yields no hit.
pub open spec fn hit_of_line(l: Seq<char>) -> Option<(Seq<char>, Seq<char>)> {
    match text::index_of_char(l, ':') {
        Some(i) => Some((l.take(i), l.skip(i + 1))),
        None => None,
    }
}

/// The hits the lines of a raw search output describe, in output order.
pub open spec fn parse_hits_spec(pieces: Seq<Seq<char>>) -> Seq<(Seq<char>, Seq<char>)>
    decreases pieces.len(),
{
    if pieces.len() == 0 {
        Seq::empty()
    } else {
        match hit_of_line(pieces[0]) {
            Some(h) => seq![h] + parse_hits_spec(pieces.drop_first()),
            None => parse_hits_spec(pieces.drop_first()),
        }
    }
}

/// Parses raw search output into hits: one hit per line that holds a colon,
/// in output order, so the order of lines within a file is preserved.
pub fn parse_hits(raw: &str) -> (r: Vec<Hit>)
    ensures
        r@.len() == parse_hits_spec(text::split_spec(raw@, '\n')).len(),
        forall|i: int|
            0 <= i < r@.len() ==> r@[i]@ == parse_hits_spec(text::split_spec(raw@, '\n'))[i],
{
    let pieces = text::split_char(raw, '\n');
    let ghost psd = pieces.deep_view();
    let ghost goal = parse_hits_spec(psd);
    let n = pieces.len();
    let mut hits: Vec<Hit> = Vec::new();
    let ghost done = Seq::<(Seq<char>, Seq<char>)>::empty();
    let mut i: usize = 0;
    proof {
        assert(psd.skip(0) =~= psd);
    }
    while i < n
        invariant
            i <= n,
            n == psd.len(),
            psd == pieces.deep_view(),
            goal == done + parse_hits_spec(psd.skip(i as int)),
            hits@.len() == done.len(),
            forall|k: int| 0 <= k < done.len() ==> hits@[k]@ == done[k],
        decreases n - i,
    {
        let ghost before = done;
        let p = &pieces[i];
        proof {
            assert(p@ == psd[i as int]);
            assert(psd.skip(i as int)[0] == psd[i as int]);
            assert(psd.skip(i as int).drop_first() =~= psd.skip(i + 1));
            text::lemma_index_of_char(p@, ':');
        }
        match text::find_char(p.as_str(), ':') {
            Some(ci) => {
                let pl = p.as_str().unicode_len();
                let file_path = String::from_str(p.as_str().substring_char(0, ci));
                let line_content = String::from_str(p.as_str().substring_char(ci + 1, pl));
                proof {
                    assert(file_path@ =~= psd[i as int].take(ci as int));
                    assert(line_content@ =~= psd[i as int].skip(ci + 1));
                }
                hits.push(Hit { file_path, line_content });
                proof {
                    done = before.push((psd[i as int].take(ci as int), psd[i as int].skip(ci + 1)));
                    assert(parse_hits_spec(psd.skip(i as int)) == seq![
                        (psd[i as int].take(ci as int), psd[i as int].skip(ci + 1)),
                    ] + parse_hits_spec(psd.skip(i + 1)));
                    assert(goal =~= done + parse_hits_spec(psd.skip(i + 1)));
                }
            },
            None => {
                proof {
                    assert(parse_hits_spec(psd.skip(i as int)) == parse_hits_spec(psd.skip(i + 1)));
                }
            },
        }
        i += 1;
    }
    proof {
        assert(psd.skip(n as int) =~= Seq::<Seq<char>>::empty());
        assert(goal =~= done);
    }
    hits
}

/// The query fragment for one alternative form: the form wrapped in the
/// parentheses of a bracketed link target, so that only occurrences written
/// as a link target match.
pub open spec fn query_fragment_spec(alt: Seq<char>) -> Seq<char> {
    seq!['('] + alt + seq![')']
}

/// Builds the query fragment for an alternative form.  The fragment is never
/// empty, so it is always a valid search query.
pub fn query_fragment(alt: &str) -> (r: String)
    ensures
        r@ == query_fragment_spec(alt@),
        r@.len() > 0,
{
    proof {
        reveal_strlit("(");
        reveal_strlit(")");
    }
    let mut r = String::from_str("(");
    r.append(alt);
    r.append(")");
    proof {
        assert(r@ =~= query_fragment_spec(alt@));
    }
    r
}

/// Drives one resolution: tries the alternative forms in the order of the
/// set — the original reference first — and stops at the first form whose
/// search yields any hit.
pub struct Resolver {
    alternatives: AlternativeSet,
    next_index: usize,
}

impl Resolver {
    /// The alternative forms, in the order they are tried.
    pub closed spec fn alts(&self) -> Seq<Seq<char>> {
        self.alternatives@
    }

    /// How many forms have been tried so far.
    pub closed spec fn tried(&self) -> int {
        self.next_index as int
    }

    /// A resolver that will try the given forms in order.
    pub fn new(alternatives: AlternativeSet) -> (r: Resolver)
        ensures
            r.alts() == alternatives@,
            r.tried() == 0,
    {
        Resolver { alternatives, next_index: 0 }
    }

    /// The query to run next: the fragment for the first untried alternative
    /// form, or nothing when every form has been tried.
    pub fn next_query(&self) -> (q: Option<String>)
        ensures
            match q {
                Some(s) => self.tried() < self.alts().len() && s@ == query_fragment_spec(
                    self.alts()[self.tried()],
                ),
                None => self.tried() >= self.alts().len(),
            },
    {
        if self.next_index < self.alternatives.len() {
            Some(query_fragment(self.alternatives.get(self.next_index).as_str()))
        } else {
            None
        }
    }

    /// Takes the outcome of the query for the current alternative form.  Any
    /// outcome with at least one hit completes the resolution with those
    /// hits; an empty outcome and a search failure alike move on to the next
    /// form, and to a miss once no form is left.
    pub fn record(&mut self, outcome: OracleOutcome) -> (step: ResolveStep)
        requires
            old(self).tried() < old(self).alts().len(),
        ensures
            final(self).alts() == old(self).alts(),
            match step {
                ResolveStep::Found(hits) => {
                    &&& outcome matches OracleOutcome::Hits(v) && v == hits
                    &&& hits@.len() > 0
                    &&& final(self).tried() == old(self).tried()
                },
                ResolveStep::Continue => {
                    &&& !(outcome matches OracleOutcome::Hits(v) && v@.len() > 0)
                    &&& final(self).tried() == old(self).tried() + 1
                    &&& final(self).tried() < final(self).alts().len()
                },
                ResolveStep::Miss => {
                    &&& !(outcome matches OracleOutcome::Hits(v) && v@.len() > 0)
                    &&& final(self).tried() == old(self).tried() + 1
                    &&& final(self).tried() >= final(self).alts().len()
                },
            },
    {
        match outcome {
            OracleOutcome::Hits(v) => {
                if v.len() > 0 {
                    return ResolveStep::Found(v);
                }
            },
            OracleOutcome::OracleError => {},
        }
        let n = self.alternatives.len();
        assert(self.next_index < n);
        self.next_index = self.next_index + 1;
        if self.next_index < self.alternatives.len() {
            ResolveStep::Continue
        } else {
            ResolveStep::Miss
        }
    }
}

/// Whether a search outcome establishes that the reference is present: at
/// least one hit came back.  A search failure counts as absent, so that the
/// caller records the reference anew rather than losing it.
pub fn check(outcome: &OracleOutcome) -> (found: bool)
    ensures
        found == (outcome matches OracleOutcome::Hits(v) && v@.len() > 0),
{
    match outcome {
        OracleOutcome::Hits(v) => v.len() > 0,
        OracleOutcome::OracleError => false,
    }
}

/// Whether a resolution step calls for rewriting the matched files: only
/// mode `AnnotateAndReset` mutates, and only a completed resolution carries
/// hits to rewrite.  Mode `Archive` establishes presence and nothing more.
pub fn wants_annotation(mode: &Mode, step: &ResolveStep) -> (b: bool)
    ensures
        b == (mode is AnnotateAndReset && step matches ResolveStep::Found(_)),
{
    match (mode, step) {
        (Mode::AnnotateAndReset, ResolveStep::Found(_)) => true,
        _ => false,
    }
}

} // verus!
