//! Tag preparation: the canonical written form of a tag, and the tag set a
//! reference is annotated with.

use vstd::prelude::*;
use vstd::string::*;

use crate::text;

verus! {

/// The canonical form of one raw tag: whitespace is trimmed, and the tag is
/// wrapped as a bracketed tag unless it already starts with `#`.
pub open spec fn format_tag_spec(raw: Seq<char>) -> Seq<char> {
    let t = text::trim_spec(raw);
    if t.len() > 0 && t[0] == '#' {
        t
    } else {
        "#[["@ + t + "]]"@
    }
}

/// Puts one raw tag into its canonical form.
pub fn format_tag(raw: &str) -> (r: String)
    ensures
        r@ == format_tag_spec(raw@),
{
    let t = text::trim(raw);
    let n = t.as_str().unicode_len();
    if n > 0 && t.as_str().get_char(0) == '#' {
        t
    } else {
        let mut r = String::from_str("#[[");
        r.append(t.as_str());
        r.append("]]");
        r
    }
}

/// The bracketed form of a tag read from a list file: trimmed, and wrapped
/// as a bracketed tag unless it is already written as one.  A tag that is
/// only whitespace yields nothing.
pub open spec fn bracket_tag_spec(raw: Seq<char>) -> Option<Seq<char>> {
    let t = text::trim_spec(raw);
    if t.len() == 0 {
        None
    } else if text::is_prefix_of("#[["@, t) {
        Some(t)
    } else {
        Some("#[["@ + t + "]]"@)
    }
}

/// Puts one list-file tag into its bracketed form, dropping blank tags.
pub fn bracket_tag(raw: &str) -> (r: Option<String>)
    ensures
        match r {
            Some(v) => bracket_tag_spec(raw@) == Some(v@),
            None => bracket_tag_spec(raw@) is None,
        },
{
    let t = text::trim(raw);
    if t.as_str().unicode_len() == 0 {
        None
    } else if text::starts_with(t.as_str(), "#[[") {
        Some(t)
    } else {
        let mut r = String::from_str("#[[");
        r.append(t.as_str());
        r.append("]]");
        Some(r)
    }
}

/// Whether a reference points at one of the video sites whose entries get
/// the video-queue tag.
pub open spec fn is_video_site(url: Seq<char>) -> bool {
    text::has_substring(url, "youtube.com"@) || text::has_substring(url, "bilibili.com"@)
        || text::has_substring(url, "douyin.com"@)
}

/// The tag set a reference is annotated with: the raw tags, the video-queue
/// tag added for video sites, the default tag when nothing else is there,
/// each put into canonical form.
pub open spec fn derive_tags_spec(url: Seq<char>, raw: Seq<Seq<char>>) -> Seq<Seq<char>> {
    let with_video = if is_video_site(url) {
        raw.push("#[[vquest]]"@)
    } else {
        raw
    };
    let nonempty = if with_video.len() == 0 {
        with_video.push("#[[c]]"@)
    } else {
        with_video
    };
    nonempty.map_values(|t: Seq<char>| format_tag_spec(t))
}

/// Builds the tag set for a reference from its raw tags.
pub fn derive_tags(url: &str, raw_tags: &Vec<String>) -> (r: Vec<String>)
    ensures
        r.deep_view() == derive_tags_spec(url@, raw_tags.deep_view()),
{
    let mut base: Vec<String> = Vec::new();
    let n = raw_tags.len();
    let mut i: usize = 0;
    while i < n
        invariant
            i <= n,
            n == raw_tags.deep_view().len(),
            base.deep_view() =~= raw_tags.deep_view().take(i as int),
        decreases n - i,
    {
        let ghost before = base.deep_view();
        base.push(raw_tags[i].clone());
        proof {
            assert(base.deep_view() =~= before.push(raw_tags.deep_view()[i as int]));
        }
        i += 1;
    }
    proof {
        assert(base.deep_view() =~= raw_tags.deep_view());
    }
    if text::contains_sub(url, "youtube.com") || text::contains_sub(url, "bilibili.com")
        || text::contains_sub(url, "douyin.com") {
        let ghost before = base.deep_view();
        base.push(String::from_str("#[[vquest]]"));
        proof {
            assert(base.deep_view() =~= before.push("#[[vquest]]"@));
        }
    }
    if base.len() == 0 {
        let ghost before = base.deep_view();
        base.push(String::from_str("#[[c]]"));
        proof {
            assert(base.deep_view() =~= before.push("#[[c]]"@));
        }
    }
    let ghost pre = base.deep_view();
    let mut out: Vec<String> = Vec::new();
    let m = base.len();
    let mut k: usize = 0;
    while k < m
        invariant
            k <= m,
            m == pre.len(),
            pre == base.deep_view(),
            out.deep_view() =~= pre.map_values(|t: Seq<char>| format_tag_spec(t)).take(k as int),
        decreases m - k,
    {
        let ghost before = out.deep_view();
        let f = format_tag(base[k].as_str());
        proof {
            assert(base[k as int]@ == pre[k as int]);
        }
        out.push(f);
        proof {
            assert(out.deep_view() =~= before.push(format_tag_spec(pre[k as int])));
            assert(out.deep_view() =~= pre.map_values(|t: Seq<char>| format_tag_spec(t)).take(
                k + 1,
            ));
        }
        k += 1;
    }
    proof {
        assert(out.deep_view() =~= pre.map_values(|t: Seq<char>| format_tag_spec(t)));
    }
    out
}

} // verus!
