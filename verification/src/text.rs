//! Verified text primitives the rest of the crate is built on: prefix and
//! substring tests, searching, splitting, replacement, trimming and ASCII
//! case folding, each specified over the character sequence of the string.

use vstd::prelude::*;
use vstd::string::*;

verus! {

/// `p` is a prefix of `s`.
pub open spec fn is_prefix_of(p: Seq<char>, s: Seq<char>) -> bool {
    p.len() <= s.len() && p == s.take(p.len() as int)
}

/// `p` occurs in `s` starting at index `i`.
pub open spec fn matches_at(s: Seq<char>, p: Seq<char>, i: int) -> bool {
    0 <= i && i + p.len() <= s.len() && p == s.subrange(i, i + p.len())
}

/// `p` occurs somewhere in `s`.
pub open spec fn has_substring(s: Seq<char>, p: Seq<char>) -> bool {
    exists|i: int| matches_at(s, p, i)
}

/// Whether `s` starts with `p`, by character comparison.
pub fn starts_with(s: &str, p: &str) -> (r: bool)
    ensures
        r == is_prefix_of(p@, s@),
{
    let n = p.unicode_len();
    if n > s.unicode_len() {
        return false;
    }
    let mut i: usize = 0;
    while i < n
        invariant
            i <= n,
            n == p@.len(),
            n <= s@.len(),
            forall|j: int| 0 <= j < i ==> p@[j] == s@[j],
        decreases n - i,
    {
        if s.get_char(i) != p.get_char(i) {
            assert(!is_prefix_of(p@, s@)) by {
                assert(is_prefix_of(p@, s@) ==> p@[i as int] == s@.take(p@.len() as int)[i as int]);
            }
            return false;
        }
        i += 1;
    }
    assert(p@ =~= s@.take(p@.len() as int));
    true
}

/// Whether `p` occurs at position `i` of `s`, by character comparison.
pub fn matches_at_pos(s: &str, p: &str, i: usize) -> (r: bool)
    requires
        i + p@.len() <= s@.len(),
    ensures
        r == matches_at(s@, p@, i as int),
{
    let n = p.unicode_len();
    let sn = s.unicode_len();
    let mut k: usize = 0;
    while k < n
        invariant
            k <= n,
            n == p@.len(),
            sn == s@.len(),
            i + n <= sn,
            forall|j: int| 0 <= j < k ==> p@[j] == s@[i + j],
        decreases n - k,
    {
        if s.get_char(i + k) != p.get_char(k) {
            assert(!matches_at(s@, p@, i as int)) by {
                assert(matches_at(s@, p@, i as int) ==> p@[k as int] == s@.subrange(
                    i as int,
                    i + p@.len(),
                )[k as int]);
            }
            return false;
        }
        k += 1;
    }
    assert(p@ =~= s@.subrange(i as int, i + p@.len()));
    true
}

/// Position of the first occurrence of `p` in `s`, if any.
pub fn find_sub(s: &str, p: &str) -> (r: Option<usize>)
    ensures
        match r {
            Some(i) => matches_at(s@, p@, i as int) && forall|j: int|
                0 <= j < i ==> !matches_at(s@, p@, j),
            None => !has_substring(s@, p@),
        },
{
    let sn = s.unicode_len();
    let pn = p.unicode_len();
    if pn > sn {
        return None;
    }
    let mut i: usize = 0;
    loop
        invariant
            pn == p@.len(),
            sn == s@.len(),
            pn <= sn,
            i <= sn - pn,
            forall|j: int| 0 <= j < i ==> !matches_at(s@, p@, j),
        ensures
            forall|j: int| !matches_at(s@, p@, j),
        decreases sn - pn - i,
    {
        if matches_at_pos(s, p, i) {
            return Some(i);
        }
        if i == sn - pn {
            assert(forall|j: int| matches_at(s@, p@, j) ==> 0 <= j <= sn - pn);
            break;
        }
        i += 1;
    }
    None
}

/// Whether `p` occurs somewhere in `s`.
pub fn contains_sub(s: &str, p: &str) -> (r: bool)
    ensures
        r == has_substring(s@, p@),
{
    match find_sub(s, p) {
        Some(_) => true,
        None => false,
    }
}

/// Prefixes compose: a prefix of a prefix of `c` is a prefix of `c`.
pub proof fn lemma_prefix_trans(a: Seq<char>, b: Seq<char>, c: Seq<char>)
    requires
        is_prefix_of(a, b),
        is_prefix_of(b, c),
    ensures
        is_prefix_of(a, c),
{
    assert forall|i: int| 0 <= i < a.len() implies a[i] == c[i] by {
        assert(a[i] == b.take(a.len() as int)[i]);
        assert(b[i] == c.take(b.len() as int)[i]);
    }
    assert(a =~= c.take(a.len() as int));
}

/// Whether two strings hold the same characters.
pub fn str_eq(a: &str, b: &str) -> (r: bool)
    ensures
        r == (a@ == b@),
{
    let na = a.unicode_len();
    let nb = b.unicode_len();
    if na != nb {
        return false;
    }
    let mut i: usize = 0;
    while i < na
        invariant
            i <= na,
            na == a@.len(),
            nb == b@.len(),
            na == nb,
            forall|j: int| 0 <= j < i ==> a@[j] == b@[j],
        decreases na - i,
    {
        if a.get_char(i) != b.get_char(i) {
            return false;
        }
        i += 1;
    }
    assert(a@ =~= b@);
    true
}

/// The concatenation of two string slices.
pub fn concat_str(a: &str, b: &str) -> (r: String)
    ensures
        r@ == a@ + b@,
{
    let mut r = String::from_str(a);
    r.append(b);
    r
}

/// Appends one character to a string.
///
/// Relies on `String::push`, which appends the character to the end of the
/// string.
#[verifier::external_body]
pub fn push_char(s: &mut String, c: char)
    ensures
        final(s)@ == old(s)@.push(c),
{
    s.push(c);
}

/// Index of the first occurrence of the character `c` in `s`, if any.
pub open spec fn index_of_char(s: Seq<char>, c: char) -> Option<int>
    decreases s.len(),
{
    if s.len() == 0 {
        None
    } else if s[0] == c {
        Some(0)
    } else {
        match index_of_char(s.drop_first(), c) {
            Some(i) => Some(i + 1),
            None => None,
        }
    }
}

/// What `index_of_char` returns: the position of the first occurrence.
pub proof fn lemma_index_of_char(s: Seq<char>, c: char)
    ensures
        match index_of_char(s, c) {
            Some(i) => 0 <= i < s.len() && s[i] == c && forall|j: int| 0 <= j < i ==> s[j] != c,
            None => forall|j: int| 0 <= j < s.len() ==> s[j] != c,
        },
    decreases s.len(),
{
    if s.len() > 0 && s[0] != c {
        let d = s.drop_first();
        lemma_index_of_char(d, c);
        match index_of_char(d, c) {
            Some(i) => {
                assert(s[i + 1] == d[i]);
                assert forall|j: int| 0 <= j < i + 1 implies s[j] != c by {
                    if j >= 1 {
                        assert(s[j] == d[j - 1]);
                    }
                }
            },
            None => {
                assert forall|j: int| 0 <= j < s.len() implies s[j] != c by {
                    if j >= 1 {
                        assert(s[j] == d[j - 1]);
                    }
                }
            },
        }
    }
}

/// `index_of_char` is pinned down by the first-occurrence description.
pub proof fn lemma_index_of_char_unique(s: Seq<char>, c: char, i: int)
    requires
        0 <= i < s.len(),
        s[i] == c,
        forall|j: int| 0 <= j < i ==> s[j] != c,
    ensures
        index_of_char(s, c) == Some(i),
    decreases s.len(),
{
    if s.len() > 0 && s[0] != c {
        assert(s.drop_first()[i - 1] == s[i]);
        assert(forall|j: int| 0 <= j < i - 1 ==> s.drop_first()[j] == s[j + 1]);
        lemma_index_of_char_unique(s.drop_first(), c, i - 1);
    }
}

/// `index_of_char` returns `None` exactly when `c` does not occur.
pub proof fn lemma_index_of_char_none(s: Seq<char>, c: char)
    requires
        forall|j: int| 0 <= j < s.len() ==> s[j] != c,
    ensures
        index_of_char(s, c) is None,
    decreases s.len(),
{
    if s.len() > 0 {
        assert(forall|j: int| 0 <= j < s.drop_first().len() ==> s.drop_first()[j] == s[j + 1]);
        lemma_index_of_char_none(s.drop_first(), c);
    }
}

/// Position of the first occurrence of the character `c` in `s`, if any.
pub fn find_char(s: &str, c: char) -> (r: Option<usize>)
    ensures
        match r {
            Some(i) => index_of_char(s@, c) == Some(i as int),
            None => index_of_char(s@, c) is None,
        },
{
    let n = s.unicode_len();
    let mut i: usize = 0;
    while i < n
        invariant
            i <= n,
            n == s@.len(),
            forall|j: int| 0 <= j < i ==> s@[j] != c,
        decreases n - i,
    {
        if s.get_char(i) == c {
            proof {
                lemma_index_of_char_unique(s@, c, i as int);
            }
            return Some(i);
        }
        i += 1;
    }
    proof {
        lemma_index_of_char_none(s@, c);
    }
    None
}

/// The pieces of `s` between occurrences of the separator `c`.  A string
/// without the separator is a single piece; each separator ends a piece, so
/// `n` separators give `n + 1` pieces, some possibly empty.
pub open spec fn split_spec(s: Seq<char>, c: char) -> Seq<Seq<char>>
    decreases s.len(),
    via split_spec_decreases
{
    match index_of_char(s, c) {
        None => seq![s],
        Some(i) => seq![s.take(i)] + split_spec(s.skip(i + 1), c),
    }
}

#[via_fn]
proof fn split_spec_decreases(s: Seq<char>, c: char) {
    lemma_index_of_char(s, c);
}

/// Splits `s` at each occurrence of the character `c`.
pub fn split_char(s: &str, c: char) -> (r: Vec<String>)
    ensures
        r.deep_view() == split_spec(s@, c),
{
    let mut r: Vec<String> = Vec::new();
    let mut rest: String = String::from_str(s);
    loop
        invariant
            split_spec(s@, c) == r.deep_view() + split_spec(rest@, c),
        decreases rest@.len(),
    {
        let ghost pieces_before = r.deep_view();
        match find_char(rest.as_str(), c) {
            Some(i) => {
                proof {
                    lemma_index_of_char(rest@, c);
                }
                let piece = String::from_str(rest.as_str().substring_char(0, i));
                let n = rest.unicode_len();
                let tail = String::from_str(rest.as_str().substring_char(i + 1, n));
                assert(piece@ == rest@.take(i as int));
                assert(tail@ == rest@.skip(i + 1));
                r.push(piece);
                proof {
                    assert(r.deep_view() =~= pieces_before + seq![rest@.take(i as int)]);
                    assert(split_spec(rest@, c) == seq![rest@.take(i as int)] + split_spec(
                        rest@.skip(i + 1),
                        c,
                    ));
                    assert(pieces_before + split_spec(rest@, c) =~= r.deep_view() + split_spec(
                        tail@,
                        c,
                    ));
                }
                rest = tail;
            },
            None => {
                assert(split_spec(rest@, c) == seq![rest@]);
                r.push(rest);
                proof {
                    assert(r.deep_view() =~= pieces_before + seq![split_spec(s@, c).last()]);
                    assert(r.deep_view() =~= split_spec(s@, c));
                }
                return r;
            },
        }
    }
}

/// Index of the first occurrence of the pattern `p` in `s`, if any.
pub open spec fn index_of_seq(s: Seq<char>, p: Seq<char>) -> Option<int>
    decreases s.len(),
{
    if p.len() > s.len() {
        None
    } else if s.take(p.len() as int) == p {
        Some(0)
    } else if s.len() == 0 {
        None
    } else {
        match index_of_seq(s.drop_first(), p) {
            Some(i) => Some(i + 1),
            None => None,
        }
    }
}

/// A match of `p` one position later in `s` is a match in `s.drop_first()`,
/// and the other way round.
proof fn lemma_matches_at_shift(s: Seq<char>, p: Seq<char>)
    requires
        s.len() > 0,
    ensures
        forall|j: int| 0 <= j ==> (matches_at(s.drop_first(), p, j) <==> matches_at(s, p, j + 1)),
{
    let d = s.drop_first();
    assert forall|j: int| 0 <= j implies (matches_at(d, p, j) <==> matches_at(s, p, j + 1)) by {
        if j + p.len() <= d.len() {
            assert(d.subrange(j, j + p.len() as int) =~= s.subrange(j + 1, j + 1 + p.len() as int));
        }
    }
}

/// What `index_of_seq` returns: the position of the first match.
pub proof fn lemma_index_of_seq(s: Seq<char>, p: Seq<char>)
    ensures
        match index_of_seq(s, p) {
            Some(i) => matches_at(s, p, i) && forall|j: int| 0 <= j < i ==> !matches_at(s, p, j),
            None => !has_substring(s, p),
        },
    decreases s.len(),
{
    if p.len() > s.len() {
    } else if s.take(p.len() as int) == p {
        assert(s.take(p.len() as int) =~= s.subrange(0, p.len() as int));
    } else if s.len() == 0 {
    } else {
        let d = s.drop_first();
        lemma_index_of_seq(d, p);
        lemma_matches_at_shift(s, p);
        assert(!matches_at(s, p, 0)) by {
            if matches_at(s, p, 0) {
                assert(s.take(p.len() as int) =~= s.subrange(0, p.len() as int));
            }
        }
        match index_of_seq(d, p) {
            Some(i) => {
                assert forall|j: int| 0 <= j < i + 1 implies !matches_at(s, p, j) by {
                    if j >= 1 {
                        assert(!matches_at(d, p, j - 1));
                    }
                }
            },
            None => {
                assert forall|j: int| !matches_at(s, p, j) by {
                    if j >= 1 {
                        assert(!matches_at(d, p, j - 1));
                    }
                }
            },
        }
    }
}

/// `index_of_seq` is pinned down by the first-match description.
pub proof fn lemma_index_of_seq_unique(s: Seq<char>, p: Seq<char>, i: int)
    requires
        matches_at(s, p, i),
        forall|j: int| 0 <= j < i ==> !matches_at(s, p, j),
    ensures
        index_of_seq(s, p) == Some(i),
    decreases s.len(),
{
    if i == 0 {
        assert(s.take(p.len() as int) =~= s.subrange(0, p.len() as int));
    } else {
        assert(!matches_at(s, p, 0));
        assert(s.take(p.len() as int) != p) by {
            if s.take(p.len() as int) == p {
                assert(s.take(p.len() as int) =~= s.subrange(0, p.len() as int));
            }
        }
        let d = s.drop_first();
        lemma_matches_at_shift(s, p);
        assert forall|j: int| 0 <= j < i - 1 implies !matches_at(d, p, j) by {
            assert(!matches_at(s, p, j + 1));
        }
        lemma_index_of_seq_unique(d, p, i - 1);
    }
}

/// When `p` matches nowhere in `s`, `index_of_seq` returns `None`.
pub proof fn lemma_index_of_seq_none(s: Seq<char>, p: Seq<char>)
    requires
        !has_substring(s, p),
    ensures
        index_of_seq(s, p) is None,
{
    lemma_index_of_seq(s, p);
    if index_of_seq(s, p) is Some {
        assert(has_substring(s, p));
    }
}

/// `s` with every occurrence of `p` replaced by `t`, scanning left to right
/// over non-overlapping occurrences.
pub open spec fn replace_all_spec(s: Seq<char>, p: Seq<char>, t: Seq<char>) -> Seq<char>
    decreases s.len(),
    when p.len() > 0
    via replace_all_spec_decreases
{
    match index_of_seq(s, p) {
        None => s,
        Some(i) => s.take(i) + t + replace_all_spec(s.skip(i + p.len()), p, t),
    }
}

#[via_fn]
proof fn replace_all_spec_decreases(s: Seq<char>, p: Seq<char>, t: Seq<char>) {
    lemma_index_of_seq(s, p);
}

/// Replaces every occurrence of `p` in `s` by `t`, left to right.
pub fn replace_all(s: &str, p: &str, t: &str) -> (r: String)
    requires
        p@.len() > 0,
    ensures
        r@ == replace_all_spec(s@, p@, t@),
{
    let mut r = String::new();
    let mut rest = String::from_str(s);
    loop
        invariant
            p@.len() > 0,
            replace_all_spec(s@, p@, t@) == r@ + replace_all_spec(rest@, p@, t@),
        decreases rest@.len(),
    {
        let ghost done = r@;
        match find_sub(rest.as_str(), p) {
            Some(i) => {
                proof {
                    lemma_index_of_seq_unique(rest@, p@, i as int);
                }
                let n = rest.unicode_len();
                let pl = p.unicode_len();
                r.append(rest.as_str().substring_char(0, i));
                r.append(t);
                let tail = String::from_str(rest.as_str().substring_char(i + pl, n));
                proof {
                    assert(rest@.subrange(0, i as int) =~= rest@.take(i as int));
                    assert(tail@ =~= rest@.skip(i + p@.len()));
                    assert(replace_all_spec(rest@, p@, t@) == rest@.take(i as int) + t@
                        + replace_all_spec(tail@, p@, t@));
                    assert(done + replace_all_spec(rest@, p@, t@) =~= (done + rest@.take(i as int)
                        + t@) + replace_all_spec(tail@, p@, t@));
                }
                rest = tail;
            },
            None => {
                proof {
                    lemma_index_of_seq_none(rest@, p@);
                }
                r.append(rest.as_str());
                return r;
            },
        }
    }
}

/// `s` with every trailing occurrence of the character `c` removed.
pub open spec fn strip_trailing_spec(s: Seq<char>, c: char) -> Seq<char>
    decreases s.len(),
{
    if s.len() > 0 && s.last() == c {
        strip_trailing_spec(s.drop_last(), c)
    } else {
        s
    }
}

/// `strip_trailing_spec` keeps exactly the prefix that ends at the last
/// character different from `c`.
pub proof fn lemma_strip_trailing_take(s: Seq<char>, c: char, e: int)
    requires
        0 <= e <= s.len(),
        forall|j: int| e <= j < s.len() ==> s[j] == c,
        e > 0 ==> s[e - 1] != c,
    ensures
        strip_trailing_spec(s, c) == s.take(e),
    decreases s.len(),
{
    if s.len() > 0 && s.last() == c {
        assert(e < s.len());
        let d = s.drop_last();
        assert forall|j: int| e <= j < d.len() implies d[j] == c by {
            assert(d[j] == s[j]);
        }
        lemma_strip_trailing_take(d, c, e);
        assert(d.take(e) =~= s.take(e));
    } else {
        assert(e == s.len());
        assert(s.take(e) =~= s);
    }
}

/// The shape of `strip_trailing_spec`: it keeps a prefix of `s`, everything
/// after that prefix is `c`, and the prefix does not end in `c`.
pub proof fn lemma_strip_trailing_shape(s: Seq<char>, c: char)
    ensures
        strip_trailing_spec(s, c).len() <= s.len(),
        strip_trailing_spec(s, c) == s.take(strip_trailing_spec(s, c).len() as int),
        forall|j: int| strip_trailing_spec(s, c).len() <= j < s.len() ==> s[j] == c,
        strip_trailing_spec(s, c).len() > 0 ==> s[strip_trailing_spec(s, c).len() - 1] != c,
    decreases s.len(),
{
    if s.len() > 0 && s.last() == c {
        let d = s.drop_last();
        lemma_strip_trailing_shape(d, c);
        let e = strip_trailing_spec(d, c).len() as int;
        assert(d.take(e) =~= s.take(e));
        assert forall|j: int| e <= j < s.len() implies s[j] == c by {
            if j < d.len() {
                assert(d[j] == s[j]);
            }
        }
        if e > 0 {
            assert(d[e - 1] == s[e - 1]);
        }
    } else {
        assert(s.take(s.len() as int) =~= s);
    }
}

/// A sequence that does not end in `c` strips to itself.
pub proof fn lemma_strip_trailing_id(s: Seq<char>, c: char)
    requires
        s.len() == 0 || s.last() != c,
    ensures
        strip_trailing_spec(s, c) == s,
{
}

/// Stripping twice is the same as stripping once.
pub proof fn lemma_strip_trailing_idem(s: Seq<char>, c: char)
    ensures
        strip_trailing_spec(strip_trailing_spec(s, c), c) == strip_trailing_spec(s, c),
{
    lemma_strip_trailing_shape(s, c);
    let t = strip_trailing_spec(s, c);
    if t.len() > 0 {
        assert(t.last() == s[t.len() - 1]);
    }
    lemma_strip_trailing_id(t, c);
}

/// Appending `c` and stripping gives the same as stripping alone.
pub proof fn lemma_strip_trailing_push(s: Seq<char>, c: char)
    ensures
        strip_trailing_spec(s.push(c), c) == strip_trailing_spec(s, c),
{
    assert(s.push(c).drop_last() =~= s);
}

/// When the tail `v` holds a character other than `c`, stripping the
/// concatenation strips only within `v`.
pub proof fn lemma_strip_trailing_concat(u: Seq<char>, v: Seq<char>, c: char)
    requires
        strip_trailing_spec(v, c).len() > 0,
    ensures
        strip_trailing_spec(u + v, c) == u + strip_trailing_spec(v, c),
    decreases v.len(),
{
    lemma_strip_trailing_shape(v, c);
    if v.len() > 0 && v.last() == c {
        assert((u + v).last() == c);
        assert((u + v).drop_last() =~= u + v.drop_last());
        lemma_strip_trailing_concat(u, v.drop_last(), c);
    } else {
        assert(v.len() > 0);
        assert((u + v).last() == v.last());
        lemma_strip_trailing_id(u + v, c);
    }
}

/// When the tail `v` is made of `c` alone, it strips away entirely.
pub proof fn lemma_strip_trailing_concat_all(u: Seq<char>, v: Seq<char>, c: char)
    requires
        forall|j: int| 0 <= j < v.len() ==> v[j] == c,
    ensures
        strip_trailing_spec(u + v, c) == strip_trailing_spec(u, c),
    decreases v.len(),
{
    if v.len() == 0 {
        assert(u + v =~= u);
    } else {
        assert((u + v).last() == v.last());
        assert((u + v).drop_last() =~= u + v.drop_last());
        assert(forall|j: int| 0 <= j < v.drop_last().len() ==> v.drop_last()[j] == v[j]);
        lemma_strip_trailing_concat_all(u, v.drop_last(), c);
    }
}

/// Removes every trailing occurrence of the character `c` from `s`.
pub fn strip_trailing(s: &str, c: char) -> (r: String)
    ensures
        r@ == strip_trailing_spec(s@, c),
{
    let n = s.unicode_len();
    let mut e: usize = n;
    loop
        invariant
            e <= n,
            n == s@.len(),
            forall|j: int| e <= j < s@.len() ==> s@[j] == c,
        ensures
            e <= n,
            forall|j: int| e <= j < s@.len() ==> s@[j] == c,
            e > 0 ==> s@[e - 1] != c,
        decreases e,
    {
        if e == 0 {
            break;
        }
        if s.get_char(e - 1) != c {
            break;
        }
        e -= 1;
    }
    proof {
        lemma_strip_trailing_take(s@, c, e as int);
    }
    String::from_str(s.substring_char(0, e))
}

/// The ASCII whitespace characters that trimming removes.
pub open spec fn is_space_char(ch: char) -> bool {
    ch == ' ' || ch == '\t' || ch == '\r' || ch == '\n'
}

/// `s` with every leading whitespace character removed.
pub open spec fn trim_start_spec(s: Seq<char>) -> Seq<char>
    decreases s.len(),
{
    if s.len() > 0 && is_space_char(s[0]) {
        trim_start_spec(s.drop_first())
    } else {
        s
    }
}

/// `s` with every trailing whitespace character removed.
pub open spec fn trim_end_spec(s: Seq<char>) -> Seq<char>
    decreases s.len(),
{
    if s.len() > 0 && is_space_char(s.last()) {
        trim_end_spec(s.drop_last())
    } else {
        s
    }
}

/// `s` with whitespace removed from both ends.
pub open spec fn trim_spec(s: Seq<char>) -> Seq<char> {
    trim_end_spec(trim_start_spec(s))
}

/// `trim_start_spec` keeps exactly the suffix that starts at the first
/// non-whitespace character.
proof fn lemma_trim_start_skip(s: Seq<char>, a: int)
    requires
        0 <= a <= s.len(),
        forall|j: int| 0 <= j < a ==> is_space_char(s[j]),
        a < s.len() ==> !is_space_char(s[a]),
    ensures
        trim_start_spec(s) == s.skip(a),
    decreases s.len(),
{
    if s.len() > 0 && is_space_char(s[0]) {
        let d = s.drop_first();
        assert(a >= 1);
        assert forall|j: int| 0 <= j < a - 1 implies is_space_char(d[j]) by {
            assert(d[j] == s[j + 1]);
        }
        lemma_trim_start_skip(d, a - 1);
        assert(d.skip(a - 1) =~= s.skip(a));
    } else {
        assert(a == 0);
        assert(s.skip(0) =~= s);
    }
}

/// `trim_end_spec` keeps exactly the prefix that ends at the last
/// non-whitespace character.
proof fn lemma_trim_end_take(s: Seq<char>, e: int)
    requires
        0 <= e <= s.len(),
        forall|j: int| e <= j < s.len() ==> is_space_char(s[j]),
        e > 0 ==> !is_space_char(s[e - 1]),
    ensures
        trim_end_spec(s) == s.take(e),
    decreases s.len(),
{
    if s.len() > 0 && is_space_char(s.last()) {
        assert(e < s.len());
        let d = s.drop_last();
        assert forall|j: int| e <= j < d.len() implies is_space_char(d[j]) by {
            assert(d[j] == s[j]);
        }
        lemma_trim_end_take(d, e);
        assert(d.take(e) =~= s.take(e));
    } else {
        assert(e == s.len());
        assert(s.take(e) =~= s);
    }
}

/// Whether a character is one of the ASCII whitespace characters.
pub fn is_space(c: char) -> (r: bool)
    ensures
        r == is_space_char(c),
{
    c == ' ' || c == '\t' || c == '\r' || c == '\n'
}

/// Removes ASCII whitespace from both ends of `s`.
pub fn trim(s: &str) -> (r: String)
    ensures
        r@ == trim_spec(s@),
{
    let n = s.unicode_len();
    let mut a: usize = 0;
    loop
        invariant
            a <= n,
            n == s@.len(),
            forall|j: int| 0 <= j < a ==> is_space_char(s@[j]),
        ensures
            a <= n,
            forall|j: int| 0 <= j < a ==> is_space_char(s@[j]),
            a < n ==> !is_space_char(s@[a as int]),
        decreases n - a,
    {
        if a == n {
            break;
        }
        if !is_space(s.get_char(a)) {
            break;
        }
        a += 1;
    }
    let mut e: usize = n;
    loop
        invariant
            a <= e <= n,
            n == s@.len(),
            forall|j: int| e <= j < s@.len() ==> is_space_char(s@[j]),
        ensures
            a <= e <= n,
            forall|j: int| e <= j < s@.len() ==> is_space_char(s@[j]),
            e > a ==> !is_space_char(s@[e - 1]),
        decreases e,
    {
        if e == a {
            break;
        }
        if !is_space(s.get_char(e - 1)) {
            break;
        }
        e -= 1;
    }
    let r = String::from_str(s.substring_char(a, e));
    proof {
        let t = s@.skip(a as int);
        lemma_trim_start_skip(s@, a as int);
        if a < n && e == a {
            assert(!is_space_char(s@[a as int]));
            assert(false);
        }
        assert forall|j: int| e - a <= j < t.len() implies is_space_char(t[j]) by {
            assert(t[j] == s@[j + a]);
        }
        if e - a > 0 {
            assert(t[e - a - 1] == s@[e - 1]);
        }
        lemma_trim_end_take(t, e - a);
        assert(t.take(e - a) =~= s@.subrange(a as int, e as int));
    }
    r
}

/// The ASCII lower-case form of a character: `A` through `Z` map to their
/// lower-case counterparts, every other character is unchanged.
pub open spec fn lower_char(ch: char) -> char {
    if 'A' <= ch && ch <= 'Z' {
        (((ch as u8) + 32) as char)
    } else {
        ch
    }
}

/// `s` with every ASCII upper-case letter lowered.
pub open spec fn lower_spec(s: Seq<char>) -> Seq<char> {
    s.map_values(|ch: char| lower_char(ch))
}

/// Lowers every ASCII upper-case letter in `s`.
pub fn to_ascii_lower(s: &str) -> (r: String)
    ensures
        r@ == lower_spec(s@),
{
    let n = s.unicode_len();
    let mut r = String::new();
    let mut i: usize = 0;
    while i < n
        invariant
            i <= n,
            n == s@.len(),
            r@ == lower_spec(s@.take(i as int)),
        decreases n - i,
    {
        let c = s.get_char(i);
        let lc = if 'A' <= c && c <= 'Z' {
            ((c as u8) + 32) as char
        } else {
            c
        };
        push_char(&mut r, lc);
        proof {
            assert(lower_spec(s@.take(i + 1)) =~= lower_spec(s@.take(i as int)).push(
                lower_char(s@[i as int]),
            ));
        }
        i += 1;
    }
    proof {
        assert(s@.take(n as int) =~= s@);
    }
    r
}

/// The second `kv_sep`-separated field of every `pair_sep`-separated piece
/// of `s`, when every piece has one; `None` as soon as one piece does not.
pub fn kv_values(s: &str, pair_sep: char, kv_sep: char) -> (r: Option<Vec<String>>)
    ensures
        match r {
            Some(vs) => {
                let ps = split_spec(s@, pair_sep);
                &&& vs.deep_view().len() == ps.len()
                &&& forall|i: int|
                    0 <= i < ps.len() ==> split_spec(#[trigger] ps[i], kv_sep).len() >= 2
                        && vs.deep_view()[i] == split_spec(ps[i], kv_sep)[1]
            },
            None => exists|i: int|
                0 <= i < split_spec(s@, pair_sep).len() && split_spec(
                    #[trigger] split_spec(s@, pair_sep)[i],
                    kv_sep,
                ).len() < 2,
        },
{
    let pieces = split_char(s, pair_sep);
    let ghost psd = pieces.deep_view();
    let n = pieces.len();
    let mut out: Vec<String> = Vec::new();
    let mut i: usize = 0;
    while i < n
        invariant
            i <= n,
            n == psd.len(),
            psd == pieces.deep_view(),
            psd == split_spec(s@, pair_sep),
            out.deep_view().len() == i,
            forall|k: int|
                0 <= k < i ==> split_spec(#[trigger] psd[k], kv_sep).len() >= 2
                    && out.deep_view()[k] == split_spec(psd[k], kv_sep)[1],
        decreases n - i,
    {
        let ghost before = out.deep_view();
        proof {
            assert(pieces[i as int]@ == psd[i as int]);
        }
        match second_field(pieces[i].as_str(), kv_sep) {
            Some(v) => {
                out.push(v);
                proof {
                    assert(out.deep_view() =~= before.push(
                        split_spec(psd[i as int], kv_sep)[1],
                    ));
                }
            },
            None => {
                proof {
                    assert(psd[i as int] == split_spec(s@, pair_sep)[i as int]);
                    assert(split_spec(psd[i as int], kv_sep).len() < 2);
                }
                return None;
            },
        }
        i += 1;
    }
    Some(out)
}

/// The second `sep`-separated field of `s`, if `s` has at least two fields.
pub fn second_field(s: &str, sep: char) -> (r: Option<String>)
    ensures
        match r {
            Some(v) => split_spec(s@, sep).len() >= 2 && v@ == split_spec(s@, sep)[1],
            None => split_spec(s@, sep).len() < 2,
        },
{
    let pieces = split_char(s, sep);
    if pieces.len() >= 2 {
        let v = pieces[1].clone();
        assert(v@ == pieces.deep_view()[1]);
        Some(v)
    } else {
        None
    }
}

} // verus!
