//! Line annotation: removing a stale review marker, merging tags without
//! duplication, appending the card terminator, and rewriting the one line of
//! a file that matches a target line.
//!
//! A review marker is an embedded span of the form `<!--SR:!` … `-->` whose
//! inside holds no `>`; stripping it signals that the line needs
//! re-scheduling.  The card terminator `;;` marks a line as a reviewable
//! unit; it is appended only when the line does not already carry it and the
//! following source line does not hold a question mark.

use vstd::prelude::*;
use vstd::string::*;

use crate::text;

verus! {

/// The opening delimiter of a review marker.
pub open spec fn marker_open() -> Seq<char> {
    "<!--SR:!"@
}

/// The closing delimiter of a review marker.
pub open spec fn marker_close() -> Seq<char> {
    "-->"@
}

/// The card terminator token.
pub open spec fn card_terminator() -> Seq<char> {
    ";;"@
}

/// A review marker occupies `s[i..j)`: the opening delimiter, inner
/// characters none of which is `>`, then the closing delimiter.
pub open spec fn marker_at(s: Seq<char>, i: int, j: int) -> bool {
    &&& 0 <= i
    &&& i + marker_open().len() <= j - marker_close().len()
    &&& j <= s.len()
    &&& text::matches_at(s, marker_open(), i)
    &&& text::matches_at(s, marker_close(), j - marker_close().len())
    &&& forall|k: int| i + marker_open().len() <= k < j - marker_close().len() ==> s[k] != '>'
}

/// A review marker starts at position `i` of `s`.
pub open spec fn marker_start_at(s: Seq<char>, i: int) -> bool {
    exists|j: int| marker_at(s, i, j)
}

/// `s` holds a review marker somewhere.
pub open spec fn has_marker(s: Seq<char>) -> bool {
    exists|i: int| marker_start_at(s, i)
}

/// The first position at or after `i` where a marker starts, if any.
pub open spec fn marker_index_from(s: Seq<char>, i: int) -> Option<int>
    decreases s.len() - i,
    when 0 <= i <= s.len()
{
    if i >= s.len() {
        None
    } else if marker_start_at(s, i) {
        Some(i)
    } else {
        marker_index_from(s, i + 1)
    }
}

/// The position of the first review marker of `s`, if any.
pub open spec fn marker_index(s: Seq<char>) -> Option<int> {
    marker_index_from(s, 0)
}

/// What `marker_index_from` returns: the first marker start at or after `i`.
proof fn lemma_marker_index_from(s: Seq<char>, i: int)
    requires
        0 <= i <= s.len(),
    ensures
        match marker_index_from(s, i) {
            Some(m) => i <= m < s.len() && marker_start_at(s, m) && forall|k: int|
                i <= k < m ==> !marker_start_at(s, k),
            None => forall|k: int| i <= k ==> !marker_start_at(s, k),
        },
    decreases s.len() - i,
{
    if i >= s.len() {
        reveal_strlit("<!--SR:!");
        assert forall|k: int| i <= k implies !marker_start_at(s, k) by {
            if marker_start_at(s, k) {
                let j = choose|j: int| marker_at(s, k, j);
                assert(k + marker_open().len() <= s.len());
            }
        }
    } else if !marker_start_at(s, i) {
        lemma_marker_index_from(s, i + 1);
    }
}

/// The characters of a matched closing delimiter.
proof fn lemma_close_chars(s: Seq<char>, e: int)
    requires
        text::matches_at(s, marker_close(), e),
    ensures
        s[e] == '-',
        s[e + 1] == '-',
        s[e + 2] == '>',
{
    reveal_strlit("-->");
    assert(s.subrange(e, e + 3)[0] == s[e]);
    assert(s.subrange(e, e + 3)[1] == s[e + 1]);
    assert(s.subrange(e, e + 3)[2] == s[e + 2]);
}

/// The position and the end of the first review marker are each unique.
proof fn lemma_marker_end_unique(s: Seq<char>, i: int, j1: int, j2: int)
    requires
        marker_at(s, i, j1),
        marker_at(s, i, j2),
    ensures
        j1 == j2,
{
    reveal_strlit("-->");
    lemma_close_chars(s, j1 - 3);
    lemma_close_chars(s, j2 - 3);
    if j1 < j2 {
        assert(s[j1 - 1] == '>');
        if j1 - 1 < j2 - 3 {
            assert(s[j1 - 1] != '>');
        } else {
            assert(s[j1 - 1] == '-');
        }
    }
    if j2 < j1 {
        assert(s[j2 - 1] == '>');
        if j2 - 1 < j1 - 3 {
            assert(s[j2 - 1] != '>');
        } else {
            assert(s[j2 - 1] == '-');
        }
    }
}

/// The end of the marker starting at `i`, when one starts there.
pub open spec fn marker_end(s: Seq<char>, i: int) -> int {
    choose|j: int| marker_at(s, i, j)
}

/// `s` with its first review marker removed, if it has one.
pub open spec fn strip_marker_spec(s: Seq<char>) -> Seq<char> {
    match marker_index(s) {
        Some(i) => s.take(i) + s.skip(marker_end(s, i)),
        None => s,
    }
}

/// A marker-free sequence strips to itself.
pub proof fn lemma_strip_marker_id(s: Seq<char>)
    requires
        !has_marker(s),
    ensures
        strip_marker_spec(s) == s,
{
    lemma_marker_index_from(s, 0);
    if marker_index(s) is Some {
        let m = marker_index(s)->0;
        assert(marker_start_at(s, m));
    }
}

/// Whether the marker starting at `i` exists, and where it ends.
fn marker_end_exec(s: &str, i: usize) -> (r: Option<usize>)
    requires
        i <= s@.len(),
    ensures
        match r {
            Some(j) => marker_at(s@, i as int, j as int),
            None => !marker_start_at(s@, i as int),
        },
{
    proof {
        reveal_strlit("<!--SR:!");
        reveal_strlit("-->");
    }
    let n = s.unicode_len();
    let op = "<!--SR:!";
    if n - i < 11 {
        proof {
            if marker_start_at(s@, i as int) {
                let j = choose|j: int| marker_at(s@, i as int, j);
            }
        }
        return None;
    }
    if !text::matches_at_pos(s, op, i) {
        proof {
            if marker_start_at(s@, i as int) {
                let j = choose|j: int| marker_at(s@, i as int, j);
            }
        }
        return None;
    }
    let mut k = i + 8;
    loop
        invariant
            i + 8 <= k <= n,
            n == s@.len(),
            forall|m: int| i + 8 <= m < k ==> s@[m] != '>',
        ensures
            i + 8 <= k <= n,
            forall|m: int| i + 8 <= m < k ==> s@[m] != '>',
            k < n ==> s@[k as int] == '>',
        decreases n - k,
    {
        if k == n {
            break;
        }
        if s.get_char(k) == '>' {
            break;
        }
        k += 1;
    }
    if k == n {
        proof {
            if marker_start_at(s@, i as int) {
                let j = choose|j: int| marker_at(s@, i as int, j);
                lemma_close_chars(s@, j - 3);
                assert(s@[j - 1] == '>');
                assert(j - 1 >= i + 8);
            }
        }
        return None;
    }
    proof {
        if marker_start_at(s@, i as int) {
            let j = choose|j: int| marker_at(s@, i as int, j);
            lemma_close_chars(s@, j - 3);
            assert(s@[j - 1] == '>');
            assert(s@[j - 2] == '-');
            assert(s@[j - 3] == '-');
            assert(j - 1 >= k) by {
                if j - 1 < k {
                    assert(s@[j - 1] != '>');
                }
            }
            assert(k >= j - 3) by {
                if k < j - 3 {
                    assert(s@[k as int] != '>');
                }
            }
            assert(j == k + 1);
        }
    }
    if k < i + 10 {
        return None;
    }
    if s.get_char(k - 1) == '-' && s.get_char(k - 2) == '-' {
        proof {
            assert(text::matches_at(s@, marker_close(), k - 2)) by {
                assert(marker_close() =~= s@.subrange(k - 2, k + 1));
            }
            assert(marker_at(s@, i as int, k + 1));
        }
        Some(k + 1)
    } else {
        None
    }
}

/// Removes the first review marker of `s`, if it has one.
pub fn strip_marker(s: &str) -> (r: String)
    ensures
        r@ == strip_marker_spec(s@),
{
    let n = s.unicode_len();
    let mut i: usize = 0;
    while i < n
        invariant
            i <= n,
            n == s@.len(),
            forall|k: int| 0 <= k < i ==> !marker_start_at(s@, k),
        decreases n - i,
    {
        match marker_end_exec(s, i) {
            Some(j) => {
                proof {
                    lemma_marker_index_from(s@, 0);
                    assert(marker_start_at(s@, i as int));
                    assert(marker_index(s@) == Some(i as int)) by {
                        match marker_index(s@) {
                            Some(m) => {
                                assert(!(m < i) && !(i < m));
                            },
                            None => {
                                assert(!marker_start_at(s@, i as int));
                            },
                        }
                    }
                    lemma_marker_end_unique(s@, i as int, j as int, marker_end(s@, i as int));
                }
                let before = s.substring_char(0, i);
                let after = s.substring_char(j, n);
                let r = text::concat_str(before, after);
                proof {
                    assert(before@ =~= s@.take(i as int));
                    assert(after@ =~= s@.skip(j as int));
                }
                return r;
            },
            None => {},
        }
        i += 1;
    }
    proof {
        lemma_marker_index_from(s@, 0);
        if marker_index(s@) is Some {
            let m = marker_index(s@)->0;
            assert(!marker_start_at(s@, m));
        }
    }
    String::from_str(s)
}

/// `line` with `tag` appended after a space, unless `tag` already occurs in
/// `line`.
pub open spec fn merge_tag_spec(line: Seq<char>, tag: Seq<char>) -> Seq<char> {
    if text::has_substring(line, tag) {
        line
    } else {
        line + " "@ + tag
    }
}

/// `line` with each tag merged in, in order.
pub open spec fn merge_tags_spec(line: Seq<char>, tags: Seq<Seq<char>>) -> Seq<char>
    decreases tags.len(),
{
    if tags.len() == 0 {
        line
    } else {
        merge_tags_spec(merge_tag_spec(line, tags[0]), tags.drop_first())
    }
}

/// Merges every tag of `tags` into `line`: a tag that already occurs in the
/// line, anywhere, is not appended again.
pub fn merge_tags(line: &str, tags: &Vec<String>) -> (r: String)
    ensures
        r@ == merge_tags_spec(line@, tags.deep_view()),
{
    let mut cur = String::from_str(line);
    let n = tags.len();
    let mut i: usize = 0;
    proof {
        assert(tags.deep_view().skip(0) =~= tags.deep_view());
    }
    while i < n
        invariant
            i <= n,
            n == tags.deep_view().len(),
            merge_tags_spec(line@, tags.deep_view()) == merge_tags_spec(
                cur@,
                tags.deep_view().skip(i as int),
            ),
        decreases n - i,
    {
        let ghost ts = tags.deep_view();
        proof {
            assert(ts.skip(i as int)[0] == ts[i as int]);
            assert(ts.skip(i as int).drop_first() =~= ts.skip(i + 1));
            assert(tags[i as int]@ == ts[i as int]);
        }
        if !text::contains_sub(cur.as_str(), tags[i].as_str()) {
            cur.append(" ");
            cur.append(tags[i].as_str());
            proof {
                reveal_strlit(" ");
            }
        }
        i += 1;
    }
    proof {
        assert(tags.deep_view().skip(n as int) =~= Seq::<Seq<char>>::empty());
    }
    cur
}

/// Whether an annotated line counts as a reviewable card: it carries the
/// card terminator already, or the following source line holds a question
/// mark.
pub open spec fn is_card_spec(line: Seq<char>, next: Option<Seq<char>>) -> bool {
    text::has_substring(line, card_terminator()) || (next is Some && text::has_substring(
        next->0,
        "?"@,
    ))
}

/// The annotated form of a matched line: the review marker is stripped, the
/// tags are merged in, and, unless the result is already a card, the card
/// terminator is appended.
pub open spec fn annotate_line_spec(
    line: Seq<char>,
    next: Option<Seq<char>>,
    tags: Seq<Seq<char>>,
) -> Seq<char> {
    let merged = merge_tags_spec(strip_marker_spec(line), tags);
    if is_card_spec(merged, next) {
        merged
    } else {
        merged + " ;; "@
    }
}

/// Annotates one line, with `next_line` the following source line, if any.
pub fn annotate_line(line: &str, next_line: Option<&String>, tags: &Vec<String>) -> (r: String)
    ensures
        r@ == annotate_line_spec(
            line@,
            match next_line {
                Some(nl) => Some(nl@),
                None => None,
            },
            tags.deep_view(),
        ),
{
    let stripped = strip_marker(line);
    let merged = merge_tags(stripped.as_str(), tags);
    let mut card = text::contains_sub(merged.as_str(), ";;");
    if !card {
        match next_line {
            Some(nl) => {
                if text::contains_sub(nl.as_str(), "?") {
                    card = true;
                }
            },
            None => {},
        }
    }
    if card {
        merged
    } else {
        text::concat_str(merged.as_str(), " ;; ")
    }
}

/// The file's lines after annotation: every line equal to `target` is
/// annotated, with the following source line as its lookahead; every other
/// line is kept unchanged.  Every occurrence of the target is rewritten, not
/// only the first.
pub open spec fn annotate_lines_spec(
    lines: Seq<Seq<char>>,
    target: Seq<char>,
    tags: Seq<Seq<char>>,
) -> Seq<Seq<char>> {
    Seq::new(
        lines.len(),
        |i: int|
            if lines[i] == target {
                annotate_line_spec(
                    lines[i],
                    if i + 1 < lines.len() {
                        Some(lines[i + 1])
                    } else {
                        None
                    },
                    tags,
                )
            } else {
                lines[i]
            },
    )
}

/// Annotates every line of `lines` equal to `target_line`, leaving all other
/// lines unchanged.  When no line matches, the lines come back unchanged.
pub fn annotate_lines(lines: &Vec<String>, target_line: &String, tags: &Vec<String>) -> (r: Vec<
    String,
>)
    ensures
        r.deep_view() == annotate_lines_spec(lines.deep_view(), target_line@, tags.deep_view()),
        (forall|i: int| 0 <= i < lines.deep_view().len() ==> lines.deep_view()[i] != target_line@)
            ==> r.deep_view() == lines.deep_view(),
{
    let ghost lv = lines.deep_view();
    let ghost goal = annotate_lines_spec(lv, target_line@, tags.deep_view());
    let mut out: Vec<String> = Vec::new();
    let n = lines.len();
    let mut i: usize = 0;
    while i < n
        invariant
            i <= n,
            n == lv.len(),
            lv == lines.deep_view(),
            goal == annotate_lines_spec(lv, target_line@, tags.deep_view()),
            out.deep_view() =~= goal.take(i as int),
        decreases n - i,
    {
        let ghost before = out.deep_view();
        if text::str_eq(lines[i].as_str(), target_line.as_str()) {
            let next: Option<&String> = if i + 1 < n {
                Some(&lines[i + 1])
            } else {
                None
            };
            let a = annotate_line(lines[i].as_str(), next, tags);
            proof {
                assert(lines[i as int]@ == lv[i as int]);
                assert(a@ == goal[i as int]);
            }
            out.push(a);
        } else {
            let copy = lines[i].clone();
            proof {
                assert(copy@ == lv[i as int]);
                assert(lv[i as int] == goal[i as int]);
            }
            out.push(copy);
        }
        proof {
            assert(out.deep_view() =~= before.push(goal[i as int]));
            assert(out.deep_view() =~= goal.take(i + 1));
        }
        i += 1;
    }
    proof {
        assert(out.deep_view() =~= goal);
        if forall|k: int| 0 <= k < lv.len() ==> lv[k] != target_line@ {
            assert(goal =~= lv);
        }
    }
    out
}

/// A substring of `l` is a substring of `l` extended by anything.
proof fn lemma_substring_extend(l: Seq<char>, x: Seq<char>, t: Seq<char>)
    requires
        text::has_substring(l, t),
    ensures
        text::has_substring(l + x, t),
{
    let i = choose|i: int| text::matches_at(l, t, i);
    assert(text::matches_at(l + x, t, i)) by {
        assert((l + x).subrange(i, i + t.len() as int) =~= l.subrange(i, i + t.len() as int));
    }
}

/// Merging tags only extends the line.
proof fn lemma_merge_tags_prefix(l: Seq<char>, tags: Seq<Seq<char>>)
    ensures
        text::is_prefix_of(l, merge_tags_spec(l, tags)),
    decreases tags.len(),
{
    assert(text::is_prefix_of(l, l)) by {
        assert(l =~= l.take(l.len() as int));
    }
    if tags.len() > 0 {
        let l1 = merge_tag_spec(l, tags[0]);
        assert(text::is_prefix_of(l, l1)) by {
            if !text::has_substring(l, tags[0]) {
                assert(l =~= (l + " "@ + tags[0]).take(l.len() as int));
            }
        }
        lemma_merge_tags_prefix(l1, tags.drop_first());
        text::lemma_prefix_trans(l, l1, merge_tags_spec(l1, tags.drop_first()));
    }
}

/// A substring of a prefix is a substring of the whole.
proof fn lemma_substring_of_prefix(l: Seq<char>, m: Seq<char>, t: Seq<char>)
    requires
        text::is_prefix_of(l, m),
        text::has_substring(l, t),
    ensures
        text::has_substring(m, t),
{
    let i = choose|i: int| text::matches_at(l, t, i);
    assert(text::matches_at(m, t, i)) by {
        assert forall|k: int| 0 <= k < l.len() implies m[k] == l[k] by {
            assert(l[k] == m.take(l.len() as int)[k]);
        }
        assert(m.subrange(i, i + t.len() as int) =~= l.subrange(i, i + t.len() as int));
    }
}

/// After the merge, every tag occurs in the line.
proof fn lemma_merge_tags_all_present(l: Seq<char>, tags: Seq<Seq<char>>)
    ensures
        forall|k: int|
            0 <= k < tags.len() ==> text::has_substring(merge_tags_spec(l, tags), tags[k]),
    decreases tags.len(),
{
    if tags.len() > 0 {
        let l1 = merge_tag_spec(l, tags[0]);
        assert(text::has_substring(l1, tags[0])) by {
            if !text::has_substring(l, tags[0]) {
                let w = l + " "@ + tags[0];
                assert(text::matches_at(w, tags[0], l.len() + 1 as int)) by {
                    reveal_strlit(" ");
                    assert(w.subrange(l.len() as int + 1, l.len() + 1 + tags[0].len() as int) =~= tags[0]);
                }
            }
        }
        lemma_merge_tags_prefix(l1, tags.drop_first());
        lemma_substring_of_prefix(l1, merge_tags_spec(l1, tags.drop_first()), tags[0]);
        lemma_merge_tags_all_present(l1, tags.drop_first());
        assert forall|k: int|
            0 <= k < tags.len() implies text::has_substring(
            merge_tags_spec(l, tags),
            tags[k],
        ) by {
            if k >= 1 {
                assert(tags.drop_first()[k - 1] == tags[k]);
            }
        }
    }
}

/// Merging tags that all occur in the line already changes nothing.
proof fn lemma_merge_tags_id(l: Seq<char>, tags: Seq<Seq<char>>)
    requires
        forall|k: int| 0 <= k < tags.len() ==> text::has_substring(l, tags[k]),
    ensures
        merge_tags_spec(l, tags) == l,
    decreases tags.len(),
{
    if tags.len() > 0 {
        assert(text::has_substring(l, tags[0]));
        assert(forall|k: int|
            0 <= k < tags.drop_first().len() ==> tags.drop_first()[k] == tags[k + 1]);
        lemma_merge_tags_id(l, tags.drop_first());
    }
}

/// Merging the same tags twice gives the same line as merging them once: a
/// tag already present is never appended again.
pub proof fn lemma_merge_idempotent(l: Seq<char>, tags: Seq<Seq<char>>)
    ensures
        merge_tags_spec(merge_tags_spec(l, tags), tags) == merge_tags_spec(l, tags),
{
    lemma_merge_tags_all_present(l, tags);
    lemma_merge_tags_id(merge_tags_spec(l, tags), tags);
}

/// A tag that cannot close a review marker: it holds no `>`.
pub open spec fn no_close_char(t: Seq<char>) -> bool {
    forall|j: int| 0 <= j < t.len() ==> t[j] != '>'
}

/// Appending text without `>` to a marker-free line keeps it marker-free.
proof fn lemma_no_marker_append(l: Seq<char>, x: Seq<char>)
    requires
        !has_marker(l),
        no_close_char(x),
    ensures
        !has_marker(l + x),
{
    let w = l + x;
    if has_marker(w) {
        reveal_strlit("-->");
        reveal_strlit("<!--SR:!");
        let i = choose|i: int| marker_start_at(w, i);
        let j = choose|j: int| marker_at(w, i, j);
        lemma_close_chars(w, j - 3);
        assert(w[j - 1] == '>');
        if j - 1 >= l.len() {
            assert(w[j - 1] == x[j - 1 - l.len()]);
        } else {
            assert(j <= l.len());
            assert(marker_at(l, i, j)) by {
                assert(forall|k: int| 0 <= k < l.len() ==> w[k] == l[k]);
                assert(l.subrange(i, i + marker_open().len() as int) =~= w.subrange(
                    i,
                    i + marker_open().len() as int,
                ));
                assert(l.subrange(j - marker_close().len(), j as int) =~= w.subrange(
                    j - marker_close().len(),
                    j as int,
                ));
            }
            assert(marker_start_at(l, i));
        }
    }
}

/// Merging tags without `>` into a marker-free line keeps it marker-free.
proof fn lemma_merge_marker_free(l: Seq<char>, tags: Seq<Seq<char>>)
    requires
        !has_marker(l),
        forall|k: int| 0 <= k < tags.len() ==> no_close_char(#[trigger] tags[k]),
    ensures
        !has_marker(merge_tags_spec(l, tags)),
    decreases tags.len(),
{
    if tags.len() > 0 {
        let l1 = merge_tag_spec(l, tags[0]);
        assert(!has_marker(l1)) by {
            if !text::has_substring(l, tags[0]) {
                let x = " "@ + tags[0];
                assert(no_close_char(x)) by {
                    reveal_strlit(" ");
                }
                lemma_no_marker_append(l, x);
                assert(l + " "@ + tags[0] =~= l + x);
            }
        }
        assert(forall|k: int|
            0 <= k < tags.drop_first().len() ==> tags.drop_first()[k] == tags[k + 1]);
        lemma_merge_marker_free(l1, tags.drop_first());
    }
}

/// A review marker, once stripped, never reappears: annotating a line whose
/// marker stripping left it marker-free, with tags that hold no `>`, yields
/// a line without any review marker.
pub proof fn lemma_annotate_marker_free(
    line: Seq<char>,
    next: Option<Seq<char>>,
    tags: Seq<Seq<char>>,
)
    requires
        !has_marker(strip_marker_spec(line)),
        forall|k: int| 0 <= k < tags.len() ==> no_close_char(#[trigger] tags[k]),
    ensures
        !has_marker(annotate_line_spec(line, next, tags)),
{
    let merged = merge_tags_spec(strip_marker_spec(line), tags);
    lemma_merge_marker_free(strip_marker_spec(line), tags);
    if !is_card_spec(merged, next) {
        assert(no_close_char(" ;; "@)) by {
            reveal_strlit(" ;; ");
        }
        lemma_no_marker_append(merged, " ;; "@);
    }
}

/// Annotating a line twice with the same tags gives the same line as
/// annotating it once, provided one stripping removes every review marker of
/// the line and no tag holds a `>`.
pub proof fn lemma_annotate_idempotent(
    line: Seq<char>,
    next: Option<Seq<char>>,
    tags: Seq<Seq<char>>,
)
    requires
        !has_marker(strip_marker_spec(line)),
        forall|k: int| 0 <= k < tags.len() ==> no_close_char(#[trigger] tags[k]),
    ensures
        annotate_line_spec(annotate_line_spec(line, next, tags), next, tags) == annotate_line_spec(
            line,
            next,
            tags,
        ),
{
    let stripped = strip_marker_spec(line);
    let merged = merge_tags_spec(stripped, tags);
    let a1 = annotate_line_spec(line, next, tags);
    lemma_annotate_marker_free(line, next, tags);
    lemma_strip_marker_id(a1);
    lemma_merge_tags_all_present(stripped, tags);
    assert(forall|k: int| 0 <= k < tags.len() ==> text::has_substring(a1, #[trigger] tags[k])) by {
        if !is_card_spec(merged, next) {
            assert forall|k: int|
                0 <= k < tags.len() implies text::has_substring(a1, #[trigger] tags[k]) by {
                lemma_substring_extend(merged, " ;; "@, tags[k]);
            }
        }
    }
    lemma_merge_tags_id(a1, tags);
    assert(is_card_spec(a1, next)) by {
        if is_card_spec(merged, next) {
            if text::has_substring(merged, card_terminator()) {
                assert(a1 == merged);
            }
        } else {
            reveal_strlit(" ;; ");
            reveal_strlit(";;");
            assert(text::matches_at(a1, card_terminator(), merged.len() as int + 1)) by {
                assert(a1.subrange(merged.len() as int + 1, merged.len() as int + 3) =~= card_terminator());
            }
        }
    }
}

/// The raw lines of a text: each piece ends with the newline that closes it,
/// and a text that does not end in a newline keeps its unterminated final
/// piece.  The pieces concatenate back to the text, byte for byte.
pub open spec fn raw_lines_spec(s: Seq<char>) -> Seq<Seq<char>>
    decreases s.len(),
    via raw_lines_spec_decreases
{
    if s.len() == 0 {
        Seq::empty()
    } else {
        match text::index_of_char(s, '\n') {
            Some(i) => seq![s.take(i + 1)] + raw_lines_spec(s.skip(i + 1)),
            None => seq![s],
        }
    }
}

#[via_fn]
proof fn raw_lines_spec_decreases(s: Seq<char>) {
    text::lemma_index_of_char(s, '\n');
}

/// The logical content of a raw line: the piece without its closing newline,
/// and without the carriage return of a CRLF ending.  An unterminated final
/// piece is its own content.
pub open spec fn logical_line_spec(seg: Seq<char>) -> Seq<char> {
    if seg.len() > 0 && seg.last() == '\n' {
        let t = seg.drop_last();
        if t.len() > 0 && t.last() == '\r' {
            t.drop_last()
        } else {
            t
        }
    } else {
        seg
    }
}

/// The line ending of a raw line: what follows its logical content — empty,
/// a newline, or a carriage return and a newline.
pub open spec fn terminator_spec(seg: Seq<char>) -> Seq<char> {
    seg.skip(logical_line_spec(seg).len() as int)
}

/// A raw line is its logical content followed by its line ending.
proof fn lemma_raw_line_decompose(seg: Seq<char>)
    ensures
        logical_line_spec(seg) + terminator_spec(seg) == seg,
        logical_line_spec(seg).len() <= seg.len(),
{
    assert(logical_line_spec(seg) =~= seg.take(logical_line_spec(seg).len() as int));
    assert(logical_line_spec(seg) + terminator_spec(seg) =~= seg);
}

/// The raw lines of a text concatenate back to the text.
pub open spec fn concat_segs_spec(segs: Seq<Seq<char>>) -> Seq<char>
    decreases segs.len(),
{
    if segs.len() == 0 {
        Seq::empty()
    } else {
        segs[0] + concat_segs_spec(segs.drop_first())
    }
}

/// Splitting a text into raw lines loses nothing: the concatenation of the
/// pieces is the text itself.
pub proof fn lemma_raw_lines_concat(s: Seq<char>)
    ensures
        concat_segs_spec(raw_lines_spec(s)) == s,
    decreases s.len(),
{
    text::lemma_index_of_char(s, '\n');
    if s.len() == 0 {
        assert(concat_segs_spec(raw_lines_spec(s)) =~= s);
    } else {
        match text::index_of_char(s, '\n') {
            Some(i) => {
                let head = s.take(i + 1);
                let rest = s.skip(i + 1);
                lemma_raw_lines_concat(rest);
                let segs = seq![head] + raw_lines_spec(rest);
                assert(segs[0] == head);
                assert(segs.drop_first() =~= raw_lines_spec(rest));
                assert(head + rest =~= s);
            },
            None => {
                let segs = seq![s];
                assert(segs.drop_first() =~= Seq::<Seq<char>>::empty());
                assert(s + concat_segs_spec(segs.drop_first()) =~= s);
            },
        }
    }
}

/// Splits a text into its raw lines, line endings kept.
pub fn split_raw_lines(s: &str) -> (r: Vec<String>)
    ensures
        r.deep_view() == raw_lines_spec(s@),
{
    let mut r: Vec<String> = Vec::new();
    let mut rest = String::from_str(s);
    loop
        invariant
            raw_lines_spec(s@) == r.deep_view() + raw_lines_spec(rest@),
        decreases rest@.len(),
    {
        let ghost done = r.deep_view();
        let n = rest.unicode_len();
        if n == 0 {
            proof {
                assert(raw_lines_spec(s@) =~= r.deep_view());
            }
            return r;
        }
        proof {
            text::lemma_index_of_char(rest@, '\n');
        }
        match text::find_char(rest.as_str(), '\n') {
            Some(i) => {
                let piece = String::from_str(rest.as_str().substring_char(0, i + 1));
                let tail = String::from_str(rest.as_str().substring_char(i + 1, n));
                proof {
                    assert(piece@ =~= rest@.take(i + 1));
                    assert(tail@ =~= rest@.skip(i + 1));
                }
                r.push(piece);
                proof {
                    assert(r.deep_view() =~= done.push(rest@.take(i + 1)));
                    assert(raw_lines_spec(rest@) == seq![rest@.take(i + 1)] + raw_lines_spec(
                        rest@.skip(i + 1),
                    ));
                    assert(done + raw_lines_spec(rest@) =~= r.deep_view() + raw_lines_spec(tail@));
                }
                rest = tail;
            },
            None => {
                proof {
                    assert(raw_lines_spec(rest@) == seq![rest@]);
                }
                r.push(rest);
                proof {
                    assert(r.deep_view() =~= done.push(raw_lines_spec(s@).last()));
                    assert(r.deep_view() =~= raw_lines_spec(s@));
                }
                return r;
            },
        }
    }
}

/// The logical content of one raw line.
pub fn logical_line(seg: &str) -> (r: String)
    ensures
        r@ == logical_line_spec(seg@),
{
    let n = seg.unicode_len();
    if n > 0 && seg.get_char(n - 1) == '\n' {
        if n > 1 && seg.get_char(n - 2) == '\r' {
            let r = String::from_str(seg.substring_char(0, n - 2));
            proof {
                assert(r@ =~= seg@.drop_last().drop_last());
            }
            r
        } else {
            let r = String::from_str(seg.substring_char(0, n - 1));
            proof {
                assert(r@ =~= seg@.drop_last());
            }
            r
        }
    } else {
        String::from_str(seg)
    }
}

/// The raw lines of a file after annotation: every raw line whose logical
/// content equals `target` is replaced by the annotated content followed by
/// the raw line's own ending; every other raw line keeps its bytes.  The
/// lookahead of a matched line is the logical content of the following raw
/// line.
pub open spec fn annotate_raw_lines_spec(
    segs: Seq<Seq<char>>,
    target: Seq<char>,
    tags: Seq<Seq<char>>,
) -> Seq<Seq<char>> {
    Seq::new(
        segs.len(),
        |i: int|
            if logical_line_spec(segs[i]) == target {
                annotate_line_spec(
                    logical_line_spec(segs[i]),
                    if i + 1 < segs.len() {
                        Some(logical_line_spec(segs[i + 1]))
                    } else {
                        None
                    },
                    tags,
                ) + terminator_spec(segs[i])
            } else {
                segs[i]
            },
    )
}

/// Annotates every line of `content` whose logical content equals
/// `target_line`, merging the tags and the card terminator in as
/// `annotate_line_spec` says.  Only matched lines change, and each keeps its
/// own line ending; every other byte of the content, line endings included,
/// comes back unchanged.  In particular, when no line matches, the result is
/// the content itself, byte for byte.
pub fn annotate_text(content: &str, target_line: &String, tags: &Vec<String>) -> (r: String)
    ensures
        r@ == concat_segs_spec(
            annotate_raw_lines_spec(raw_lines_spec(content@), target_line@, tags.deep_view()),
        ),
        (forall|i: int|
            0 <= i < raw_lines_spec(content@).len() ==> logical_line_spec(
                #[trigger] raw_lines_spec(content@)[i],
            ) != target_line@) ==> r@ == content@,
{
    let segs = split_raw_lines(content);
    let ghost sd = segs.deep_view();
    let ghost goal = annotate_raw_lines_spec(sd, target_line@, tags.deep_view());
    let n = segs.len();
    let mut out = String::new();
    let mut i: usize = 0;
    proof {
        assert(goal.skip(0) =~= goal);
    }
    while i < n
        invariant
            i <= n,
            n == sd.len(),
            sd == segs.deep_view(),
            goal == annotate_raw_lines_spec(sd, target_line@, tags.deep_view()),
            concat_segs_spec(goal) == out@ + concat_segs_spec(goal.skip(i as int)),
        decreases n - i,
    {
        let ghost done = out@;
        let logical = logical_line(segs[i].as_str());
        proof {
            assert(segs[i as int]@ == sd[i as int]);
            lemma_raw_line_decompose(sd[i as int]);
        }
        let piece: String;
        if text::str_eq(logical.as_str(), target_line.as_str()) {
            let next_logical: Option<String> = if i + 1 < n {
                Some(logical_line(segs[i + 1].as_str()))
            } else {
                None
            };
            proof {
                if i + 1 < n {
                    assert(segs[i + 1]@ == sd[i + 1]);
                }
            }
            let ann = match &next_logical {
                Some(nl) => annotate_line(logical.as_str(), Some(nl), tags),
                None => annotate_line(logical.as_str(), None, tags),
            };
            let ll = logical.as_str().unicode_len();
            let sn = segs[i].as_str().unicode_len();
            let term = segs[i].as_str().substring_char(ll, sn);
            proof {
                assert(term@ == terminator_spec(sd[i as int]));
            }
            piece = text::concat_str(ann.as_str(), term);
            proof {
                assert(piece@ == goal[i as int]);
            }
        } else {
            piece = segs[i].clone();
            proof {
                assert(piece@ == goal[i as int]);
            }
        }
        out.append(piece.as_str());
        proof {
            assert(goal.skip(i as int)[0] == goal[i as int]);
            assert(goal.skip(i as int).drop_first() =~= goal.skip(i + 1));
            assert(concat_segs_spec(goal.skip(i as int)) == goal[i as int] + concat_segs_spec(
                goal.skip(i + 1),
            ));
            assert(done + concat_segs_spec(goal.skip(i as int)) =~= (done + goal[i as int])
                + concat_segs_spec(goal.skip(i + 1)));
        }
        i += 1;
    }
    proof {
        assert(goal.skip(n as int) =~= Seq::<Seq<char>>::empty());
        if forall|k: int|
            0 <= k < raw_lines_spec(content@).len() ==> logical_line_spec(
                #[trigger] raw_lines_spec(content@)[k],
            ) != target_line@ {
            assert(goal =~= sd);
            lemma_raw_lines_concat(content@);
        }
    }
    out
}

} // verus!
