//! Reference normalization: canonical rewrites of a raw reference, and the
//! expansion of a reference into the set of textually equivalent alternative
//! forms that the resolver searches for.
//!
//! Expansion proceeds in two passes.  First, a fixed table of prefix rewrite
//! rules maps historically equivalent hostnames of the same logical site onto
//! each other.  Second, every form gains a trailing-slash variant: the form
//! with all trailing slashes removed, and that form with a single trailing
//! slash.  The resulting set always contains the original reference, is
//! closed under the slash toggle, and — away from a handful of degenerate
//! host-only references — re-expanding any member adds nothing new.

use vstd::prelude::*;
use vstd::string::*;

use crate::text;

verus! {

/// A deduplicated collection of the textual forms considered equivalent to a
/// reference.  Insertion order is kept: it is the order in which the resolver
/// tries the forms, the original reference first.
pub struct AlternativeSet {
    items: Vec<String>,
}

impl View for AlternativeSet {
    type V = Seq<Seq<char>>;

    closed spec fn view(&self) -> Seq<Seq<char>> {
        self.items.deep_view()
    }
}

/// Pushing one element onto a sequence inserts it into the element set.
proof fn lemma_to_set_push(s: Seq<Seq<char>>, x: Seq<char>)
    ensures
        s.push(x).to_set() =~= s.to_set().insert(x),
{
    let t = s.push(x);
    assert forall|u: Seq<char>| t.to_set().contains(u) implies s.to_set().insert(x).contains(u) by {
        let i = choose|i: int| 0 <= i < t.len() && t[i] == u;
        if i < s.len() {
            assert(s[i] == u);
        }
    }
    assert forall|u: Seq<char>| s.to_set().insert(x).contains(u) implies t.to_set().contains(u) by {
        if s.to_set().contains(u) {
            let i = choose|i: int| 0 <= i < s.len() && s[i] == u;
            assert(t[i] == u);
        } else {
            assert(t[s.len() as int] == x);
        }
    }
}

impl AlternativeSet {
    /// The forms as a mathematical set.
    pub open spec fn to_set(&self) -> Set<Seq<char>> {
        self@.to_set()
    }

    /// No form occurs twice.
    pub open spec fn wf(&self) -> bool {
        forall|i: int, j: int| 0 <= i < j < self@.len() ==> self@[i] != self@[j]
    }

    /// An empty collection of forms.
    pub fn new() -> (r: AlternativeSet)
        ensures
            r@ =~= Seq::<Seq<char>>::empty(),
            r.wf(),
    {
        AlternativeSet { items: Vec::new() }
    }

    /// How many forms are held.
    pub fn len(&self) -> (n: usize)
        ensures
            n == self@.len(),
    {
        self.items.len()
    }

    /// The form at position `i`.
    pub fn get(&self, i: usize) -> (s: &String)
        requires
            i < self@.len(),
        ensures
            s@ == self@[i as int],
    {
        &self.items[i]
    }

    /// Whether the form `s` is already held.
    pub fn contains_form(&self, s: &String) -> (r: bool)
        ensures
            r == self@.contains(s@),
    {
        let n = self.items.len();
        let mut i: usize = 0;
        while i < n
            invariant
                i <= n,
                n == self@.len(),
                forall|j: int| 0 <= j < i ==> self@[j] != s@,
            decreases n - i,
        {
            if text::str_eq(self.items[i].as_str(), s.as_str()) {
                assert(self@[i as int] == s@);
                return true;
            }
            i += 1;
        }
        false
    }

    /// Adds the form `s` unless it is already held; existing forms keep their
    /// positions.
    pub fn insert(&mut self, s: String)
        requires
            old(self).wf(),
        ensures
            final(self).wf(),
            final(self).to_set() == old(self).to_set().insert(s@),
            !old(self)@.contains(s@) ==> final(self)@ == old(self)@.push(s@),
            old(self)@.contains(s@) ==> final(self)@ == old(self)@,
            old(self)@.is_prefix_of(final(self)@),
    {
        let ghost before = self@;
        if !self.contains_form(&s) {
            self.items.push(s);
            proof {
                assert(self@ =~= before.push(s@));
                lemma_to_set_push(before, s@);
                assert forall|i: int, j: int| 0 <= i < j < self@.len() implies self@[i]
                    != self@[j] by {
                    if j == self@.len() - 1 {
                        assert(!before.to_set().contains(s@));
                        assert(before[i] == self@[i]);
                    }
                }
                assert(before.is_prefix_of(self@));
            }
        } else {
            proof {
                assert(self.to_set().contains(s@));
                assert(self.to_set() =~= self.to_set().insert(s@));
                assert(before.is_prefix_of(self@));
            }
        }
    }
}

/// The forms one rewrite rule adds for `r`: nothing unless `r` starts with
/// the source prefix `p`, else one form per replacement prefix, with the
/// suffix after `p` preserved.
pub open spec fn rule_outputs(r: Seq<char>, p: Seq<char>, repls: Seq<Seq<char>>) -> Set<Seq<char>> {
    if text::is_prefix_of(p, r) {
        Set::new(
            |u: Seq<char>|
                exists|j: int| 0 <= j < repls.len() && u == repls[j] + r.skip(p.len() as int),
        )
    } else {
        Set::empty()
    }
}

/// Like `rule_outputs`, but only the first `j` replacement prefixes.
spec fn rule_outputs_upto(r: Seq<char>, p: Seq<char>, repls: Seq<Seq<char>>, n: int) -> Set<
    Seq<char>,
> {
    if text::is_prefix_of(p, r) {
        Set::new(
            |u: Seq<char>|
                exists|j: int| 0 <= j < n && j < repls.len() && u == repls[j] + r.skip(
                    p.len() as int,
                ),
        )
    } else {
        Set::empty()
    }
}

/// Within a prefix, the longer sequence holds the same elements.
proof fn lemma_prefix_index(a: Seq<Seq<char>>, c: Seq<Seq<char>>)
    requires
        a.is_prefix_of(c),
    ensures
        a.len() <= c.len(),
        forall|i: int| 0 <= i < a.len() ==> c[i] == a[i],
{
    assert forall|i: int| 0 <= i < a.len() implies c[i] == a[i] by {
        assert(a[i] == c.subrange(0, a.len() as int)[i]);
    }
}

/// A prefix being a prefix of a prefix is a prefix of the whole.
proof fn lemma_forms_prefix_trans(a: Seq<Seq<char>>, b: Seq<Seq<char>>, c: Seq<Seq<char>>)
    requires
        a.is_prefix_of(b),
        b.is_prefix_of(c),
    ensures
        a.is_prefix_of(c),
{
    assert forall|i: int| 0 <= i < a.len() implies a[i] == c[i] by {
        assert(a[i] == b[i]);
    }
    assert(a =~= c.subrange(0, a.len() as int));
}

/// One prefix rewrite rule of the expansion table: a source prefix and the
/// replacement prefixes that name the same logical site.
pub struct UrlTransformation {
    prefix: String,
    replacements: Vec<String>,
}

impl UrlTransformation {
    /// The source prefix.
    pub closed spec fn prefix_spec(&self) -> Seq<char> {
        self.prefix@
    }

    /// The replacement prefixes, in the order they are applied.
    pub closed spec fn repl_spec(&self) -> Seq<Seq<char>> {
        self.replacements.deep_view()
    }

    /// A rule with the given source prefix and replacement prefixes.
    pub fn new(prefix: &str, replacements: &[&str]) -> (r: UrlTransformation)
        ensures
            r.prefix_spec() == prefix@,
            r.repl_spec().len() == replacements@.len(),
            forall|j: int| 0 <= j < replacements@.len() ==> r.repl_spec()[j] == replacements@[j]@,
    {
        let mut rs: Vec<String> = Vec::new();
        let n = replacements.len();
        let mut i: usize = 0;
        while i < n
            invariant
                i <= n,
                n == replacements@.len(),
                rs.deep_view().len() == i,
                forall|j: int| 0 <= j < i ==> rs.deep_view()[j] == replacements@[j]@,
            decreases n - i,
        {
            let ghost before = rs.deep_view();
            rs.push(String::from_str(replacements[i]));
            proof {
                assert(rs.deep_view() =~= before.push(replacements@[i as int]@));
            }
            i += 1;
        }
        UrlTransformation { prefix: String::from_str(prefix), replacements: rs }
    }

    /// If `url` starts with the source prefix, adds one alternative per
    /// replacement prefix (prefix substituted, suffix preserved) to
    /// `url_alternatives`; otherwise adds nothing.
    pub fn apply(&self, url: &str, url_alternatives: &mut AlternativeSet)
        requires
            old(url_alternatives).wf(),
        ensures
            final(url_alternatives).wf(),
            final(url_alternatives).to_set() == old(url_alternatives).to_set().union(
                rule_outputs(url@, self.prefix_spec(), self.repl_spec()),
            ),
            old(url_alternatives)@.is_prefix_of(final(url_alternatives)@),
    {
        let ghost start_forms = url_alternatives@;
        let ghost start_set = url_alternatives.to_set();
        if text::starts_with(url, self.prefix.as_str()) {
            let pn = self.prefix.unicode_len();
            let un = url.unicode_len();
            let suffix = url.substring_char(pn, un);
            let ghost sfx = url@.skip(pn as int);
            proof {
                assert(suffix@ =~= sfx);
            }
            let n = self.replacements.len();
            let mut j: usize = 0;
            while j < n
                invariant
                    j <= n,
                    n == self.repl_spec().len(),
                    pn == self.prefix_spec().len(),
                    un == url@.len(),
                    suffix@ == sfx,
                    sfx == url@.skip(pn as int),
                    text::is_prefix_of(self.prefix_spec(), url@),
                    url_alternatives.wf(),
                    url_alternatives.to_set() == start_set.union(
                        rule_outputs_upto(url@, self.prefix_spec(), self.repl_spec(), j as int),
                    ),
                    start_forms.is_prefix_of(url_alternatives@),
                decreases n - j,
            {
                let ghost mid_forms = url_alternatives@;
                let form = text::concat_str(self.replacements[j].as_str(), suffix);
                proof {
                    assert(self.replacements[j as int]@ == self.repl_spec()[j as int]);
                }
                url_alternatives.insert(form);
                proof {
                    assert(url_alternatives.to_set() =~= start_set.union(
                        rule_outputs_upto(url@, self.prefix_spec(), self.repl_spec(), j + 1),
                    ));
                    lemma_forms_prefix_trans(start_forms, mid_forms, url_alternatives@);
                }
                j += 1;
            }
            proof {
                assert(rule_outputs_upto(url@, self.prefix_spec(), self.repl_spec(), n as int)
                    =~= rule_outputs(url@, self.prefix_spec(), self.repl_spec()));
            }
        } else {
            proof {
                assert(url_alternatives.to_set() =~= start_set.union(
                    rule_outputs(url@, self.prefix_spec(), self.repl_spec()),
                ));
                assert(start_forms.is_prefix_of(url_alternatives@)) by {
                    assert(start_forms =~= url_alternatives@.subrange(
                        0,
                        start_forms.len() as int,
                    ));
                }
            }
        }
    }
}

/// The mobile host prefix of the microblog site.
pub open spec fn host_mobile() -> Seq<char> {
    "https://m.weibo.cn/"@
}

/// The short desktop host prefix of the microblog site.
pub open spec fn host_cn() -> Seq<char> {
    "https://weibo.cn/"@
}

/// The main desktop host prefix of the microblog site.
pub open spec fn host_com() -> Seq<char> {
    "https://weibo.com/"@
}

/// The `www.`-qualified mobile host prefix.
pub open spec fn host_www_mobile() -> Seq<char> {
    "https://www.m.weibo.cn/"@
}

/// The `www.`-qualified short desktop host prefix.
pub open spec fn host_www_cn() -> Seq<char> {
    "https://www.weibo.cn/"@
}

/// The `www.`-qualified main desktop host prefix.
pub open spec fn host_www_com() -> Seq<char> {
    "https://www.weibo.com/"@
}

/// The forms the fixed rewrite table yields for `r`: `r` itself, plus, when
/// `r` starts with one of the known host prefixes, the same reference under
/// each of the other hosts of that site.
pub open spec fn rewrites(r: Seq<char>) -> Set<Seq<char>> {
    set![r].union(rule_outputs(r, host_mobile(), seq![host_cn(), host_com()])).union(
        rule_outputs(r, host_cn(), seq![host_mobile(), host_com()]),
    ).union(rule_outputs(r, host_com(), seq![host_cn(), host_mobile()])).union(
        rule_outputs(r, host_www_mobile(), seq![host_cn(), host_com(), host_mobile()]),
    ).union(rule_outputs(r, host_www_cn(), seq![host_mobile(), host_com(), host_cn()])).union(
        rule_outputs(r, host_www_com(), seq![host_cn(), host_mobile(), host_com()]),
    )
}

/// `u` with all trailing slashes removed.
pub open spec fn slashless(u: Seq<char>) -> Seq<char> {
    text::strip_trailing_spec(u, '/')
}

/// The trailing-slash variants of a form: the form itself, its slash-stripped
/// form, and the slash-stripped form with a single trailing slash.
pub open spec fn slash_variants(u: Seq<char>) -> Set<Seq<char>> {
    set![u, slashless(u), slashless(u).push('/')]
}

/// The trailing-slash variants of every form in `ws`.
pub open spec fn close_of(ws: Set<Seq<char>>) -> Set<Seq<char>> {
    Set::new(
        |u: Seq<char>|
            exists|w: Seq<char>| #[trigger] ws.contains(w) && slash_variants(w).contains(u),
    )
}

/// Everything `expand_alternatives` yields for the reference `r`: the
/// trailing-slash variants of every form the rewrite table yields.
pub open spec fn expand_spec(r: Seq<char>) -> Set<Seq<char>> {
    close_of(rewrites(r))
}

/// The slash variants of a member of `ws` lie in the closure of `ws`.
proof fn lemma_sv_subset_close(ws: Set<Seq<char>>, w: Seq<char>)
    requires
        ws.contains(w),
    ensures
        slash_variants(w).subset_of(close_of(ws)),
{
    assert forall|u: Seq<char>| slash_variants(w).contains(u) implies close_of(ws).contains(u) by {
        assert(ws.contains(w) && slash_variants(w).contains(u));
    }
}

/// Every reference is among its own alternative forms.
pub proof fn lemma_expand_contains_self(r: Seq<char>)
    ensures
        expand_spec(r).contains(r),
{
    assert(rewrites(r).contains(r));
    assert(slash_variants(r).contains(r));
}

/// The set of alternative forms is closed under the trailing-slash toggle: a
/// form ending in a slash has its slash-stripped companion in the set, and a
/// form not ending in a slash has the form with a slash appended in the set.
pub proof fn lemma_expand_slash_closed(r: Seq<char>, a: Seq<char>)
    requires
        expand_spec(r).contains(a),
    ensures
        a.len() > 0 && a.last() == '/' ==> expand_spec(r).contains(slashless(a)),
        !(a.len() > 0 && a.last() == '/') ==> expand_spec(r).contains(a.push('/')),
{
    let w = choose|w: Seq<char>|
        #[trigger] rewrites(r).contains(w) && slash_variants(w).contains(a);
    text::lemma_strip_trailing_shape(w, '/');
    text::lemma_strip_trailing_idem(w, '/');
    text::lemma_strip_trailing_push(slashless(w), '/');
    if a == w {
        if a.len() > 0 && a.last() == '/' {
            assert(slash_variants(w).contains(slashless(a)));
        } else {
            text::lemma_strip_trailing_id(a, '/');
            assert(slash_variants(w).contains(a.push('/')));
        }
    } else if a == slashless(w) {
        let t = slashless(w);
        if t.len() > 0 {
            assert(t.last() == w[t.len() - 1]);
        }
        assert(!(a.len() > 0 && a.last() == '/'));
        assert(slash_variants(w).contains(a.push('/')));
    } else {
        assert(a == slashless(w).push('/'));
        assert(a.len() > 0 && a.last() == '/');
        assert(slashless(a) == slashless(w)) by {
            text::lemma_strip_trailing_push(slashless(w), '/');
            text::lemma_strip_trailing_idem(w, '/');
        }
        assert(slash_variants(w).contains(slashless(a)));
    }
}

/// Whether `r` is one of the six host prefixes written without its final
/// slash.  These are the only references whose expansion is not stable under
/// re-expansion: the slash-appended variant of such a reference matches a
/// rewrite rule that the reference itself does not.
pub open spec fn is_bare_host(r: Seq<char>) -> bool {
    r == slashless(host_mobile()) || r == slashless(host_cn()) || r == slashless(host_com()) || r
        == slashless(host_www_mobile()) || r == slashless(host_www_cn()) || r == slashless(
        host_www_com(),
    )
}

/// No rewrite rule applies to `r`.
spec fn unmatched(r: Seq<char>) -> bool {
    &&& !text::is_prefix_of(host_mobile(), r)
    &&& !text::is_prefix_of(host_cn(), r)
    &&& !text::is_prefix_of(host_com(), r)
    &&& !text::is_prefix_of(host_www_mobile(), r)
    &&& !text::is_prefix_of(host_www_cn(), r)
    &&& !text::is_prefix_of(host_www_com(), r)
}

/// `p` cannot be a prefix of `h + t` when `p` and `h` differ inside `h`.
proof fn lemma_not_prefix_ext(p: Seq<char>, h: Seq<char>, t: Seq<char>, d: int)
    requires
        0 <= d < p.len(),
        d < h.len(),
        p[d] != h[d],
    ensures
        !text::is_prefix_of(p, h + t),
{
    if text::is_prefix_of(p, h + t) {
        assert(p[d] == (h + t).take(p.len() as int)[d]);
        assert((h + t)[d] == h[d]);
    }
}

/// `p` cannot be a prefix of `x` when the two differ inside both.
proof fn lemma_not_prefix_at(p: Seq<char>, x: Seq<char>, d: int)
    requires
        0 <= d < p.len(),
        d < x.len(),
        p[d] != x[d],
    ensures
        !text::is_prefix_of(p, x),
{
    if text::is_prefix_of(p, x) {
        assert(p[d] == x.take(p.len() as int)[d]);
    }
}

/// Shape facts about the six host prefixes: each ends in exactly one slash.
proof fn lemma_hosts()
    ensures
        slashless(host_mobile()).push('/') == host_mobile(),
        slashless(host_cn()).push('/') == host_cn(),
        slashless(host_com()).push('/') == host_com(),
        slashless(host_www_mobile()).push('/') == host_www_mobile(),
        slashless(host_www_cn()).push('/') == host_www_cn(),
        slashless(host_www_com()).push('/') == host_www_com(),
        slashless(host_mobile()) == host_mobile().drop_last(),
        slashless(host_cn()) == host_cn().drop_last(),
        slashless(host_com()) == host_com().drop_last(),
        slashless(host_www_mobile()) == host_www_mobile().drop_last(),
        slashless(host_www_cn()) == host_www_cn().drop_last(),
        slashless(host_www_com()) == host_www_com().drop_last(),
{
    reveal_strlit("https://m.weibo.cn/");
    reveal_strlit("https://weibo.cn/");
    reveal_strlit("https://weibo.com/");
    reveal_strlit("https://www.m.weibo.cn/");
    reveal_strlit("https://www.weibo.cn/");
    reveal_strlit("https://www.weibo.com/");
    text::lemma_strip_trailing_id(host_mobile().drop_last(), '/');
    text::lemma_strip_trailing_id(host_cn().drop_last(), '/');
    text::lemma_strip_trailing_id(host_com().drop_last(), '/');
    text::lemma_strip_trailing_id(host_www_mobile().drop_last(), '/');
    text::lemma_strip_trailing_id(host_www_cn().drop_last(), '/');
    text::lemma_strip_trailing_id(host_www_com().drop_last(), '/');
    assert(slashless(host_mobile()).push('/') =~= host_mobile());
    assert(slashless(host_cn()).push('/') =~= host_cn());
    assert(slashless(host_com()).push('/') =~= host_com());
    assert(slashless(host_www_mobile()).push('/') =~= host_www_mobile());
    assert(slashless(host_www_cn()).push('/') =~= host_www_cn());
    assert(slashless(host_www_com()).push('/') =~= host_www_com());
}

/// Of the six host prefixes, only `h` itself starts an extension of `h`.
proof fn lemma_only_own_prefix(h: Seq<char>, t: Seq<char>)
    requires
        h == host_mobile() || h == host_cn() || h == host_com() || h == host_www_mobile() || h
            == host_www_cn() || h == host_www_com(),
    ensures
        text::is_prefix_of(h, h + t),
        h != host_mobile() ==> !text::is_prefix_of(host_mobile(), h + t),
        h != host_cn() ==> !text::is_prefix_of(host_cn(), h + t),
        h != host_com() ==> !text::is_prefix_of(host_com(), h + t),
        h != host_www_mobile() ==> !text::is_prefix_of(host_www_mobile(), h + t),
        h != host_www_cn() ==> !text::is_prefix_of(host_www_cn(), h + t),
        h != host_www_com() ==> !text::is_prefix_of(host_www_com(), h + t),
{
    reveal_strlit("https://m.weibo.cn/");
    reveal_strlit("https://weibo.cn/");
    reveal_strlit("https://weibo.com/");
    reveal_strlit("https://www.m.weibo.cn/");
    reveal_strlit("https://www.weibo.cn/");
    reveal_strlit("https://www.weibo.com/");
    assert((h + t).take(h.len() as int) =~= h);
    if h == host_mobile() {
        lemma_not_prefix_ext(host_cn(), h, t, 8);
        lemma_not_prefix_ext(host_com(), h, t, 8);
        lemma_not_prefix_ext(host_www_mobile(), h, t, 8);
        lemma_not_prefix_ext(host_www_cn(), h, t, 8);
        lemma_not_prefix_ext(host_www_com(), h, t, 8);
    } else if h == host_cn() {
        lemma_not_prefix_ext(host_mobile(), h, t, 8);
        lemma_not_prefix_ext(host_com(), h, t, 15);
        lemma_not_prefix_ext(host_www_mobile(), h, t, 9);
        lemma_not_prefix_ext(host_www_cn(), h, t, 9);
        lemma_not_prefix_ext(host_www_com(), h, t, 9);
    } else if h == host_com() {
        lemma_not_prefix_ext(host_mobile(), h, t, 8);
        lemma_not_prefix_ext(host_cn(), h, t, 15);
        lemma_not_prefix_ext(host_www_mobile(), h, t, 9);
        lemma_not_prefix_ext(host_www_cn(), h, t, 9);
        lemma_not_prefix_ext(host_www_com(), h, t, 9);
    } else if h == host_www_mobile() {
        lemma_not_prefix_ext(host_mobile(), h, t, 8);
        lemma_not_prefix_ext(host_cn(), h, t, 9);
        lemma_not_prefix_ext(host_com(), h, t, 9);
        lemma_not_prefix_ext(host_www_cn(), h, t, 12);
        lemma_not_prefix_ext(host_www_com(), h, t, 12);
    } else if h == host_www_cn() {
        lemma_not_prefix_ext(host_mobile(), h, t, 8);
        lemma_not_prefix_ext(host_cn(), h, t, 9);
        lemma_not_prefix_ext(host_com(), h, t, 9);
        lemma_not_prefix_ext(host_www_mobile(), h, t, 12);
        lemma_not_prefix_ext(host_www_com(), h, t, 19);
    } else {
        lemma_not_prefix_ext(host_mobile(), h, t, 8);
        lemma_not_prefix_ext(host_cn(), h, t, 9);
        lemma_not_prefix_ext(host_com(), h, t, 9);
        lemma_not_prefix_ext(host_www_mobile(), h, t, 12);
        lemma_not_prefix_ext(host_www_cn(), h, t, 19);
    }
}

/// The three base hosts with the suffix `t` appended.
spec fn triple(t: Seq<char>) -> Set<Seq<char>> {
    set![host_mobile() + t, host_cn() + t, host_com() + t]
}

/// For an extension of a base host, the rewrite table yields exactly the
/// three base forms with the same suffix.
proof fn lemma_rewrites_base(h: Seq<char>, t: Seq<char>)
    requires
        h == host_mobile() || h == host_cn() || h == host_com(),
    ensures
        rewrites(h + t) =~= triple(t),
{
    lemma_only_own_prefix(h, t);
    let r = h + t;
    assert(r.skip(h.len() as int) =~= t);
    assert forall|u: Seq<char>| rewrites(r).contains(u) implies triple(t).contains(u) by {
        if u != r {
            if h == host_mobile() {
                let ro = rule_outputs(r, host_mobile(), seq![host_cn(), host_com()]);
                assert(ro.contains(u));
                let j = choose|j: int|
                    0 <= j < 2 && u == seq![host_cn(), host_com()][j] + r.skip(
                        host_mobile().len() as int,
                    );
                if j == 0 {
                    assert(u == host_cn() + t);
                } else {
                    assert(u == host_com() + t);
                }
            } else if h == host_cn() {
                let ro = rule_outputs(r, host_cn(), seq![host_mobile(), host_com()]);
                assert(ro.contains(u));
                let j = choose|j: int|
                    0 <= j < 2 && u == seq![host_mobile(), host_com()][j] + r.skip(
                        host_cn().len() as int,
                    );
                if j == 0 {
                    assert(u == host_mobile() + t);
                } else {
                    assert(u == host_com() + t);
                }
            } else {
                let ro = rule_outputs(r, host_com(), seq![host_cn(), host_mobile()]);
                assert(ro.contains(u));
                let j = choose|j: int|
                    0 <= j < 2 && u == seq![host_cn(), host_mobile()][j] + r.skip(
                        host_com().len() as int,
                    );
                if j == 0 {
                    assert(u == host_cn() + t);
                } else {
                    assert(u == host_mobile() + t);
                }
            }
        }
    }
    assert forall|u: Seq<char>| triple(t).contains(u) implies rewrites(r).contains(u) by {
        if h == host_mobile() {
            let repls = seq![host_cn(), host_com()];
            assert(repls[0] + r.skip(h.len() as int) == host_cn() + t);
            assert(repls[1] + r.skip(h.len() as int) == host_com() + t);
            assert(rule_outputs(r, host_mobile(), repls).contains(host_cn() + t));
            assert(rule_outputs(r, host_mobile(), repls).contains(host_com() + t));
        } else if h == host_cn() {
            let repls = seq![host_mobile(), host_com()];
            assert(repls[0] + r.skip(h.len() as int) == host_mobile() + t);
            assert(repls[1] + r.skip(h.len() as int) == host_com() + t);
            assert(rule_outputs(r, host_cn(), repls).contains(host_mobile() + t));
            assert(rule_outputs(r, host_cn(), repls).contains(host_com() + t));
        } else {
            let repls = seq![host_cn(), host_mobile()];
            assert(repls[0] + r.skip(h.len() as int) == host_cn() + t);
            assert(repls[1] + r.skip(h.len() as int) == host_mobile() + t);
            assert(rule_outputs(r, host_com(), repls).contains(host_cn() + t));
            assert(rule_outputs(r, host_com(), repls).contains(host_mobile() + t));
        }
    }
}

/// For an extension of a `www.`-qualified host, the rewrite table yields the
/// three base forms with the same suffix, plus the extension itself.
proof fn lemma_rewrites_www(h: Seq<char>, t: Seq<char>)
    requires
        h == host_www_mobile() || h == host_www_cn() || h == host_www_com(),
    ensures
        rewrites(h + t) =~= triple(t).insert(h + t),
{
    lemma_only_own_prefix(h, t);
    let r = h + t;
    assert(r.skip(h.len() as int) =~= t);
    assert forall|u: Seq<char>| rewrites(r).contains(u) implies triple(t).insert(r).contains(
        u,
    ) by {
        if u != r {
            if h == host_www_mobile() {
                let repls = seq![host_cn(), host_com(), host_mobile()];
                assert(rule_outputs(r, host_www_mobile(), repls).contains(u));
                let j = choose|j: int| 0 <= j < 3 && u == repls[j] + r.skip(h.len() as int);
                if j == 0 {
                    assert(u == host_cn() + t);
                } else if j == 1 {
                    assert(u == host_com() + t);
                } else {
                    assert(u == host_mobile() + t);
                }
            } else if h == host_www_cn() {
                let repls = seq![host_mobile(), host_com(), host_cn()];
                assert(rule_outputs(r, host_www_cn(), repls).contains(u));
                let j = choose|j: int| 0 <= j < 3 && u == repls[j] + r.skip(h.len() as int);
                if j == 0 {
                    assert(u == host_mobile() + t);
                } else if j == 1 {
                    assert(u == host_com() + t);
                } else {
                    assert(u == host_cn() + t);
                }
            } else {
                let repls = seq![host_cn(), host_mobile(), host_com()];
                assert(rule_outputs(r, host_www_com(), repls).contains(u));
                let j = choose|j: int| 0 <= j < 3 && u == repls[j] + r.skip(h.len() as int);
                if j == 0 {
                    assert(u == host_cn() + t);
                } else if j == 1 {
                    assert(u == host_mobile() + t);
                } else {
                    assert(u == host_com() + t);
                }
            }
        }
    }
    assert forall|u: Seq<char>| triple(t).insert(r).contains(u) implies rewrites(r).contains(
        u,
    ) by {
        if u != r {
            if h == host_www_mobile() {
                let repls = seq![host_cn(), host_com(), host_mobile()];
                assert(repls[0] + r.skip(h.len() as int) == host_cn() + t);
                assert(repls[1] + r.skip(h.len() as int) == host_com() + t);
                assert(repls[2] + r.skip(h.len() as int) == host_mobile() + t);
                assert(rule_outputs(r, host_www_mobile(), repls).contains(host_cn() + t));
                assert(rule_outputs(r, host_www_mobile(), repls).contains(host_com() + t));
                assert(rule_outputs(r, host_www_mobile(), repls).contains(host_mobile() + t));
            } else if h == host_www_cn() {
                let repls = seq![host_mobile(), host_com(), host_cn()];
                assert(repls[0] + r.skip(h.len() as int) == host_mobile() + t);
                assert(repls[1] + r.skip(h.len() as int) == host_com() + t);
                assert(repls[2] + r.skip(h.len() as int) == host_cn() + t);
                assert(rule_outputs(r, host_www_cn(), repls).contains(host_mobile() + t));
                assert(rule_outputs(r, host_www_cn(), repls).contains(host_com() + t));
                assert(rule_outputs(r, host_www_cn(), repls).contains(host_cn() + t));
            } else {
                let repls = seq![host_cn(), host_mobile(), host_com()];
                assert(repls[0] + r.skip(h.len() as int) == host_cn() + t);
                assert(repls[1] + r.skip(h.len() as int) == host_mobile() + t);
                assert(repls[2] + r.skip(h.len() as int) == host_com() + t);
                assert(rule_outputs(r, host_www_com(), repls).contains(host_cn() + t));
                assert(rule_outputs(r, host_www_com(), repls).contains(host_mobile() + t));
                assert(rule_outputs(r, host_www_com(), repls).contains(host_com() + t));
            }
        }
    }
}

/// When no rule applies, the table yields the reference alone.
proof fn lemma_rewrites_unmatched(r: Seq<char>)
    requires
        unmatched(r),
    ensures
        rewrites(r) =~= set![r],
{
}

/// Prefixes compose: a prefix of a prefix of `c` is a prefix of `c`.
proof fn lemma_char_prefix_trans(a: Seq<char>, b: Seq<char>, c: Seq<char>)
    requires
        text::is_prefix_of(a, b),
        text::is_prefix_of(b, c),
    ensures
        text::is_prefix_of(a, c),
{
    assert forall|i: int| 0 <= i < a.len() implies a[i] == c[i] by {
        assert(a[i] == b.take(a.len() as int)[i]);
        assert(b[i] == c.take(b.len() as int)[i]);
    }
    assert(a =~= c.take(a.len() as int));
}

/// No rewrite rule applies to a host prefix written without its final slash.
proof fn lemma_bare_unmatched(h: Seq<char>)
    requires
        h == host_mobile() || h == host_cn() || h == host_com() || h == host_www_mobile() || h
            == host_www_cn() || h == host_www_com(),
    ensures
        unmatched(slashless(h)),
{
    lemma_hosts();
    reveal_strlit("https://m.weibo.cn/");
    reveal_strlit("https://weibo.cn/");
    reveal_strlit("https://weibo.com/");
    reveal_strlit("https://www.m.weibo.cn/");
    reveal_strlit("https://www.weibo.cn/");
    reveal_strlit("https://www.weibo.com/");
    let b = slashless(h);
    assert(b.len() == h.len() - 1);
    if h == host_mobile() {
        lemma_not_prefix_at(host_cn(), b, 8);
        lemma_not_prefix_at(host_com(), b, 8);
        lemma_not_prefix_at(host_www_mobile(), b, 8);
        lemma_not_prefix_at(host_www_cn(), b, 8);
        lemma_not_prefix_at(host_www_com(), b, 8);
    } else if h == host_cn() {
        lemma_not_prefix_at(host_mobile(), b, 8);
        lemma_not_prefix_at(host_com(), b, 15);
        lemma_not_prefix_at(host_www_mobile(), b, 9);
        lemma_not_prefix_at(host_www_cn(), b, 9);
        lemma_not_prefix_at(host_www_com(), b, 9);
    } else if h == host_com() {
        lemma_not_prefix_at(host_mobile(), b, 8);
        lemma_not_prefix_at(host_cn(), b, 15);
        lemma_not_prefix_at(host_www_mobile(), b, 9);
        lemma_not_prefix_at(host_www_cn(), b, 9);
        lemma_not_prefix_at(host_www_com(), b, 9);
    } else if h == host_www_mobile() {
        lemma_not_prefix_at(host_mobile(), b, 8);
        lemma_not_prefix_at(host_cn(), b, 9);
        lemma_not_prefix_at(host_com(), b, 9);
        lemma_not_prefix_at(host_www_cn(), b, 12);
        lemma_not_prefix_at(host_www_com(), b, 12);
    } else if h == host_www_cn() {
        lemma_not_prefix_at(host_mobile(), b, 8);
        lemma_not_prefix_at(host_cn(), b, 9);
        lemma_not_prefix_at(host_com(), b, 9);
        lemma_not_prefix_at(host_www_mobile(), b, 12);
        lemma_not_prefix_at(host_www_com(), b, 19);
    } else {
        lemma_not_prefix_at(host_mobile(), b, 8);
        lemma_not_prefix_at(host_cn(), b, 9);
        lemma_not_prefix_at(host_com(), b, 9);
        lemma_not_prefix_at(host_www_mobile(), b, 12);
        lemma_not_prefix_at(host_www_cn(), b, 19);
    }
}

/// From the slash variants of `x + t` being inside `ee`, the slash variants
/// of `x` extended by the slash-toggled suffixes are inside `ee` too.
proof fn lemma_sv_shift(x: Seq<char>, t: Seq<char>, ee: Set<Seq<char>>)
    requires
        slash_variants(x + t).subset_of(ee),
        slashless(t).len() > 0,
    ensures
        slash_variants(x + slashless(t)).subset_of(ee),
        slash_variants(x + slashless(t).push('/')).subset_of(ee),
{
    let bt = slashless(t);
    text::lemma_strip_trailing_shape(t, '/');
    assert(bt.last() == t[bt.len() - 1]);
    text::lemma_strip_trailing_id(bt, '/');
    text::lemma_strip_trailing_concat(x, t, '/');
    text::lemma_strip_trailing_concat(x, bt, '/');
    assert(slash_variants(x + t).contains(x + bt));
    assert(slash_variants(x + t).contains((x + bt).push('/')));
    assert forall|u: Seq<char>| slash_variants(x + bt).contains(u) implies ee.contains(u) by {
        assert(u == x + bt || u == (x + bt).push('/'));
    }
    let y = x + bt.push('/');
    assert(y =~= (x + bt).push('/'));
    text::lemma_strip_trailing_push(x + bt, '/');
    assert(slashless(y) == x + bt);
    assert forall|u: Seq<char>| slash_variants(y).contains(u) implies ee.contains(u) by {
        assert(u == y || u == x + bt || u == slashless(y).push('/'));
        assert(slashless(y).push('/') =~= y);
    }
}

/// Idempotence for a reference that a rewrite rule matches.
proof fn lemma_idem_matched(h: Seq<char>, t: Seq<char>, a: Seq<char>)
    requires
        h == host_mobile() || h == host_cn() || h == host_com() || h == host_www_mobile() || h
            == host_www_cn() || h == host_www_com(),
        expand_spec(h + t).contains(a),
    ensures
        expand_spec(a).subset_of(expand_spec(h + t)),
{
    lemma_hosts();
    let r = h + t;
    let ee = expand_spec(r);
    let hbase = h == host_mobile() || h == host_cn() || h == host_com();
    if hbase {
        lemma_rewrites_base(h, t);
    } else {
        lemma_rewrites_www(h, t);
    }
    assert(rewrites(r).contains(r));
    assert(rewrites(r).contains(host_mobile() + t));
    assert(rewrites(r).contains(host_cn() + t));
    assert(rewrites(r).contains(host_com() + t));
    lemma_sv_subset_close(rewrites(r), r);
    lemma_sv_subset_close(rewrites(r), host_mobile() + t);
    lemma_sv_subset_close(rewrites(r), host_cn() + t);
    lemma_sv_subset_close(rewrites(r), host_com() + t);

    let w = choose|w: Seq<char>|
        #[trigger] rewrites(r).contains(w) && slash_variants(w).contains(a);
    let h1 = if w == host_mobile() + t {
        host_mobile()
    } else if w == host_cn() + t {
        host_cn()
    } else if w == host_com() + t {
        host_com()
    } else {
        h
    };
    assert(w == h1 + t);
    let h1base = h1 == host_mobile() || h1 == host_cn() || h1 == host_com();
    assert(h1base || h1 == h);
    assert(slash_variants(h1 + t).subset_of(ee));

    text::lemma_strip_trailing_shape(t, '/');
    let bt = slashless(t);
    if bt.len() > 0 {
        text::lemma_strip_trailing_concat(h1, t, '/');
        let t2 = if a == h1 + t {
            t
        } else if a == slashless(h1 + t) {
            bt
        } else {
            bt.push('/')
        };
        assert(a == h1 + t2) by {
            if a != h1 + t && a != slashless(h1 + t) {
                assert(a == slashless(h1 + t).push('/'));
                assert((h1 + bt).push('/') =~= h1 + bt.push('/'));
            }
        }
        lemma_sv_shift(host_mobile(), t, ee);
        lemma_sv_shift(host_cn(), t, ee);
        lemma_sv_shift(host_com(), t, ee);
        lemma_sv_shift(h, t, ee);
        if h1base {
            lemma_rewrites_base(h1, t2);
        } else {
            lemma_rewrites_www(h1, t2);
        }
        assert forall|u: Seq<char>| expand_spec(a).contains(u) implies ee.contains(u) by {
            let w2 = choose|w2: Seq<char>|
                #[trigger] rewrites(a).contains(w2) && slash_variants(w2).contains(u);
            assert(w2 == host_mobile() + t2 || w2 == host_cn() + t2 || w2 == host_com() + t2 || w2
                == h1 + t2);
            assert(slash_variants(w2).subset_of(ee));
        }
        assert(expand_spec(a).subset_of(ee));
    } else {
        assert(forall|j: int| 0 <= j < t.len() ==> t[j] == '/');
        text::lemma_strip_trailing_concat_all(h1, t, '/');
        text::lemma_strip_trailing_concat_all(host_mobile(), t, '/');
        text::lemma_strip_trailing_concat_all(host_cn(), t, '/');
        text::lemma_strip_trailing_concat_all(host_com(), t, '/');
        text::lemma_strip_trailing_concat_all(h, t, '/');
        let b1 = slashless(h1);
        if a == h1 + t {
            if h1base {
                lemma_rewrites_base(h1, t);
            } else {
                lemma_rewrites_www(h1, t);
            }
            assert forall|u: Seq<char>| expand_spec(a).contains(u) implies ee.contains(u) by {
                let w2 = choose|w2: Seq<char>|
                    #[trigger] rewrites(a).contains(w2) && slash_variants(w2).contains(u);
                assert(w2 == host_mobile() + t || w2 == host_cn() + t || w2 == host_com() + t || w2
                    == h1 + t);
                assert(slash_variants(w2).subset_of(ee));
            }
            assert(expand_spec(a).subset_of(ee));
        } else if a == b1 {
            lemma_bare_unmatched(h1);
            lemma_rewrites_unmatched(b1);
            text::lemma_strip_trailing_idem(h1, '/');
            assert forall|u: Seq<char>| expand_spec(a).contains(u) implies ee.contains(u) by {
                let w2 = choose|w2: Seq<char>|
                    #[trigger] rewrites(a).contains(w2) && slash_variants(w2).contains(u);
                assert(w2 == b1);
                assert(u == b1 || u == slashless(b1) || u == slashless(b1).push('/'));
                assert(slash_variants(h1 + t).contains(slashless(h1 + t)));
                assert(slash_variants(h1 + t).contains(slashless(h1 + t).push('/')));
                assert(slashless(b1) == b1);
                assert(b1.push('/') == h1);
            }
            assert(expand_spec(a).subset_of(ee));
        } else {
            assert(a == slashless(h1 + t).push('/'));
            assert(a == h1);
            let empt = Seq::<char>::empty();
            assert(h1 + empt =~= h1);
            assert(host_mobile() + empt =~= host_mobile());
            assert(host_cn() + empt =~= host_cn());
            assert(host_com() + empt =~= host_com());
            if h1base {
                lemma_rewrites_base(h1, empt);
            } else {
                lemma_rewrites_www(h1, empt);
            }
            assert(slash_variants(host_mobile()).subset_of(ee)) by {
                assert forall|u: Seq<char>| slash_variants(host_mobile()).contains(u) implies
                    ee.contains(u) by {
                    assert(u == host_mobile() || u == slashless(host_mobile()) || u == slashless(
                        host_mobile(),
                    ).push('/'));
                    assert(slash_variants(host_mobile() + t).contains(
                        slashless(host_mobile() + t),
                    ));
                    assert(slash_variants(host_mobile() + t).contains(
                        slashless(host_mobile() + t).push('/'),
                    ));
                }
            }
            assert(slash_variants(host_cn()).subset_of(ee)) by {
                assert forall|u: Seq<char>| slash_variants(host_cn()).contains(u) implies
                    ee.contains(u) by {
                    assert(u == host_cn() || u == slashless(host_cn()) || u == slashless(
                        host_cn(),
                    ).push('/'));
                    assert(slash_variants(host_cn() + t).contains(slashless(host_cn() + t)));
                    assert(slash_variants(host_cn() + t).contains(
                        slashless(host_cn() + t).push('/'),
                    ));
                }
            }
            assert(slash_variants(host_com()).subset_of(ee)) by {
                assert forall|u: Seq<char>| slash_variants(host_com()).contains(u) implies
                    ee.contains(u) by {
                    assert(u == host_com() || u == slashless(host_com()) || u == slashless(
                        host_com(),
                    ).push('/'));
                    assert(slash_variants(host_com() + t).contains(slashless(host_com() + t)));
                    assert(slash_variants(host_com() + t).contains(
                        slashless(host_com() + t).push('/'),
                    ));
                }
            }
            assert(slash_variants(h1).subset_of(ee)) by {
                assert forall|u: Seq<char>| slash_variants(h1).contains(u) implies ee.contains(
                    u,
                ) by {
                    assert(u == h1 || u == slashless(h1) || u == slashless(h1).push('/'));
                    assert(slash_variants(h1 + t).contains(slashless(h1 + t)));
                    assert(slash_variants(h1 + t).contains(slashless(h1 + t).push('/')));
                }
            }
            assert forall|u: Seq<char>| expand_spec(a).contains(u) implies ee.contains(u) by {
                let w2 = choose|w2: Seq<char>|
                    #[trigger] rewrites(a).contains(w2) && slash_variants(w2).contains(u);
                assert(w2 == host_mobile() + empt || w2 == host_cn() + empt || w2 == host_com()
                    + empt || w2 == h1 + empt);
                assert(w2 == host_mobile() || w2 == host_cn() || w2 == host_com() || w2 == h1);
                assert(slash_variants(w2).subset_of(ee));
            }
            assert(expand_spec(a).subset_of(ee));
        }
    }
}

/// Idempotence for a reference that no rewrite rule matches.
proof fn lemma_idem_unmatched(r: Seq<char>, a: Seq<char>)
    requires
        unmatched(r),
        !is_bare_host(r),
        expand_spec(r).contains(a),
    ensures
        expand_spec(a).subset_of(expand_spec(r)),
{
    lemma_hosts();
    lemma_rewrites_unmatched(r);
    let ee = expand_spec(r);
    assert(rewrites(r).contains(r));
    lemma_sv_subset_close(rewrites(r), r);
    let w = choose|w: Seq<char>|
        #[trigger] rewrites(r).contains(w) && slash_variants(w).contains(a);
    assert(w == r);
    let br = slashless(r);
    text::lemma_strip_trailing_shape(r, '/');
    text::lemma_strip_trailing_idem(r, '/');
    assert(text::is_prefix_of(br, r)) by {
        assert(br =~= r.take(br.len() as int));
    }
    assert(unmatched(br)) by {
        if text::is_prefix_of(host_mobile(), br) {
            lemma_char_prefix_trans(host_mobile(), br, r);
        }
        if text::is_prefix_of(host_cn(), br) {
            lemma_char_prefix_trans(host_cn(), br, r);
        }
        if text::is_prefix_of(host_com(), br) {
            lemma_char_prefix_trans(host_com(), br, r);
        }
        if text::is_prefix_of(host_www_mobile(), br) {
            lemma_char_prefix_trans(host_www_mobile(), br, r);
        }
        if text::is_prefix_of(host_www_cn(), br) {
            lemma_char_prefix_trans(host_www_cn(), br, r);
        }
        if text::is_prefix_of(host_www_com(), br) {
            lemma_char_prefix_trans(host_www_com(), br, r);
        }
    }
    let brs = br.push('/');
    assert(unmatched(brs)) by {
        if br.len() < r.len() {
            assert(r[br.len() as int] == '/');
            assert(text::is_prefix_of(brs, r)) by {
                assert(brs =~= r.take(brs.len() as int));
            }
        } else {
            assert(r =~= br);
        }
        lemma_host_vs_brslash(host_mobile(), r, br);
        lemma_host_vs_brslash(host_cn(), r, br);
        lemma_host_vs_brslash(host_com(), r, br);
        lemma_host_vs_brslash(host_www_mobile(), r, br);
        lemma_host_vs_brslash(host_www_cn(), r, br);
        lemma_host_vs_brslash(host_www_com(), r, br);
    }
    text::lemma_strip_trailing_push(br, '/');
    if a == r {
    } else if a == br {
        lemma_rewrites_unmatched(br);
        assert forall|u: Seq<char>| expand_spec(a).contains(u) implies ee.contains(u) by {
            let w2 = choose|w2: Seq<char>|
                #[trigger] rewrites(a).contains(w2) && slash_variants(w2).contains(u);
            assert(w2 == br);
            assert(u == br || u == slashless(br) || u == slashless(br).push('/'));
            assert(slash_variants(r).contains(br));
            assert(slash_variants(r).contains(br.push('/')));
        }
        assert(expand_spec(a).subset_of(ee));
    } else {
        assert(a == brs);
        lemma_rewrites_unmatched(brs);
        assert forall|u: Seq<char>| expand_spec(a).contains(u) implies ee.contains(u) by {
            let w2 = choose|w2: Seq<char>|
                #[trigger] rewrites(a).contains(w2) && slash_variants(w2).contains(u);
            assert(w2 == brs);
            assert(u == brs || u == slashless(brs) || u == slashless(brs).push('/'));
            assert(slashless(brs) == br);
            assert(slash_variants(r).contains(br));
            assert(slash_variants(r).contains(br.push('/')));
        }
        assert(expand_spec(a).subset_of(ee));
    }
}

/// No host prefix can start the slash-appended stripped form of an
/// unmatched, non-bare reference.
proof fn lemma_host_vs_brslash(p: Seq<char>, r: Seq<char>, br: Seq<char>)
    requires
        p == host_mobile() || p == host_cn() || p == host_com() || p == host_www_mobile() || p
            == host_www_cn() || p == host_www_com(),
        unmatched(r),
        !is_bare_host(r),
        br == slashless(r),
        text::is_prefix_of(br, r),
        br.len() < r.len() ==> text::is_prefix_of(br.push('/'), r),
    ensures
        !text::is_prefix_of(p, br.push('/')),
{
    lemma_hosts();
    let brs = br.push('/');
    if text::is_prefix_of(p, brs) {
        if p.len() <= br.len() {
            assert(text::is_prefix_of(p, br)) by {
                assert forall|i: int| 0 <= i < p.len() implies p[i] == br[i] by {
                    assert(p[i] == brs.take(p.len() as int)[i]);
                }
                assert(p =~= br.take(p.len() as int));
            }
            lemma_char_prefix_trans(p, br, r);
        } else {
            assert(p.len() == brs.len());
            assert(p =~= brs);
            if br.len() < r.len() {
                lemma_char_prefix_trans(p, r.take(brs.len() as int), r);
            } else {
                assert(r =~= br);
                assert(slashless(p) == p.drop_last());
                assert(p.drop_last() =~= br);
                assert(is_bare_host(r));
            }
        }
    }
}

/// Re-expanding any member of an expansion adds nothing: every alternative
/// form of a member is already an alternative form of the reference.  The
/// six bare host spellings (a rewrite-table host prefix written without its
/// final slash) are the one family of references for which this fails, and
/// they are excluded here.
pub proof fn lemma_expand_idempotent(r: Seq<char>, a: Seq<char>)
    requires
        expand_spec(r).contains(a),
        !is_bare_host(r),
    ensures
        expand_spec(a).subset_of(expand_spec(r)),
{
    if text::is_prefix_of(host_mobile(), r) {
        assert(r =~= host_mobile() + r.skip(host_mobile().len() as int));
        lemma_idem_matched(host_mobile(), r.skip(host_mobile().len() as int), a);
    } else if text::is_prefix_of(host_cn(), r) {
        assert(r =~= host_cn() + r.skip(host_cn().len() as int));
        lemma_idem_matched(host_cn(), r.skip(host_cn().len() as int), a);
    } else if text::is_prefix_of(host_com(), r) {
        assert(r =~= host_com() + r.skip(host_com().len() as int));
        lemma_idem_matched(host_com(), r.skip(host_com().len() as int), a);
    } else if text::is_prefix_of(host_www_mobile(), r) {
        assert(r =~= host_www_mobile() + r.skip(host_www_mobile().len() as int));
        lemma_idem_matched(host_www_mobile(), r.skip(host_www_mobile().len() as int), a);
    } else if text::is_prefix_of(host_www_cn(), r) {
        assert(r =~= host_www_cn() + r.skip(host_www_cn().len() as int));
        lemma_idem_matched(host_www_cn(), r.skip(host_www_cn().len() as int), a);
    } else if text::is_prefix_of(host_www_com(), r) {
        assert(r =~= host_www_com() + r.skip(host_www_com().len() as int));
        lemma_idem_matched(host_www_com(), r.skip(host_www_com().len() as int), a);
    } else {
        lemma_idem_unmatched(r, a);
    }
}

/// Expands a reference into every textually equivalent alternative form: the
/// reference itself (always the first form), the rewrite-table forms, and the
/// trailing-slash variants of all of these.  The forms are deduplicated and
/// their order is fixed: the original reference, then the table forms in
/// table order, then the slash variants in the order of the forms they
/// derive from.
pub fn expand_alternatives(reference: &str) -> (out: AlternativeSet)
    ensures
        out.wf(),
        out@.len() > 0,
        out@[0] == reference@,
        out.to_set() == expand_spec(reference@),
{
    let ghost r = reference@;
    let mut out = AlternativeSet::new();
    out.insert(String::from_str(reference));

    let t1 = UrlTransformation::new(
        "https://m.weibo.cn/",
        &["https://weibo.cn/", "https://weibo.com/"],
    );
    let t2 = UrlTransformation::new(
        "https://weibo.cn/",
        &["https://m.weibo.cn/", "https://weibo.com/"],
    );
    let t3 = UrlTransformation::new(
        "https://weibo.com/",
        &["https://weibo.cn/", "https://m.weibo.cn/"],
    );
    let t4 = UrlTransformation::new(
        "https://www.m.weibo.cn/",
        &["https://weibo.cn/", "https://weibo.com/", "https://m.weibo.cn/"],
    );
    let t5 = UrlTransformation::new(
        "https://www.weibo.cn/",
        &["https://m.weibo.cn/", "https://weibo.com/", "https://weibo.cn/"],
    );
    let t6 = UrlTransformation::new(
        "https://www.weibo.com/",
        &["https://weibo.cn/", "https://m.weibo.cn/", "https://weibo.com/"],
    );
    proof {
        assert(t1.repl_spec() =~= seq![host_cn(), host_com()]);
        assert(t2.repl_spec() =~= seq![host_mobile(), host_com()]);
        assert(t3.repl_spec() =~= seq![host_cn(), host_mobile()]);
        assert(t4.repl_spec() =~= seq![host_cn(), host_com(), host_mobile()]);
        assert(t5.repl_spec() =~= seq![host_mobile(), host_com(), host_cn()]);
        assert(t6.repl_spec() =~= seq![host_cn(), host_mobile(), host_com()]);
    }
    let ghost v0 = out@;
    proof {
        assert(v0[0] == r);
    }
    t1.apply(reference, &mut out);
    let ghost v1 = out@;
    t2.apply(reference, &mut out);
    let ghost v2 = out@;
    t3.apply(reference, &mut out);
    let ghost v3 = out@;
    t4.apply(reference, &mut out);
    let ghost v4 = out@;
    t5.apply(reference, &mut out);
    let ghost v5 = out@;
    t6.apply(reference, &mut out);
    proof {
        lemma_prefix_index(v0, v1);
        lemma_prefix_index(v1, v2);
        lemma_prefix_index(v2, v3);
        lemma_prefix_index(v3, v4);
        lemma_prefix_index(v4, v5);
        lemma_prefix_index(v5, out@);
        assert(out@[0] == r);
        assert(out.to_set() =~= rewrites(r));
    }

    let ghost table_forms = out@;
    proof {
        assert(out@.subrange(0, out@.len() as int) =~= table_forms);
    }
    let n = out.len();
    let mut i: usize = 0;
    while i < n
        invariant
            i <= n,
            n == table_forms.len(),
            out.wf(),
            n <= out@.len(),
            out@.subrange(0, n as int) == table_forms,
            table_forms.to_set() == rewrites(r),
            n > 0,
            table_forms[0] == r,
            out.to_set().subset_of(expand_spec(r)),
            forall|k: int|
                0 <= k < i ==> #[trigger] slash_variants(table_forms[k]).subset_of(out.to_set()),
        decreases n - i,
    {
        let ghost before = out@;
        let u = out.get(i).clone();
        proof {
            assert(u@ == table_forms[i as int]);
            assert(rewrites(r).contains(u@)) by {
                assert(table_forms.to_set().contains(u@));
            }
        }
        let b = text::strip_trailing(u.as_str(), '/');
        let bs = text::concat_str(b.as_str(), "/");
        proof {
            assert(b@ == slashless(u@));
            assert(bs@ =~= slashless(u@).push('/')) by {
                reveal_strlit("/");
            }
            assert(expand_spec(r).contains(u@));
            assert(expand_spec(r).contains(b@));
            assert(expand_spec(r).contains(bs@));
        }
        out.insert(b);
        out.insert(bs);
        proof {
            assert(out@.subrange(0, n as int) =~= table_forms);
            assert forall|k: int| 0 <= k < i + 1 implies #[trigger] slash_variants(
                table_forms[k],
            ).subset_of(out.to_set()) by {
                assert(slash_variants(table_forms[k]) =~= set![
                    table_forms[k],
                    slashless(table_forms[k]),
                    slashless(table_forms[k]).push('/'),
                ]);
                if k < i {
                    assert(slash_variants(table_forms[k]).subset_of(before.to_set()));
                    assert(before.to_set().subset_of(out.to_set()));
                } else {
                    assert(out.to_set().contains(u@)) by {
                        assert(out@.subrange(0, n as int)[i as int] == out@[i as int]);
                        assert(out@[i as int] == u@);
                    }
                    assert(out.to_set().contains(b@));
                    assert(out.to_set().contains(bs@));
                }
            }
        }
        i += 1;
    }
    proof {
        assert(out.to_set() =~= expand_spec(r)) by {
            assert forall|u: Seq<char>| expand_spec(r).contains(u) implies out.to_set().contains(
                u,
            ) by {
                let w = choose|w: Seq<char>|
                    #[trigger] rewrites(r).contains(w) && slash_variants(w).contains(u);
                assert(table_forms.to_set().contains(w));
                let k = choose|k: int| 0 <= k < table_forms.len() && table_forms[k] == w;
                assert(slash_variants(table_forms[k]).subset_of(out.to_set()));
            }
        }
        assert(out@[0] == r) by {
            assert(out@.subrange(0, n as int)[0] == out@[0]);
        }
    }
    out
}

/// A decimal digit.
pub open spec fn is_digit_char(ch: char) -> bool {
    '0' <= ch && ch <= '9'
}

/// A character allowed in a profile name: ASCII letters, digits, underscore.
pub open spec fn is_word_char(ch: char) -> bool {
    ('a' <= ch && ch <= 'z') || ('A' <= ch && ch <= 'Z') || ('0' <= ch && ch <= '9') || ch == '_'
}

/// The question prefix of the Q&A site's answer addresses.
pub open spec fn zhihu_answer_prefix() -> Seq<char> {
    "https://www.zhihu.com/question/"@
}

/// The profile prefix of the Q&A site.
pub open spec fn zhihu_people_prefix() -> Seq<char> {
    "https://www.zhihu.com/people/"@
}

/// The old host prefix of the microblogging site formerly named twitter.
pub open spec fn twitter_prefix() -> Seq<char> {
    "https://twitter.com/"@
}

/// The new host of that site, as a bare prefix test.
pub open spec fn x_prefix() -> Seq<char> {
    "https://x.com"@
}

/// The new host with the path separator, as the profile prefix.
pub open spec fn x_profile_prefix() -> Seq<char> {
    "https://x.com/"@
}

/// A volatile query starts at position `i` of `s`: a `?` followed by at
/// least one character, none of them whitespace, reaching the end.
pub open spec fn volatile_at(s: Seq<char>, i: int) -> bool {
    0 <= i < s.len() && s[i] == '?' && i + 1 < s.len() && forall|j: int|
        i < j < s.len() ==> !text::is_space_char(s[j])
}

/// Index of the first position where a volatile query starts, if any.
pub open spec fn vq_index(s: Seq<char>) -> Option<int>
    decreases s.len(),
{
    if s.len() == 0 {
        None
    } else if volatile_at(s, 0) {
        Some(0)
    } else {
        match vq_index(s.drop_first()) {
            Some(i) => Some(i + 1),
            None => None,
        }
    }
}

/// A volatile query one position later is a volatile query of the dropped
/// sequence, and the other way round.
proof fn lemma_volatile_shift(s: Seq<char>)
    requires
        s.len() > 0,
    ensures
        forall|j: int| 0 <= j ==> (volatile_at(s.drop_first(), j) <==> volatile_at(s, j + 1)),
{
    let d = s.drop_first();
    assert forall|j: int| 0 <= j implies (volatile_at(d, j) <==> volatile_at(s, j + 1)) by {
        if volatile_at(d, j) {
            assert(s[j + 1] == d[j]);
            assert forall|k: int| j + 1 < k < s.len() implies !text::is_space_char(s[k]) by {
                assert(s[k] == d[k - 1]);
            }
        }
        if volatile_at(s, j + 1) {
            assert(d[j] == s[j + 1]);
            assert forall|k: int| j < k < d.len() implies !text::is_space_char(d[k]) by {
                assert(d[k] == s[k + 1]);
            }
        }
    }
}

/// `vq_index` is pinned down by the first-occurrence description.
proof fn lemma_vq_unique(s: Seq<char>, i: int)
    requires
        volatile_at(s, i),
        forall|j: int| 0 <= j < i ==> !volatile_at(s, j),
    ensures
        vq_index(s) == Some(i),
    decreases s.len(),
{
    if i > 0 {
        lemma_volatile_shift(s);
        assert forall|j: int| 0 <= j < i - 1 implies !volatile_at(s.drop_first(), j) by {
            assert(!volatile_at(s, j + 1));
        }
        lemma_vq_unique(s.drop_first(), i - 1);
    }
}

/// Without a volatile query anywhere, `vq_index` is `None`.
proof fn lemma_vq_none(s: Seq<char>)
    requires
        forall|j: int| !volatile_at(s, j),
    ensures
        vq_index(s) is None,
    decreases s.len(),
{
    if s.len() > 0 {
        lemma_volatile_shift(s);
        assert forall|j: int| !volatile_at(s.drop_first(), j) by {
            if j >= 0 {
                assert(!volatile_at(s, j + 1));
            }
        }
        lemma_vq_none(s.drop_first());
    }
}

/// `s` with its volatile query removed: everything from the first `?` that
/// is followed only by non-whitespace characters, at least one of them.
pub open spec fn strip_volatile_query_spec(s: Seq<char>) -> Seq<char> {
    match vq_index(s) {
        Some(i) => s.take(i),
        None => s,
    }
}

/// Whether a volatile query starts at position `i`.
fn volatile_at_exec(s: &str, i: usize) -> (r: bool)
    requires
        i < s@.len(),
    ensures
        r == volatile_at(s@, i as int),
{
    let n = s.unicode_len();
    if s.get_char(i) != '?' {
        return false;
    }
    if i + 1 >= n {
        return false;
    }
    let mut j = i + 1;
    while j < n
        invariant
            i < j <= n,
            n == s@.len(),
            forall|k: int| i < k < j ==> !text::is_space_char(s@[k]),
        decreases n - j,
    {
        if text::is_space(s.get_char(j)) {
            return false;
        }
        j += 1;
    }
    true
}

/// Removes the volatile query of `s`, if it has one.
pub fn strip_volatile_query(s: &str) -> (r: String)
    ensures
        r@ == strip_volatile_query_spec(s@),
{
    let n = s.unicode_len();
    let mut i: usize = 0;
    while i < n
        invariant
            i <= n,
            n == s@.len(),
            forall|j: int| 0 <= j < i ==> !volatile_at(s@, j),
        decreases n - i,
    {
        if volatile_at_exec(s, i) {
            proof {
                lemma_vq_unique(s@, i as int);
            }
            return String::from_str(s.substring_char(0, i));
        }
        i += 1;
    }
    proof {
        lemma_vq_none(s@);
    }
    String::from_str(s)
}

/// Truncates `s` at its first `?`, if it has one.
pub open spec fn strip_query_spec(s: Seq<char>) -> Seq<char> {
    match text::index_of_char(s, '?') {
        Some(i) => s.take(i),
        None => s,
    }
}

/// Removes everything from the first `?` of `s` on.
pub fn strip_query(s: &str) -> (r: String)
    ensures
        r@ == strip_query_spec(s@),
{
    proof {
        text::lemma_index_of_char(s@, '?');
    }
    match text::find_char(s, '?') {
        Some(i) => String::from_str(s.substring_char(0, i)),
        None => String::from_str(s),
    }
}

/// Whether `s` is an answer address of the Q&A site: the question prefix,
/// one or more digits, then the answer segment.
pub open spec fn is_zhihu_answer(s: Seq<char>) -> bool {
    text::is_prefix_of(zhihu_answer_prefix(), s) && exists|k: int|
        zhihu_answer_prefix().len() < k && #[trigger] text::matches_at(s, "/answer/"@, k) && forall|
            j: int,
        | zhihu_answer_prefix().len() <= j < k ==> is_digit_char(s[j])
}

/// Decides `is_zhihu_answer` by scanning the digit run after the prefix.
fn is_zhihu_answer_exec(s: &str) -> (r: bool)
    ensures
        r == is_zhihu_answer(s@),
{
    let q = "https://www.zhihu.com/question/";
    if !text::starts_with(s, q) {
        return false;
    }
    let pn = q.unicode_len();
    let n = s.unicode_len();
    let mut k = pn;
    loop
        invariant
            pn <= k <= n,
            n == s@.len(),
            pn == zhihu_answer_prefix().len(),
            forall|j: int| pn <= j < k ==> is_digit_char(s@[j]),
        ensures
            pn <= k <= n,
            forall|j: int| pn <= j < k ==> is_digit_char(s@[j]),
            k < n ==> !is_digit_char(s@[k as int]),
        decreases n - k,
    {
        if k == n {
            break;
        }
        let c = s.get_char(k);
        if !('0' <= c && c <= '9') {
            break;
        }
        k += 1;
    }
    proof {
        reveal_strlit("/answer/");
    }
    if k == pn {
        assert(!is_zhihu_answer(s@)) by {
            if is_zhihu_answer(s@) {
                let kk = choose|kk: int|
                    zhihu_answer_prefix().len() < kk && #[trigger] text::matches_at(
                        s@,
                        "/answer/"@,
                        kk,
                    ) && forall|j: int|
                        zhihu_answer_prefix().len() <= j < kk ==> is_digit_char(s@[j]);
                assert(is_digit_char(s@[pn as int]));
            }
        }
        return false;
    }
    let an = "/answer/".unicode_len();
    if n - k < an {
        assert(!is_zhihu_answer(s@)) by {
            if is_zhihu_answer(s@) {
                let kk = choose|kk: int|
                    zhihu_answer_prefix().len() < kk && #[trigger] text::matches_at(
                        s@,
                        "/answer/"@,
                        kk,
                    ) && forall|j: int|
                        zhihu_answer_prefix().len() <= j < kk ==> is_digit_char(s@[j]);
                assert(s@[kk] == "/answer/"@[0]);
                assert(!is_digit_char(s@[kk]));
                assert(kk == k);
            }
        }
        return false;
    }
    let r = text::matches_at_pos(s, "/answer/", k);
    proof {
        if r {
            assert(is_zhihu_answer(s@)) by {
                assert(zhihu_answer_prefix().len() < k && text::matches_at(s@, "/answer/"@, k as int)
                    && forall|j: int|
                    zhihu_answer_prefix().len() <= j < k ==> is_digit_char(s@[j]));
            }
        } else {
            if is_zhihu_answer(s@) {
                let kk = choose|kk: int|
                    zhihu_answer_prefix().len() < kk && #[trigger] text::matches_at(
                        s@,
                        "/answer/"@,
                        kk,
                    ) && forall|j: int|
                        zhihu_answer_prefix().len() <= j < kk ==> is_digit_char(s@[j]);
                assert(s@[kk] == "/answer/"@[0]);
                assert(!is_digit_char(s@[kk]));
                assert(kk == k);
            }
        }
    }
    r
}

/// Whether `s` is a bare profile address of the new host: the profile
/// prefix, then a nonempty name of word characters, optionally a final
/// slash.
pub open spec fn is_x_profile(s: Seq<char>) -> bool {
    text::is_prefix_of(x_profile_prefix(), s) && x_profile_name_end(s) > x_profile_prefix().len()
        && forall|j: int|
        x_profile_prefix().len() <= j < x_profile_name_end(s) ==> is_word_char(s[j])
}

/// Where the profile name of `s` ends: before a single final slash, if one
/// is there beyond the prefix, else at the end.
pub open spec fn x_profile_name_end(s: Seq<char>) -> int {
    if s.len() > x_profile_prefix().len() && s.last() == '/' {
        s.len() - 1
    } else {
        s.len() as int
    }
}

/// Decides `is_x_profile` by scanning the name after the prefix.
fn is_x_profile_exec(s: &str) -> (r: bool)
    ensures
        r == is_x_profile(s@),
{
    let p = "https://x.com/";
    if !text::starts_with(s, p) {
        return false;
    }
    let pn = p.unicode_len();
    let n = s.unicode_len();
    let mut e = n;
    if n > pn && s.get_char(n - 1) == '/' {
        e = n - 1;
    }
    proof {
        assert(e == x_profile_name_end(s@));
    }
    if e == pn {
        return false;
    }
    let mut i = pn;
    while i < e
        invariant
            pn <= i <= e <= n,
            n == s@.len(),
            pn == x_profile_prefix().len(),
            e == x_profile_name_end(s@),
            forall|j: int| pn <= j < i ==> is_word_char(s@[j]),
        decreases e - i,
    {
        let c = s.get_char(i);
        if !(('a' <= c && c <= 'z') || ('A' <= c && c <= 'Z') || ('0' <= c && c <= '9') || c
            == '_') {
            assert(!is_word_char(s@[i as int]));
            return false;
        }
        i += 1;
    }
    true
}

/// The canonical form of an address on the microblogging site formerly
/// named twitter: the query is removed, the old host is rewritten to the new
/// one, and a bare profile address is case-folded and pointed at the
/// profile's reply timeline.
pub open spec fn twitter_canonical(s: Seq<char>) -> Seq<char> {
    let u1 = strip_query_spec(s);
    let u2 = text::replace_all_spec(u1, "twitter.com"@, "x.com"@);
    if is_x_profile(u2) {
        let u3 = text::lower_spec(u2);
        if u3.len() > 0 && u3.last() == '/' {
            u3 + "with_replies"@
        } else {
            u3 + "/with_replies"@
        }
    } else {
        u2
    }
}

/// The canonical form of a reference: site-specific rewrites applied once
/// each, in a fixed order.  Answer and profile addresses of the Q&A site
/// lose their volatile query; addresses of the microblogging site formerly
/// named twitter are canonicalized by `twitter_canonical`; the mobile host
/// of the video site is folded into the desktop host.  The first two rules
/// and the last cannot overlap; the twitter rules form one documented
/// pipeline inside `twitter_canonical`.
pub open spec fn normalize_spec(s: Seq<char>) -> Seq<char> {
    let u1 = if is_zhihu_answer(s) {
        strip_volatile_query_spec(s)
    } else {
        s
    };
    let u2 = if text::is_prefix_of(zhihu_people_prefix(), u1) {
        strip_volatile_query_spec(u1)
    } else {
        u1
    };
    let u3 = if text::is_prefix_of(twitter_prefix(), u2) || text::is_prefix_of(x_prefix(), u2) {
        twitter_canonical(u2)
    } else {
        u2
    };
    text::replace_all_spec(u3, "m.youtube.com"@, "youtube.com"@)
}

/// Canonicalizes a raw reference by the fixed site-specific rewrites.
pub fn normalize(url: &str) -> (r: String)
    ensures
        r@ == normalize_spec(url@),
{
    let mut u = String::from_str(url);
    if is_zhihu_answer_exec(u.as_str()) {
        let t = strip_volatile_query(u.as_str());
        u = t;
    }
    if text::starts_with(u.as_str(), "https://www.zhihu.com/people/") {
        let t = strip_volatile_query(u.as_str());
        u = t;
    }
    if text::starts_with(u.as_str(), "https://twitter.com/") || text::starts_with(
        u.as_str(),
        "https://x.com",
    ) {
        let t = strip_query(u.as_str());
        proof {
            reveal_strlit("twitter.com");
        }
        let t2 = text::replace_all(t.as_str(), "twitter.com", "x.com");
        u = t2;
        if is_x_profile_exec(u.as_str()) {
            let low = text::to_ascii_lower(u.as_str());
            u = low;
            let n = u.as_str().unicode_len();
            if n > 0 && u.as_str().get_char(n - 1) == '/' {
                u.append("with_replies");
            } else {
                u.append("/with_replies");
            }
        }
    }
    proof {
        reveal_strlit("m.youtube.com");
    }
    text::replace_all(u.as_str(), "m.youtube.com", "youtube.com")
}

} // verus!
