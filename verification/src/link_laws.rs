//! What the links of a text are, and what pointing them elsewhere leaves.
use crate::parser::{link_text, links_of_matches, rewritten, wikilinks_of};
use crate::patterns::{
    are_links, in_sequence, is_stop, link_form, link_head, links_found, links_from, stop_from,
    MatchView,
};
use crate::types::{LinkView, Zone};
use vstd::prelude::*;

verus! {

proof fn lemma_stop(u: Seq<char>, i: int, bar: bool)
    requires
        0 <= i <= u.len(),
    ensures
        i <= stop_from(u, i, bar) <= u.len(),
        forall|j: int| i <= j < stop_from(u, i, bar) ==> !is_stop(#[trigger] u[j], bar),
        stop_from(u, i, bar) < u.len() ==> is_stop(u[stop_from(u, i, bar)], bar),
    decreases u.len() - i,
{
    if i < u.len() && !is_stop(u[i], bar) {
        lemma_stop(u, i + 1, bar);
    }
}

proof fn lemma_stop_is(u: Seq<char>, i: int, bar: bool, r: int)
    requires
        0 <= i <= r < u.len(),
        forall|j: int| i <= j < r ==> !is_stop(#[trigger] u[j], bar),
        is_stop(u[r], bar),
    ensures
        stop_from(u, i, bar) == r,
    decreases r - i,
{
    if i < r {
        lemma_stop_is(u, i + 1, bar, r);
    }
}

/// Whether a text can be the target of a link.
pub open spec fn is_target(f: Seq<char>) -> bool {
    f.len() > 0 && !f.contains(']') && !f.contains('|')
}

/// Whether a text can be displayed for a link.
pub open spec fn is_display(d: Option<Seq<char>>) -> bool {
    d matches Some(t) ==> t.len() > 0 && !t.contains(']')
}

/// The link at the start of a text is one as it is written.
pub proof fn lemma_head(u: Seq<char>)
    ensures
        link_head(u) matches Some(m) ==> {
            &&& m.start == 0 && 4 < m.end <= u.len()
            &&& is_target(m.first) && is_display(m.second)
            &&& u.take(m.end) == link_form(m.first, m.second)
        },
{
    reveal(link_head);
    if let Some(m) = link_head(u) {
        lemma_stop(u, 2, true);
        let a = stop_from(u, 2, true);
        let f = m.first;
        reveal_strlit("[[");
        reveal_strlit("]]");
        reveal_strlit("|");
        if f.contains(']') {
            let j = f.index_of(']');
            assert(u[2 + j] == ']');
        }
        if f.contains('|') {
            let j = f.index_of('|');
            assert(u[2 + j] == '|');
        }
        if u[a] == '|' {
            lemma_stop(u, a + 1, false);
            let b = stop_from(u, a + 1, false);
            let d = m.second->0;
            if d.contains(']') {
                let j = d.index_of(']');
                assert(u[a + 1 + j] == ']');
            }
            assert(u[b] == ']');
            assert(u.take(m.end) =~= link_form(f, m.second));
        } else {
            assert(u.take(m.end) =~= link_form(f, m.second));
        }
    }
}

/// The links of a text lie one after the other, each as it is written.
pub proof fn lemma_links_from(s: Seq<char>, pos: int)
    requires
        0 <= pos <= s.len(),
    ensures
        in_sequence(links_from(s, pos), s.len() as int),
        are_links(links_from(s, pos), s),
        forall|i: int|
            0 <= i < links_from(s, pos).len() ==> pos <= (#[trigger] links_from(s, pos)[i]).start
                && is_target(links_from(s, pos)[i].first) && is_display(
                links_from(s, pos)[i].second,
            ),
    decreases s.len() - pos,
{
    if pos < s.len() {
        let u = s.skip(pos);
        let ms = links_from(s, pos);
        lemma_head(u);
        match link_head(u) {
            Some(m) => {
                lemma_links_from(s, pos + m.end);
                let r = links_from(s, pos + m.end);
                assert forall|i: int| 0 <= i < ms.len() implies 0 <= (#[trigger] ms[i]).start
                    <= ms[i].end <= s.len() && pos <= ms[i].start && is_target(ms[i].first) && is_display(
                    ms[i].second,
                ) && s.subrange(ms[i].start, ms[i].end) == link_form(ms[i].first, ms[i].second) by {
                    if i > 0 {
                        assert(ms[i] == r[i - 1]);
                    } else {
                        assert(s.subrange(pos, pos + m.end) =~= u.take(m.end));
                    }
                }
                assert forall|i: int, j: int| 0 <= i < j < ms.len() implies (#[trigger] ms[i]).end
                    <= (#[trigger] ms[j]).start by {
                    assert(ms[j] == r[j - 1]);
                    if i > 0 {
                        assert(ms[i] == r[i - 1]);
                    }
                }
            },
            None => {
                lemma_links_from(s, pos + 1);
            },
        }
    }
}

/// The target and the displayed text of each of some links.
pub open spec fn ends_of(ms: Seq<MatchView>) -> Seq<(Seq<char>, Option<Seq<char>>)> {
    Seq::new(ms.len(), |i: int| (ms[i].first, ms[i].second))
}

/// The same with one target in place of another.
pub open spec fn retargeted(
    l: Seq<(Seq<char>, Option<Seq<char>>)>,
    old_target: Seq<char>,
    new_target: Seq<char>,
) -> Seq<(Seq<char>, Option<Seq<char>>)> {
    Seq::new(
        l.len(),
        |i: int|
            (
                if l[i].0 == old_target {
                    new_target
                } else {
                    l[i].0
                },
                l[i].1,
            ),
    )
}

spec fn after_bar(d: Option<Seq<char>>) -> int {
    match d {
        Some(t) => 1 + t.len() as int,
        None => 0,
    }
}

/// The characters of a link.
proof fn lemma_form(f: Seq<char>, d: Option<Seq<char>>)
    requires
        is_target(f),
        is_display(d),
    ensures
        ({
            let l = link_form(f, d);
            let n: int = 2 + f.len() as int;
            let e = n + after_bar(d);
            &&& l.len() == e + 2
            &&& l[0] == '[' && l[1] == '[' && l[e] == ']' && l[e + 1] == ']'
            &&& forall|j: int| 0 <= j < n ==> !is_stop(#[trigger] l[j], true)
            &&& forall|j: int| 0 <= j < e ==> !is_stop(#[trigger] l[j], false)
            &&& is_stop(l[n], true)
            &&& d is Some ==> l[n] == '|'
            &&& d is None ==> l[n] == ']'
            &&& l.subrange(2, n) == f
            &&& d matches Some(t) ==> t.len() > 0 && l.subrange(n + 1, e) == t
        }),
{
    let l = link_form(f, d);
    let n: int = 2 + f.len() as int;
    let e = n + after_bar(d);
    reveal_strlit("[[");
    reveal_strlit("]]");
    reveal_strlit("|");
    assert(l.subrange(2, n) =~= f);
    assert forall|j: int| 0 <= j < n implies !is_stop(#[trigger] l[j], true) by {
        if j >= 2 {
            assert(l[j] == f[j - 2]);
        }
    }
    if let Some(t) = d {
        assert(l.subrange(n + 1, e) =~= t);
        assert forall|j: int| 0 <= j < e implies !is_stop(#[trigger] l[j], false) by {
            if j < n {
                assert(!is_stop(l[j], true));
            } else if j > n {
                assert(l[j] == t[j - n - 1]);
            }
        }
    } else {
        assert forall|j: int| 0 <= j < e implies !is_stop(#[trigger] l[j], false) by {
            assert(!is_stop(l[j], true));
        }
    }
}

/// A text that begins with a link.
proof fn lemma_head_form(f: Seq<char>, d: Option<Seq<char>>, v: Seq<char>)
    requires
        is_target(f),
        is_display(d),
    ensures
        link_head(link_form(f, d) + v) == Some(
            MatchView { start: 0, end: link_form(f, d).len() as int, first: f, second: d },
        ),
{
    reveal(link_head);
    let l = link_form(f, d);
    let u = l + v;
    let n: int = 2 + f.len() as int;
    let e = n + after_bar(d);
    lemma_form(f, d);
    assert forall|j: int| 0 <= j < l.len() implies #[trigger] u[j] == l[j] by {}
    lemma_stop_is(u, 2, true, n);
    assert(u.subrange(2, n) =~= l.subrange(2, n));
    if d is Some {
        lemma_stop_is(u, n + 1, false, e);
        assert(u.subrange(n + 1, e) =~= l.subrange(n + 1, e));
    }
}

/// Whether a link begins a text does not hang on the target of a later one.
proof fn lemma_head_before(
    g: Seq<char>,
    f: Seq<char>,
    k: Seq<char>,
    d: Option<Seq<char>>,
    v: Seq<char>,
    w: Seq<char>,
)
    requires
        g.len() > 0,
        is_target(f),
        is_target(k),
        is_display(d),
        link_head(g + (link_form(k, d) + w)) is Some,
    ensures
        link_head(g + (link_form(f, d) + v)) is Some,
{
    reveal(link_head);
    let l = link_form(f, d);
    let m = link_form(k, d);
    let u = g + (l + v);
    let x = g + (m + w);
    let q = g.len() as int;
    lemma_form(f, d);
    lemma_form(k, d);
    assert forall|j: int| 0 <= j < q implies #[trigger] u[j] == g[j] && x[j] == g[j] by {}
    assert forall|j: int| q <= j < q + l.len() implies #[trigger] u[j] == l[j - q] by {}
    assert forall|j: int| q <= j < q + m.len() implies #[trigger] x[j] == m[j - q] by {}
    assert(u[q] == '[' && x[q] == '[' && u[q + 1] == '[');
    assert(x[0] == '[' && x[1] == '[');
    assert(u[0] == x[0] && u[1] == x[1]) by {
        if q > 1 {
            assert(u[1] == g[1] && x[1] == g[1]);
        }
        assert(u[0] == g[0] && x[0] == g[0]);
    }
    let n: int = q + 2 + f.len();
    let e: int = n + after_bar(d);
    assert(u[n] == l[n - q] && u[e] == l[e - q] && u[e + 1] == l[e + 1 - q]);
    lemma_stop(x, 2, true);
    lemma_stop(u, 2, true);
    let a = stop_from(x, 2, true);
    if a < q {
        assert forall|j: int| 2 <= j < a implies !is_stop(#[trigger] u[j], true) by {
            assert(u[j] == g[j] && x[j] == g[j]);
        }
        assert(u[a] == x[a]);
        lemma_stop_is(u, 2, true, a);
        if x[a] == '|' {
            lemma_stop(x, a + 1, false);
            let b = stop_from(x, a + 1, false);
            if b < q {
                assert forall|j: int| a + 1 <= j < b implies !is_stop(#[trigger] u[j], false) by {
                    assert(u[j] == g[j] && x[j] == g[j]);
                }
                assert(u[b] == x[b]);
                lemma_stop_is(u, a + 1, false, b);
                if b + 1 < q {
                    assert(u[b + 1] == g[b + 1] && x[b + 1] == g[b + 1]);
                }
            } else {
                assert forall|j: int| a + 1 <= j < e implies !is_stop(#[trigger] u[j], false) by {
                    if j < q {
                        assert(u[j] == g[j] && x[j] == g[j]);
                        assert(!is_stop(x[j], false));
                    } else {
                        assert(u[j] == l[j - q]);
                    }
                }
                lemma_stop_is(u, a + 1, false, e);
            }
        } else {
            if a + 1 < q {
                assert(u[a + 1] == g[a + 1] && x[a + 1] == g[a + 1]);
            }
        }
    } else {
        assert forall|j: int| 2 <= j < n implies !is_stop(#[trigger] u[j], true) by {
            if j < q {
                assert(u[j] == g[j] && x[j] == g[j]);
                assert(!is_stop(x[j], true));
            } else {
                assert(u[j] == l[j - q]);
            }
        }
        lemma_stop_is(u, 2, true, n);
        if d is Some {
            assert forall|j: int| n + 1 <= j < e implies !is_stop(#[trigger] u[j], false) by {
                assert(u[j] == l[j - q]);
            }
            lemma_stop_is(u, n + 1, false, e);
        }
    }
}

/// The ends of the links of a text.
spec fn ends_in(u: Seq<char>) -> Seq<(Seq<char>, Option<Seq<char>>)>
    decreases u.len(),
{
    if u.len() == 0 {
        Seq::empty()
    } else {
        match link_head(u) {
            Some(m) => if 0 < m.end <= u.len() {
                seq![(m.first, m.second)] + ends_in(u.skip(m.end))
            } else {
                Seq::empty()
            },
            None => ends_in(u.skip(1)),
        }
    }
}

proof fn lemma_ends(s: Seq<char>, pos: int)
    requires
        0 <= pos <= s.len(),
    ensures
        ends_of(links_from(s, pos)) == ends_in(s.skip(pos)),
    decreases s.len() - pos,
{
    let u = s.skip(pos);
    if pos < s.len() {
        lemma_head(u);
        match link_head(u) {
            Some(m) => {
                lemma_ends(s, pos + m.end);
                assert(u.skip(m.end) =~= s.skip(pos + m.end));
                assert(ends_of(links_from(s, pos)) =~= seq![(m.first, m.second)] + ends_of(
                    links_from(s, pos + m.end),
                ));
            },
            None => {
                lemma_ends(s, pos + 1);
                assert(u.skip(1) =~= s.skip(pos + 1));
            },
        }
    } else {
        assert(ends_of(links_from(s, pos)) =~= ends_in(u));
    }
}

spec fn new_end(
    f: Seq<char>,
    old_target: Seq<char>,
    new_target: Seq<char>,
) -> Seq<char> {
    if f == old_target {
        new_target
    } else {
        f
    }
}

#[verifier::spinoff_prover]
proof fn lemma_retarget(s: Seq<char>, pos: int, old_target: Seq<char>, new_target: Seq<char>)
    requires
        0 <= pos <= s.len(),
        is_target(new_target),
    ensures
        ends_in(rewritten(s, links_from(s, pos), pos, old_target, new_target)) == retargeted(
            ends_of(links_from(s, pos)),
            old_target,
            new_target,
        ),
    decreases s.len() - pos,
{
    let ms = links_from(s, pos);
    let t = rewritten(s, ms, pos, old_target, new_target);
    let all = retargeted(ends_of(ms), old_target, new_target);
    let u = s.skip(pos);
    lemma_links_from(s, pos);
    lemma_head(u);
    if pos == s.len() {
        assert(t.len() == 0);
        assert(all =~= ends_in(t));
    } else if link_head(u) is Some {
        let h = link_head(u)->0;
        let m = ms[0];
        let r = links_from(s, m.end);
        assert(ms == seq![m] + r);
        assert(ms.drop_first() =~= r);
        let k = new_end(m.first, old_target, new_target);
        let l = link_text(s, m, old_target, new_target);
        let w = rewritten(s, r, m.end, old_target, new_target);
        assert(l == link_form(k, m.second));
        assert(s.subrange(pos, m.start) =~= Seq::<char>::empty());
        assert(t =~= l + w);
        lemma_head_form(k, m.second, w);
        assert(t.skip(l.len() as int) =~= w);
        lemma_retarget(s, m.end, old_target, new_target);
        assert(all =~= seq![(k, m.second)] + retargeted(ends_of(r), old_target, new_target));
    } else {
        lemma_links_from(s, pos + 1);
        lemma_retarget(s, pos + 1, old_target, new_target);
        let t1 = rewritten(s, ms, pos + 1, old_target, new_target);
        if ms.len() == 0 {
            assert(t.skip(1) =~= t1);
        } else {
            let m = ms[0];
            assert(m == links_from(s, pos + 1)[0]);
            let k = new_end(m.first, old_target, new_target);
            let l = link_text(s, m, old_target, new_target);
            let w = rewritten(s, ms.drop_first(), m.end, old_target, new_target);
            let g = s.subrange(pos, m.start);
            assert(l == link_form(k, m.second));
            assert(g =~= seq![s[pos]] + s.subrange(pos + 1, m.start));
            assert(t =~= g + (l + w));
            assert(t.skip(1) =~= t1);
            assert(u =~= g + (link_form(m.first, m.second) + s.skip(m.end)));
            if link_head(t) is Some {
                lemma_head_before(g, m.first, k, m.second, s.skip(m.end), w);
            }
        }
    }
}

/// After pointing the links to one target at another, a text has the links that
/// it had, in the same order and displayed as before, those to the old target
/// pointing at the new one.
pub proof fn law_links_retargeted(s: Seq<char>, old_target: Seq<char>, new_target: Seq<char>)
    requires
        is_target(new_target),
    ensures
        ends_of(links_found(rewritten(s, links_found(s), 0, old_target, new_target))) == retargeted(
            ends_of(links_found(s)),
            old_target,
            new_target,
        ),
{
    let t = rewritten(s, links_found(s), 0, old_target, new_target);
    lemma_retarget(s, 0, old_target, new_target);
    lemma_ends(t, 0);
    assert(t.skip(0) =~= t);
}

// ---------------------------------------------------------------------------
// The rest of the text
// ---------------------------------------------------------------------------
/// A piece of a text: one character that is in no link, or a link.
pub enum Piece {
    Plain(Seq<char>),
    Link(Seq<char>, Option<Seq<char>>),
}

/// The pieces of a text, in their order.
pub open spec fn pieces(u: Seq<char>) -> Seq<Piece>
    decreases u.len(),
{
    if u.len() == 0 {
        Seq::empty()
    } else if link_head(u) is Some {
        let m = link_head(u)->0;
        if 0 < m.end <= u.len() {
            seq![Piece::Link(m.first, m.second)] + pieces(u.skip(m.end))
        } else {
            Seq::empty()
        }
    } else {
        seq![Piece::Plain(u.take(1))] + pieces(u.skip(1))
    }
}

/// The text that pieces make.
pub open spec fn pieced(ps: Seq<Piece>) -> Seq<char>
    decreases ps.len(),
{
    if ps.len() == 0 {
        Seq::empty()
    } else {
        (match ps[0] {
            Piece::Plain(c) => c,
            Piece::Link(f, d) => link_form(f, d),
        }) + pieced(ps.drop_first())
    }
}

/// The pieces with one target in place of another.
pub open spec fn pieces_retargeted(
    ps: Seq<Piece>,
    old_target: Seq<char>,
    new_target: Seq<char>,
) -> Seq<Piece> {
    Seq::new(
        ps.len(),
        |i: int|
            match ps[i] {
                Piece::Plain(c) => Piece::Plain(c),
                Piece::Link(f, d) => Piece::Link(
                    if f == old_target {
                        new_target
                    } else {
                        f
                    },
                    d,
                ),
            },
    )
}

/// A text is what its pieces make.
pub proof fn law_pieces_make_the_text(u: Seq<char>)
    ensures
        pieced(pieces(u)) == u,
    decreases u.len(),
{
    let ps = pieces(u);
    if u.len() > 0 {
        lemma_head(u);
        match link_head(u) {
            Some(m) => {
                law_pieces_make_the_text(u.skip(m.end));
                assert(ps.drop_first() =~= pieces(u.skip(m.end)));
                assert(u =~= u.take(m.end) + u.skip(m.end));
            },
            None => {
                law_pieces_make_the_text(u.skip(1));
                assert(ps == seq![Piece::Plain(u.take(1))] + pieces(u.skip(1)));
                assert(ps.drop_first() =~= pieces(u.skip(1)));
                assert(u =~= seq![u[0]] + u.skip(1));
            },
        }
    }
}

#[verifier::spinoff_prover]
proof fn lemma_retarget_pieces(s: Seq<char>, pos: int, old_target: Seq<char>, new_target: Seq<char>)
    requires
        0 <= pos <= s.len(),
        is_target(new_target),
    ensures
        pieces(rewritten(s, links_from(s, pos), pos, old_target, new_target)) == pieces_retargeted(
            pieces(s.skip(pos)),
            old_target,
            new_target,
        ),
    decreases s.len() - pos,
{
    let ms = links_from(s, pos);
    let t = rewritten(s, ms, pos, old_target, new_target);
    let u = s.skip(pos);
    let all = pieces_retargeted(pieces(u), old_target, new_target);
    lemma_links_from(s, pos);
    lemma_head(u);
    if pos == s.len() {
        assert(t.len() == 0);
        assert(all =~= pieces(t));
    } else if link_head(u) is Some {
        let h = link_head(u)->0;
        let m = ms[0];
        let r = links_from(s, m.end);
        assert(ms == seq![m] + r);
        assert(ms.drop_first() =~= r);
        let k = new_end(m.first, old_target, new_target);
        let l = link_text(s, m, old_target, new_target);
        let w = rewritten(s, r, m.end, old_target, new_target);
        assert(l == link_form(k, m.second));
        assert(s.subrange(pos, m.start) =~= Seq::<char>::empty());
        assert(t =~= l + w);
        lemma_head_form(k, m.second, w);
        assert(t.skip(l.len() as int) =~= w);
        lemma_retarget_pieces(s, m.end, old_target, new_target);
        assert(u.skip(h.end) =~= s.skip(m.end));
        assert(all =~= seq![Piece::Link(k, m.second)] + pieces_retargeted(
            pieces(s.skip(m.end)),
            old_target,
            new_target,
        ));
    } else {
        lemma_links_from(s, pos + 1);
        lemma_retarget_pieces(s, pos + 1, old_target, new_target);
        let t1 = rewritten(s, ms, pos + 1, old_target, new_target);
        assert(u.skip(1) =~= s.skip(pos + 1));
        assert(all =~= seq![Piece::Plain(u.take(1))] + pieces_retargeted(
            pieces(s.skip(pos + 1)),
            old_target,
            new_target,
        ));
        if ms.len() == 0 {
            assert(t.skip(1) =~= t1);
            assert(t =~= u);
        } else {
            let m = ms[0];
            assert(m == links_from(s, pos + 1)[0]);
            let k = new_end(m.first, old_target, new_target);
            let l = link_text(s, m, old_target, new_target);
            let w = rewritten(s, ms.drop_first(), m.end, old_target, new_target);
            let g = s.subrange(pos, m.start);
            assert(l == link_form(k, m.second));
            assert(g =~= seq![s[pos]] + s.subrange(pos + 1, m.start));
            assert(t =~= g + (l + w));
            assert(t.skip(1) =~= t1);
            assert(t[0] == s[pos]);
            assert(t.take(1) =~= u.take(1));
            assert(u =~= g + (link_form(m.first, m.second) + s.skip(m.end)));
            if link_head(t) is Some {
                lemma_head_before(g, m.first, k, m.second, s.skip(m.end), w);
            }
        }
    }
}

/// Pointing the links to one target at another changes these targets and no other
/// character of a text.
pub proof fn law_only_targets_change(s: Seq<char>, old_target: Seq<char>, new_target: Seq<char>)
    requires
        is_target(new_target),
    ensures
        pieces(rewritten(s, links_found(s), 0, old_target, new_target)) == pieces_retargeted(
            pieces(s),
            old_target,
            new_target,
        ),
{
    lemma_retarget_pieces(s, 0, old_target, new_target);
    assert(s.skip(0) =~= s);
}

/// The links of a text are the links among its pieces.
pub proof fn law_links_are_pieces(s: Seq<char>, f: Seq<char>, d: Option<Seq<char>>)
    ensures
        ends_of(links_found(s)).contains((f, d)) == pieces(s).contains(Piece::Link(f, d)),
{
    lemma_ends(s, 0);
    assert(s.skip(0) =~= s);
    lemma_ends_are_pieces(s, f, d);
}

proof fn lemma_ends_are_pieces(u: Seq<char>, f: Seq<char>, d: Option<Seq<char>>)
    ensures
        ends_in(u).contains((f, d)) == pieces(u).contains(Piece::Link(f, d)),
    decreases u.len(),
{
    let x = (f, d);
    let y = Piece::Link(f, d);
    let es = ends_in(u);
    let ps = pieces(u);
    if u.len() > 0 {
        lemma_head(u);
        match link_head(u) {
            Some(m) => {
                let v = u.skip(m.end);
                lemma_ends_are_pieces(v, f, d);
                if es.contains(x) {
                    let i = es.index_of(x);
                    if i == 0 {
                        assert(ps[0] == y);
                    } else {
                        assert(ends_in(v)[i - 1] == x);
                        assert(ends_in(v).contains(x));
                        assert(ps[1 + pieces(v).index_of(y)] == y);
                    }
                }
                if ps.contains(y) {
                    let i = ps.index_of(y);
                    if i == 0 {
                        assert(es[0] == x);
                    } else {
                        assert(pieces(v)[i - 1] == y);
                        assert(pieces(v).contains(y));
                        assert(es[1 + ends_in(v).index_of(x)] == x);
                    }
                }
            },
            None => {
                let v = u.skip(1);
                lemma_ends_are_pieces(v, f, d);
                if ps.contains(y) {
                    let i = ps.index_of(y);
                    assert(pieces(v)[i - 1] == y);
                    assert(pieces(v).contains(y));
                }
                if pieces(v).contains(y) {
                    assert(ps[1 + pieces(v).index_of(y)] == y);
                }
            },
        }
    }
}

/// A link is read wherever a text comes to it: its target, and what it displays where it says
/// so. Any other character stands for itself.
pub proof fn law_link_read(f: Seq<char>, d: Option<Seq<char>>, c: char, w: Seq<char>)
    requires
        is_target(f),
        is_display(d),
        c != '[',
    ensures
        pieces(link_form(f, d) + w) == seq![Piece::Link(f, d)] + pieces(w),
        pieces(seq![c] + w) == seq![Piece::Plain(seq![c])] + pieces(w),
{
    let l = link_form(f, d);
    let u = l + w;
    lemma_head_form(f, d, w);
    lemma_head(u);
    assert(u.skip(l.len() as int) =~= w);
    let v = seq![c] + w;
    reveal(link_head);
    assert(v[0] == c);
    assert(link_head(v) is None);
    assert(v.skip(1) =~= w);
    assert(v.take(1) =~= seq![c]);
}

/// The links of a note are those of its front matter, its body and its reference section.
pub proof fn law_links_of_zones(
    front: Seq<char>,
    body: Seq<char>,
    reference: Seq<char>,
    f: Seq<char>,
    d: Option<Seq<char>>,
    zone: Zone,
)
    ensures
        wikilinks_of(front, body, reference).contains(LinkView { target: f, display: d, zone })
            == match zone {
            Zone::Frontmatter => pieces(front).contains(Piece::Link(f, d)),
            Zone::Body => pieces(body).contains(Piece::Link(f, d)),
            Zone::Reference => pieces(reference).contains(Piece::Link(f, d)),
        },
{
    let x = LinkView { target: f, display: d, zone };
    let a = links_of_matches(links_found(front), Zone::Frontmatter);
    let b = links_of_matches(links_found(body), Zone::Body);
    let c = links_of_matches(links_found(reference), Zone::Reference);
    let all = wikilinks_of(front, body, reference);
    law_links_are_pieces(front, f, d);
    law_links_are_pieces(body, f, d);
    law_links_are_pieces(reference, f, d);
    lemma_link_in(links_found(front), Zone::Frontmatter, f, d, zone);
    lemma_link_in(links_found(body), Zone::Body, f, d, zone);
    lemma_link_in(links_found(reference), Zone::Reference, f, d, zone);
    if a.contains(x) {
        assert(all[a.index_of(x)] == x);
    }
    if b.contains(x) {
        assert(all[a.len() + b.index_of(x)] == x);
    }
    if c.contains(x) {
        assert(all[a.len() + b.len() + c.index_of(x)] == x);
    }
    if all.contains(x) {
        let i = all.index_of(x);
        if i < a.len() {
            assert(a[i] == x);
        } else if i < a.len() + b.len() {
            assert(b[i - a.len()] == x);
        } else {
            assert(c[i - a.len() - b.len()] == x);
        }
    }
}

proof fn lemma_link_in(
    ms: Seq<MatchView>,
    in_zone: Zone,
    f: Seq<char>,
    d: Option<Seq<char>>,
    zone: Zone,
)
    ensures
        links_of_matches(ms, in_zone).contains(LinkView { target: f, display: d, zone }) == (zone
            == in_zone && ends_of(ms).contains((f, d))),
{
    let l = links_of_matches(ms, in_zone);
    let x = LinkView { target: f, display: d, zone };
    if l.contains(x) {
        let i = l.index_of(x);
        assert(l[i] == x);
        assert(ends_of(ms)[i] == (f, d));
    }
    if zone == in_zone && ends_of(ms).contains((f, d)) {
        let i = ends_of(ms).index_of((f, d));
        assert(l[i] == x);
    }
}

} // verus!
