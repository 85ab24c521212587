//! What a merge of texts is where the two sides changed different places.
use crate::docs::{changes_between, distinct, is_merge, keeps_order, values, Tag};
use crate::merge::{changed, edited, is_text_merge, put_apart, walked};
use vstd::prelude::*;

verus! {

/// Who put what stands next in a merge: one side, or none of them alone.
pub enum Side {
    Neither,
    Ours,
    Theirs,
}

/// The changes from one text to another, character by character.
pub open spec fn script(old_text: Seq<char>, new_text: Seq<char>) -> Seq<(Tag, char)> {
    if old_text == new_text {
        Seq::new(old_text.len(), |i: int| (Tag::Equal, old_text[i]))
    } else {
        changes_between(old_text, new_text)
    }
}

pub open spec fn ends_with_insert(cs: Seq<(Tag, char)>) -> bool {
    cs.len() > 0 && cs.last().0 == Tag::Insert
}

/// A text with the changes of both sides made.
pub open spec fn woven(a: Seq<char>, co: Seq<(Tag, char)>, ct: Seq<(Tag, char)>) -> Seq<char>
    decreases co.len() + ct.len(),
{
    if ends_with_insert(co) {
        woven(a, co.drop_last(), ct).push(co.last().1)
    } else if ends_with_insert(ct) {
        woven(a, co, ct.drop_last()).push(ct.last().1)
    } else if co.len() > 0 && ct.len() > 0 {
        let rest = woven(a.drop_last(), co.drop_last(), ct.drop_last());
        if co.last().0 == Tag::Equal && ct.last().0 == Tag::Equal {
            rest.push(a.last())
        } else {
            rest
        }
    } else {
        Seq::empty()
    }
}

/// Whether the changes of two sides stand apart: between what one side inserts
/// and what the other does stands a character that both keep. `next` is who put
/// what follows.
pub open spec fn apart(co: Seq<(Tag, char)>, ct: Seq<(Tag, char)>, next: Side) -> bool
    decreases co.len() + ct.len(),
{
    if ends_with_insert(co) {
        next != Side::Theirs && apart(co.drop_last(), ct, Side::Ours)
    } else if ends_with_insert(ct) {
        next != Side::Ours && apart(co, ct.drop_last(), Side::Theirs)
    } else if co.len() > 0 && ct.len() > 0 {
        apart(
            co.drop_last(),
            ct.drop_last(),
            if co.last().0 == Tag::Equal && ct.last().0 == Tag::Equal {
                Side::Neither
            } else {
                next
            },
        )
    } else {
        true
    }
}

/// Whether the two sides changed different places of a text.
pub open spec fn are_separate(ancestor: Seq<char>, ours: Seq<char>, theirs: Seq<char>) -> bool {
    apart(script(ancestor, ours), script(ancestor, theirs), Side::Neither)
}

spec fn other_side(s: Side) -> Side {
    match s {
        Side::Neither => Side::Neither,
        Side::Ours => Side::Theirs,
        Side::Theirs => Side::Ours,
    }
}

/// The members of a merge, in their order.
spec fn members(
    b: Seq<(int, char)>,
    s: Seq<(int, char)>,
    o: Seq<(int, char)>,
    co: Seq<(Tag, char)>,
    ct: Seq<(Tag, char)>,
) -> Seq<(int, char)>
    decreases co.len() + ct.len(),
{
    if ends_with_insert(co) {
        members(b, s.drop_last(), o, co.drop_last(), ct).push(s.last())
    } else if ends_with_insert(ct) {
        members(b, s, o.drop_last(), co, ct.drop_last()).push(o.last())
    } else if co.len() > 0 && ct.len() > 0 {
        let s1 = if co.last().0 == Tag::Equal {
            s.drop_last()
        } else {
            s
        };
        let o1 = if ct.last().0 == Tag::Equal {
            o.drop_last()
        } else {
            o
        };
        let rest = members(b.drop_last(), s1, o1, co.drop_last(), ct.drop_last());
        if co.last().0 == Tag::Equal && ct.last().0 == Tag::Equal {
            rest.push(b.last())
        } else {
            rest
        }
    } else {
        Seq::empty()
    }
}

/// Whether a member stands before another one.
spec fn before(s: Seq<(int, char)>, x: (int, char), y: (int, char)) -> bool {
    exists|p: int, q: int| 0 <= p < q < s.len() && #[trigger] s[p] == x && #[trigger] s[q] == y
}

proof fn lemma_last(s: Seq<(int, char)>)
    requires
        s.len() > 0,
        distinct(s),
    ensures
        distinct(s.drop_last()),
        s.contains(s.last()),
        forall|e: (int, char)| #[trigger]
            s.contains(e) == (e == s.last() || s.drop_last().contains(e)),
        forall|e: (int, char)| #[trigger]
            s.drop_last().contains(e) ==> s.contains(e) && e.0 != s.last().0,
        forall|x: (int, char)| #[trigger] s.drop_last().contains(x) ==> before(s, x, s.last()),
        forall|x: (int, char), y: (int, char)| #[trigger]
            before(s.drop_last(), x, y) ==> before(s, x, y),
{
    let d = s.drop_last();
    let n = s.len() - 1;
    assert(s[n] == s.last());
    assert forall|e: (int, char)| #[trigger] s.contains(e) == (e == s.last() || d.contains(e)) by {
        if d.contains(e) {
            let i = d.index_of(e);
            assert(s[i] == e);
        }
        if s.contains(e) && e != s.last() {
            let i = s.index_of(e);
            assert(d[i] == e);
        }
    }
    assert forall|e: (int, char)| #[trigger] d.contains(e) implies s.contains(e) && e.0 != s.last().0
        && before(s, e, s.last()) by {
        let i = d.index_of(e);
        assert(s[i] == e && s[n] == s.last());
    }
    assert forall|x: (int, char), y: (int, char)| #[trigger] before(d, x, y) implies before(
        s,
        x,
        y,
    ) by {
        let (p, q) = choose|p: int, q: int|
            0 <= p < q < d.len() && #[trigger] d[p] == x && #[trigger] d[q] == y;
        assert(s[p] == x && s[q] == y);
    }
}

/// What a side has is from the text that was, or new.
proof fn lemma_walked_members(
    b: Seq<(int, char)>,
    k: Set<int>,
    s: Seq<(int, char)>,
    cs: Seq<(Tag, char)>,
)
    requires
        walked(b, k, s, cs),
        distinct(b),
        distinct(s),
    ensures
        forall|e: (int, char)| #[trigger] s.contains(e) ==> b.contains(e) || !k.contains(e.0),
    decreases cs.len(),
{
    if cs.len() > 0 {
        if cs.last().0 != Tag::Insert {
            lemma_last(b);
        }
        if cs.last().0 != Tag::Delete {
            lemma_last(s);
        }
        match cs.last().0 {
            Tag::Equal => lemma_walked_members(b.drop_last(), k, s.drop_last(), cs.drop_last()),
            Tag::Delete => lemma_walked_members(b.drop_last(), k, s, cs.drop_last()),
            Tag::Insert => lemma_walked_members(b, k, s.drop_last(), cs.drop_last()),
        }
    }
}

spec fn are_known(b: Seq<(int, char)>, k: Set<int>) -> bool {
    forall|e: (int, char)| #[trigger] b.contains(e) ==> k.contains(e.0)
}

spec fn share_known(s: Seq<(int, char)>, o: Seq<(int, char)>, k: Set<int>) -> bool {
    forall|e: (int, char), f: (int, char)|
        #![trigger s.contains(e), o.contains(f)]
        s.contains(e) && o.contains(f) && e.0 == f.0 ==> k.contains(e.0)
}

/// Whether a member belongs to a merge.
spec fn stays(s: Seq<(int, char)>, o: Seq<(int, char)>, k: Set<int>, e: (int, char)) -> bool {
    ||| s.contains(e) && o.contains(e)
    ||| s.contains(e) && !k.contains(e.0)
    ||| o.contains(e) && !k.contains(e.0)
}

spec fn in_order(
    w: Seq<(int, char)>,
    s: Seq<(int, char)>,
    o: Seq<(int, char)>,
) -> bool {
    forall|i: int|
        0 <= i < w.len() - 1 ==> before(s, #[trigger] w[i], w[i + 1]) || before(o, w[i], w[i + 1])
}

/// What is known of the members of a merge.
spec fn is_weave(
    w: Seq<(int, char)>,
    k: Set<int>,
    s: Seq<(int, char)>,
    o: Seq<(int, char)>,
    next: Side,
) -> bool {
    &&& distinct(w)
    &&& forall|e: (int, char)| #[trigger] w.contains(e) == stays(s, o, k, e)
    &&& in_order(w, s, o)
    &&& w.len() > 0 && next == Side::Ours ==> s.contains(w.last())
    &&& w.len() > 0 && next == Side::Theirs ==> o.contains(w.last())
}

/// One member more at the end.
proof fn lemma_weave_push(
    w: Seq<(int, char)>,
    k: Set<int>,
    s: Seq<(int, char)>,
    o: Seq<(int, char)>,
    s1: Seq<(int, char)>,
    o1: Seq<(int, char)>,
    x: (int, char),
    inner: Side,
    next: Side,
)
    requires
        is_weave(w, k, s1, o1, inner),
        forall|e: (int, char)| #[trigger] stays(s, o, k, e) == (e == x || stays(s1, o1, k, e)),
        forall|e: (int, char)| #[trigger] stays(s1, o1, k, e) ==> e.0 != x.0,
        forall|e: (int, char), f: (int, char)| #[trigger] before(s1, e, f) ==> before(s, e, f),
        forall|e: (int, char), f: (int, char)| #[trigger] before(o1, e, f) ==> before(o, e, f),
        w.len() > 0 ==> before(s, w.last(), x) || before(o, w.last(), x),
        next == Side::Ours ==> s.contains(x),
        next == Side::Theirs ==> o.contains(x),
    ensures
        is_weave(w.push(x), k, s, o, next),
{
    let v = w.push(x);
    assert forall|i: int, j: int| 0 <= i < j < v.len() implies (#[trigger] v[i]).0 != (
    #[trigger] v[j]).0 by {
        assert(v[i] == w[i]);
        assert(w.contains(w[i]));
        assert(stays(s1, o1, k, w[i]));
    }
    assert forall|e: (int, char)| #[trigger] v.contains(e) == stays(s, o, k, e) by {
        assert(v[v.len() - 1] == x);
        assert(stays(s, o, k, e) == (e == x || stays(s1, o1, k, e)));
        if w.contains(e) {
            assert(v[w.index_of(e)] == e);
        }
        if v.contains(e) && e != x {
            assert(w[v.index_of(e)] == e);
        }
        assert(w.contains(e) == stays(s1, o1, k, e));
    }
    assert forall|i: int| 0 <= i < v.len() - 1 implies before(s, #[trigger] v[i], v[i + 1])
        || before(o, v[i], v[i + 1]) by {
        assert(v[i] == w[i]);
        if i < w.len() - 1 {
            assert(v[i + 1] == w[i + 1]);
            assert(before(s1, w[i], w[i + 1]) || before(o1, w[i], w[i + 1]));
        }
    }
}

proof fn lemma_values_push(w: Seq<(int, char)>, x: (int, char))
    ensures
        values(w.push(x)) == values(w).push(x.1),
{
    assert(values(w.push(x)) =~= values(w).push(x.1));
}

/// The members of a merge with a character of the old text that a side dropped
/// are those of the merge without.
proof fn lemma_weave_same(
    w: Seq<(int, char)>,
    k: Set<int>,
    s: Seq<(int, char)>,
    o: Seq<(int, char)>,
    s1: Seq<(int, char)>,
    o1: Seq<(int, char)>,
    next: Side,
)
    requires
        is_weave(w, k, s1, o1, next),
        forall|e: (int, char)| #[trigger] stays(s, o, k, e) == stays(s1, o1, k, e),
        forall|e: (int, char)| #[trigger] s1.contains(e) ==> s.contains(e),
        forall|e: (int, char)| #[trigger] o1.contains(e) ==> o.contains(e),
        forall|e: (int, char), f: (int, char)| #[trigger] before(s1, e, f) ==> before(s, e, f),
        forall|e: (int, char), f: (int, char)| #[trigger] before(o1, e, f) ==> before(o, e, f),
    ensures
        is_weave(w, k, s, o, next),
{
    assert forall|e: (int, char)| #[trigger] w.contains(e) == stays(s, o, k, e) by {
        assert(stays(s, o, k, e) == stays(s1, o1, k, e));
    }
    assert forall|i: int| 0 <= i < w.len() - 1 implies before(s, #[trigger] w[i], w[i + 1])
        || before(o, w[i], w[i + 1]) by {
        assert(before(s1, w[i], w[i + 1]) || before(o1, w[i], w[i + 1]));
    }
}

#[verifier::spinoff_prover]
proof fn lemma_weave(
    b: Seq<(int, char)>,
    k: Set<int>,
    s: Seq<(int, char)>,
    o: Seq<(int, char)>,
    co: Seq<(Tag, char)>,
    ct: Seq<(Tag, char)>,
    next: Side,
)
    requires
        walked(b, k, s, co),
        walked(b, k, o, ct),
        distinct(b),
        distinct(s),
        distinct(o),
        are_known(b, k),
        share_known(s, o, k),
        apart(co, ct, next),
    ensures
        is_weave(members(b, s, o, co, ct), k, s, o, next),
        values(members(b, s, o, co, ct)) == woven(values(b), co, ct),
    decreases co.len() + ct.len(), 1int,
{
    if ends_with_insert(co) {
        let s1 = s.drop_last();
        let x = s.last();
        lemma_last(s);
        lemma_weave(b, k, s1, o, co.drop_last(), ct, Side::Ours);
        let w = members(b, s1, o, co.drop_last(), ct);
        assert forall|e: (int, char)| #[trigger] stays(s, o, k, e) == (e == x || stays(
            s1,
            o,
            k,
            e,
        )) by {
            assert(s.contains(e) == (e == x || s1.contains(e)));
        }
        assert forall|e: (int, char)| #[trigger] stays(s1, o, k, e) implies e.0 != x.0 by {
            if o.contains(e) && e.0 == x.0 {
                assert(s.contains(x));
            }
        }
        lemma_weave_push(w, k, s, o, s1, o, x, Side::Ours, next);
        lemma_values_push(w, x);
    } else if ends_with_insert(ct) {
        let o1 = o.drop_last();
        let x = o.last();
        lemma_last(o);
        lemma_weave(b, k, s, o1, co, ct.drop_last(), Side::Theirs);
        let w = members(b, s, o1, co, ct.drop_last());
        assert forall|e: (int, char)| #[trigger] stays(s, o, k, e) == (e == x || stays(
            s,
            o1,
            k,
            e,
        )) by {
            assert(o.contains(e) == (e == x || o1.contains(e)));
        }
        assert forall|e: (int, char)| #[trigger] stays(s, o1, k, e) implies e.0 != x.0 by {
            if s.contains(e) && e.0 == x.0 {
                assert(o.contains(x));
            }
        }
        lemma_weave_push(w, k, s, o, s, o1, x, Side::Theirs, next);
        lemma_values_push(w, x);
    } else if co.len() > 0 && ct.len() > 0 {
        lemma_weave_old(b, k, s, o, co, ct, next);
    } else {
        assert(b.len() == 0 && s.len() == 0 && o.len() == 0);
        let w = members(b, s, o, co, ct);
        assert(values(w) =~= woven(values(b), co, ct));
    }
}

/// The step on a character of the old text.
#[verifier::spinoff_prover]
proof fn lemma_weave_old(
    b: Seq<(int, char)>,
    k: Set<int>,
    s: Seq<(int, char)>,
    o: Seq<(int, char)>,
    co: Seq<(Tag, char)>,
    ct: Seq<(Tag, char)>,
    next: Side,
)
    requires
        walked(b, k, s, co),
        walked(b, k, o, ct),
        distinct(b),
        distinct(s),
        distinct(o),
        are_known(b, k),
        share_known(s, o, k),
        apart(co, ct, next),
        co.len() > 0 && ct.len() > 0,
        !ends_with_insert(co) && !ends_with_insert(ct),
    ensures
        is_weave(members(b, s, o, co, ct), k, s, o, next),
        values(members(b, s, o, co, ct)) == woven(values(b), co, ct),
    decreases co.len() + ct.len(), 0int,
{
    let b1 = b.drop_last();
    let x = b.last();
    let co1 = co.drop_last();
    let ct1 = ct.drop_last();
    let keeps_s = co.last().0 == Tag::Equal;
    let keeps_o = ct.last().0 == Tag::Equal;
    let s1 = if keeps_s {
        s.drop_last()
    } else {
        s
    };
    let o1 = if keeps_o {
        o.drop_last()
    } else {
        o
    };
    let inner = if keeps_s && keeps_o {
        Side::Neither
    } else {
        next
    };
    lemma_last(b);
    if keeps_s {
        lemma_last(s);
    }
    if keeps_o {
        lemma_last(o);
    }
    assert(are_known(b1, k));
    assert(share_known(s1, o1, k));
    lemma_walked_members(b1, k, s1, co1);
    lemma_walked_members(b1, k, o1, ct1);
    lemma_weave(b1, k, s1, o1, co1, ct1, inner);
    let w = members(b1, s1, o1, co1, ct1);
    assert(k.contains(x.0)) by {
        assert(b.contains(x));
    }
    assert(!b1.contains(x) && !s1.contains(x) && !o1.contains(x));
    assert(values(b1) =~= values(b).drop_last());
    assert forall|e: (int, char)| #[trigger] stays(s, o, k, e) == ((keeps_s && keeps_o && e == x)
        || stays(s1, o1, k, e)) by {
        if keeps_s {
            assert(s.contains(e) == (e == x || s1.contains(e)));
        }
        if keeps_o {
            assert(o.contains(e) == (e == x || o1.contains(e)));
        }
    }
    if keeps_s && keeps_o {
        assert(x.1 == values(b).last());
        if w.len() > 0 {
            assert(w.contains(w.last()));
            assert(stays(s1, o1, k, w.last()));
        }
        lemma_weave_push(w, k, s, o, s1, o1, x, inner, next);
        lemma_values_push(w, x);
    } else {
        lemma_weave_same(w, k, s, o, s1, o1, next);
    }
}

/// Members of the same kind in the same order are the same sequence.
proof fn lemma_same_order(w: Seq<(int, char)>, m: Seq<(int, char)>)
    requires
        distinct(w),
        distinct(m),
        forall|e: (int, char)| #[trigger] w.contains(e) == m.contains(e),
        forall|i: int|
            0 <= i < w.len() - 1 ==> m.index_of(#[trigger] w[i]) < m.index_of(w[i + 1]),
    ensures
        w == m,
{
    assert(w.no_duplicates());
    assert(m.no_duplicates());
    w.unique_seq_to_set();
    m.unique_seq_to_set();
    assert(w.to_set() =~= m.to_set());
    let n = w.len() as int;
    assert(m.len() == n);
    assert forall|i: int| 0 <= i < n implies #[trigger] w[i] == m[i] by {
        lemma_climbs(w, m, i);
        lemma_leaves_room(w, m, i);
        assert(w.contains(w[i]));
        assert(m[m.index_of(w[i])] == w[i]);
    }
    assert(w =~= m);
}

proof fn lemma_climbs(w: Seq<(int, char)>, m: Seq<(int, char)>, i: int)
    requires
        forall|e: (int, char)| #[trigger] w.contains(e) == m.contains(e),
        forall|i: int|
            0 <= i < w.len() - 1 ==> m.index_of(#[trigger] w[i]) < m.index_of(w[i + 1]),
        0 <= i < w.len(),
    ensures
        m.index_of(w[i]) >= i,
    decreases i,
{
    assert(w.contains(w[i]));
    if i > 0 {
        lemma_climbs(w, m, i - 1);
        assert(m.index_of(w[i - 1]) < m.index_of(w[i - 1 + 1]));
    }
}

proof fn lemma_leaves_room(w: Seq<(int, char)>, m: Seq<(int, char)>, i: int)
    requires
        m.len() == w.len(),
        forall|e: (int, char)| #[trigger] w.contains(e) == m.contains(e),
        forall|i: int|
            0 <= i < w.len() - 1 ==> m.index_of(#[trigger] w[i]) < m.index_of(w[i + 1]),
        0 <= i < w.len(),
    ensures
        m.index_of(w[i]) <= i,
    decreases w.len() - i,
{
    assert(w.contains(w[i]));
    if i < w.len() - 1 {
        lemma_leaves_room(w, m, i + 1);
        assert(m.index_of(w[i]) < m.index_of(w[i + 1]));
    }
}

/// No change of a text.
proof fn lemma_walked_none(b: Seq<(int, char)>, k: Set<int>, cs: Seq<(Tag, char)>)
    requires
        cs.len() == b.len(),
        forall|i: int| 0 <= i < cs.len() ==> (#[trigger] cs[i]).0 == Tag::Equal,
    ensures
        walked(b, k, b, cs),
    decreases cs.len(),
{
    if cs.len() > 0 {
        let d = cs.drop_last();
        assert forall|i: int| 0 <= i < d.len() implies (#[trigger] d[i]).0 == Tag::Equal by {
            assert(d[i] == cs[i]);
        }
        assert(cs[cs.len() - 1].0 == Tag::Equal);
        lemma_walked_none(b.drop_last(), k, d);
    }
}

proof fn lemma_before_merged(
    s: Seq<(int, char)>,
    m: Seq<(int, char)>,
    x: (int, char),
    y: (int, char),
)
    requires
        keeps_order(s, m),
        before(s, x, y),
        m.contains(x),
        m.contains(y),
    ensures
        m.index_of(x) < m.index_of(y),
{
    let (p, q) = choose|p: int, q: int|
        0 <= p < q < s.len() && #[trigger] s[p] == x && #[trigger] s[q] == y;
    let i = m.index_of(x);
    let j = m.index_of(y);
    assert(m[i] == s[p] && m[j] == s[q]);
}

/// Where the two sides changed different places of a text, its merge has the
/// changes of both, whatever the chance of the merge.
#[verifier::spinoff_prover]
pub proof fn law_separate_changes(
    ancestor: Seq<char>,
    ours: Seq<char>,
    theirs: Seq<char>,
    merged: Seq<char>,
)
    requires
        is_text_merge(ancestor, ours, theirs, merged),
        are_separate(ancestor, ours, theirs),
    ensures
        merged == woven(ancestor, script(ancestor, ours), script(ancestor, theirs)),
{
    let co = script(ancestor, ours);
    let ct = script(ancestor, theirs);
    let (b, k, s, ks, o, ko, m) = choose|
        b: Seq<(int, char)>,
        k: Set<int>,
        s: Seq<(int, char)>,
        ks: Set<int>,
        o: Seq<(int, char)>,
        ko: Set<int>,
        m: Seq<(int, char)>,
    |
        #![trigger edited(b, k, s, ks), edited(b, k, o, ko), is_merge(s, ks, o, ko, m)]
        {
            &&& values(b) == ancestor && values(s) == ours && values(o) == theirs && values(m)
                == merged
            &&& edited(b, k, b, k) && edited(b, k, s, ks) && edited(b, k, o, ko)
            &&& changed(b, k, s, ancestor, ours) && changed(b, k, o, ancestor, theirs)
            &&& put_apart(k, ks, ko)
            &&& is_merge(s, ks, o, ko, m)
        };
    assert(values(b).len() == b.len());
    if ancestor == ours {
        lemma_walked_none(b, k, co);
    }
    if ancestor == theirs {
        lemma_walked_none(b, k, ct);
    }
    assert forall|e: (int, char)| #[trigger] b.contains(e) implies k.contains(e.0) by {
        assert(b[b.index_of(e)] == e);
    }
    assert forall|e: (int, char)| #[trigger] s.contains(e) implies ks.contains(e.0) by {
        assert(s[s.index_of(e)] == e);
    }
    assert forall|e: (int, char)| #[trigger] o.contains(e) implies ko.contains(e.0) by {
        assert(o[o.index_of(e)] == e);
    }
    assert forall|e: (int, char), f: (int, char)|
        #![trigger s.contains(e), o.contains(f)]
        s.contains(e) && o.contains(f) && e.0 == f.0 implies k.contains(e.0) by {
        assert(ks.contains(e.0) && ko.contains(f.0));
    }
    lemma_weave(b, k, s, o, co, ct, Side::Neither);
    let w = members(b, s, o, co, ct);
    assert forall|e: (int, char)| #[trigger] w.contains(e) == m.contains(e) by {
        assert(w.contains(e) == stays(s, o, k, e));
    }
    assert forall|i: int| 0 <= i < w.len() - 1 implies m.index_of(#[trigger] w[i]) < m.index_of(
        w[i + 1],
    ) by {
        assert(w.contains(w[i]) && w.contains(w[i + 1]));
        if before(s, w[i], w[i + 1]) {
            lemma_before_merged(s, m, w[i], w[i + 1]);
        } else {
            lemma_before_merged(o, m, w[i], w[i + 1]);
        }
    }
    lemma_same_order(w, m);
}

proof fn lemma_woven_commutes(
    a: Seq<char>,
    co: Seq<(Tag, char)>,
    ct: Seq<(Tag, char)>,
    next: Side,
)
    requires
        apart(co, ct, next),
    ensures
        apart(ct, co, other_side(next)),
        woven(a, ct, co) == woven(a, co, ct),
    decreases co.len() + ct.len(),
{
    if ends_with_insert(co) {
        lemma_woven_commutes(a, co.drop_last(), ct, Side::Ours);
    } else if ends_with_insert(ct) {
        lemma_woven_commutes(a, co, ct.drop_last(), Side::Theirs);
    } else if co.len() > 0 && ct.len() > 0 {
        lemma_woven_commutes(
            a.drop_last(),
            co.drop_last(),
            ct.drop_last(),
            if co.last().0 == Tag::Equal && ct.last().0 == Tag::Equal {
                Side::Neither
            } else {
                next
            },
        );
    }
}

/// Where the two sides changed different places of a text, it does not matter
/// which side is ours, nor how often they are merged: the merge is one text.
pub proof fn law_text_merge_commutes(
    ancestor: Seq<char>,
    ours: Seq<char>,
    theirs: Seq<char>,
    merged: Seq<char>,
    other: Seq<char>,
)
    requires
        is_text_merge(ancestor, ours, theirs, merged),
        is_text_merge(ancestor, theirs, ours, other) || is_text_merge(
            ancestor,
            ours,
            theirs,
            other,
        ),
        are_separate(ancestor, ours, theirs),
    ensures
        merged == other,
{
    let co = script(ancestor, ours);
    let ct = script(ancestor, theirs);
    law_separate_changes(ancestor, ours, theirs, merged);
    lemma_woven_commutes(ancestor, co, ct, Side::Neither);
    if is_text_merge(ancestor, theirs, ours, other) {
        law_separate_changes(ancestor, theirs, ours, other);
    } else {
        law_separate_changes(ancestor, ours, theirs, other);
    }
}

} // verus!
