//! Merging the body and the reference section of a note.
use crate::docs::{
    are_copies, changed_apart, changes_between, changes_in, delete_item, diff_chars, distinct,
    failure, fork, goes_on, insert_item, is_at, is_merge, is_splice, keeps_order, known, list_item,
    list_items, list_len, merge, mergeable, new_chars, new_doc, object_at, old_chars, put_object,
    read_text, root, second_copy, splice_text, text_chars, values, Kind, Tag,
};
use crate::error::{ErrorView, ZettelError};
use crate::text::{self, join, lines, texts};
use automerge::{AutoCommit, ObjId};
use vstd::prelude::*;

verus! {

broadcast use vstd::string::group_string_axioms;

// ---------------------------------------------------------------------------
// Sequences with identities
// ---------------------------------------------------------------------------
/// Whether `s` came out of `b` by changes: what it has is from `b` or new.
pub open spec fn edited<T>(b: Seq<(int, T)>, k: Set<int>, s: Seq<(int, T)>, ks: Set<int>) -> bool {
    &&& distinct(s)
    &&& forall|i: int| 0 <= i < s.len() ==> ks.contains((#[trigger] s[i]).0)
    &&& forall|x: int| #![trigger k.contains(x)] k.contains(x) ==> ks.contains(x)
    &&& forall|i: int| 0 <= i < s.len() ==> b.contains(#[trigger] s[i]) || !k.contains(s[i].0)
}

proof fn lemma_splice_at<T>(
    s: Seq<(int, T)>,
    ks: Set<int>,
    t: Seq<(int, T)>,
    kt: Set<int>,
    pos: int,
    del: int,
    ins: Seq<T>,
)
    requires
        is_splice(s, ks, t, kt, pos, del, ins),
        0 <= pos,
        0 <= del,
        pos + del <= s.len(),
    ensures
        forall|i: int| 0 <= i < pos ==> #[trigger] t[i] == s[i],
        forall|i: int| pos + ins.len() <= i < t.len() ==> #[trigger] t[i] == s[i - ins.len() + del],
{
    assert forall|i: int| 0 <= i < pos implies #[trigger] t[i] == s[i] by {
        assert(t.take(pos)[i] == s.take(pos)[i]);
    }
    assert forall|i: int| pos + ins.len() <= i < t.len() implies #[trigger] t[i] == s[i - ins.len()
        + del] by {
        let j = i - pos - ins.len();
        assert(t.skip(pos + ins.len())[j] == s.skip(pos + del)[j]);
    }
}

proof fn lemma_splice_edited<T>(
    b: Seq<(int, T)>,
    k: Set<int>,
    s: Seq<(int, T)>,
    ks: Set<int>,
    t: Seq<(int, T)>,
    kt: Set<int>,
    pos: int,
    del: int,
    ins: Seq<T>,
)
    requires
        edited(b, k, s, ks),
        is_splice(s, ks, t, kt, pos, del, ins),
        0 <= pos,
        0 <= del,
        pos + del <= s.len(),
    ensures
        edited(b, k, t, kt),
        values(t) == values(s).take(pos) + ins + values(s).skip(pos + del),
{
    lemma_splice_at(s, ks, t, kt, pos, del, ins);
    let n = ins.len();
    assert forall|i: int| 0 <= i < t.len() implies kt.contains((#[trigger] t[i]).0) && (b.contains(
        t[i],
    ) || !k.contains(t[i].0)) by {
        if pos <= i < pos + n {
            assert(!ks.contains(t[i].0));
        } else if i < pos {
            assert(t[i] == s[i]);
        } else {
            assert(t[i] == s[i - n + del]);
        }
    }
    assert forall|i: int, j: int| 0 <= i < j < t.len() implies (#[trigger] t[i]).0 != (
    #[trigger] t[j]).0 by {
        let old_i = i < pos || i >= pos + n;
        let old_j = j < pos || j >= pos + n;
        if old_i {
            let x = if i < pos {
                i
            } else {
                i - n + del
            };
            assert(t[i] == s[x]);
            assert(ks.contains(s[x].0));
            if old_j {
                let y = if j < pos {
                    j
                } else {
                    j - n + del
                };
                assert(t[j] == s[y]);
            } else {
                assert(!ks.contains(t[j].0));
            }
        } else {
            assert(!ks.contains(t[i].0));
            if old_j {
                let y = j - n + del;
                assert(t[j] == s[y]);
                assert(ks.contains(s[y].0));
            }
        }
    }
    assert forall|x: int| #![trigger k.contains(x)] k.contains(x) implies kt.contains(x) by {
        assert(ks.contains(x));
    }
    let w = values(s).take(pos) + ins + values(s).skip(pos + del);
    assert(values(t).len() == w.len());
    assert forall|i: int| 0 <= i < w.len() implies #[trigger] values(t)[i] == w[i] by {
        if pos <= i < pos + n {
            assert(t[i].1 == ins[i - pos]);
        } else if i < pos {
            assert(t[i] == s[i]);
        } else {
            assert(t[i] == s[i - n + del]);
        }
    }
    assert(values(t) =~= w);
}

/// Two sequences without repetition, with the same members in the same order,
/// are the same sequence.
proof fn lemma_same_sequence<T>(s: Seq<(int, T)>, m: Seq<(int, T)>)
    requires
        distinct(s),
        distinct(m),
        forall|e: (int, T)| #![trigger m.contains(e)] m.contains(e) == s.contains(e),
        keeps_order(s, m),
    ensures
        m == s,
    decreases s.len(),
{
    if s.len() == 0 {
        if m.len() > 0 {
            assert(m.contains(m[0]));
        }
        assert(m =~= s);
    } else {
        let e = s.last();
        assert(s.contains(e));
        assert(m.contains(e));
        let a = m.index_of(e);
        let f = m.last();
        assert(m.contains(f));
        let j = s.index_of(f);
        if a < m.len() - 1 {
            assert(m[a].0 != m[m.len() - 1].0);
            assert(j < s.len() - 1);
            assert(s[j] == m[m.len() - 1] && s[s.len() - 1] == m[a]);
            assert(false);
        }
        let x = s.drop_last();
        let y = m.drop_last();
        assert forall|g: (int, T)| #![trigger y.contains(g)] y.contains(g) == x.contains(g) by {
            if y.contains(g) {
                let i = y.index_of(g);
                assert(m[i] == g);
                assert(m.contains(g));
                assert(m[i].0 != m[m.len() - 1].0);
                let q = s.index_of(g);
                assert(x[q] == g);
            }
            if x.contains(g) {
                let i = x.index_of(g);
                assert(s[i] == g);
                assert(s.contains(g));
                assert(s[i].0 != s[s.len() - 1].0);
                assert(m.contains(g));
                let q = m.index_of(g);
                assert(y[q] == g);
            }
        }
        assert forall|i: int, p: int, c: int, d: int|
            #![trigger x[i], x[p], y[c], y[d]]
            0 <= i < p < x.len() && 0 <= c < y.len() && 0 <= d < y.len() && y[c] == x[i] && y[d]
                == x[p] implies c < d by {
            assert(m[c] == s[i] && m[d] == s[p]);
        }
        lemma_same_sequence(x, y);
        assert(m =~= y.push(f));
        assert(s =~= x.push(e));
    }
}

/// Where one of two copies was not changed, the merge is the other.
proof fn lemma_merge_one_side<T>(
    b: Seq<(int, T)>,
    k: Set<int>,
    s: Seq<(int, T)>,
    ks: Set<int>,
    o: Seq<(int, T)>,
    ko: Set<int>,
    m: Seq<(int, T)>,
)
    requires
        edited(b, k, b, k),
        edited(b, k, s, ks),
        edited(b, k, o, ko),
        is_merge(s, ks, o, ko, m),
    ensures
        o == b && ko == k ==> m == s,
        s == b && ks == k ==> m == o,
{
    if o == b && ko == k {
        assert forall|e: (int, T)| #![trigger m.contains(e)] m.contains(e) == s.contains(e) by {
            if s.contains(e) {
                let i = s.index_of(e);
                assert(b.contains(s[i]) || !k.contains(s[i].0));
            }
            if o.contains(e) {
                let i = o.index_of(e);
                assert(ko.contains(o[i].0));
                assert(k.contains(e.0));
                assert(ks.contains(e.0));
            }
        }
        lemma_same_sequence(s, m);
    }
    if s == b && ks == k {
        assert forall|e: (int, T)| #![trigger m.contains(e)] m.contains(e) == o.contains(e) by {
            if o.contains(e) {
                let i = o.index_of(e);
                assert(b.contains(o[i]) || !k.contains(o[i].0));
                if b.contains(e) {
                    assert(s.contains(e));
                }
            }
            if s.contains(e) {
                let i = s.index_of(e);
                assert(ks.contains(s[i].0));
                assert(k.contains(e.0));
                assert(ko.contains(e.0));
            }
        }
        lemma_same_sequence(o, m);
    }
}

// ---------------------------------------------------------------------------
// Edits of a text
// ---------------------------------------------------------------------------
/// An edit: at a position of the old text, how many characters go and what
/// comes in their place.
#[derive(Debug, Clone)]
pub struct Edit {
    pub pos: usize,
    pub delete: usize,
    pub insert: String,
}

pub struct EditView {
    pub pos: int,
    pub delete: int,
    pub insert: Seq<char>,
}

impl View for Edit {
    type V = EditView;

    open spec fn view(&self) -> EditView {
        EditView { pos: self.pos as int, delete: self.delete as int, insert: self.insert@ }
    }
}

pub open spec fn edits_view(s: Seq<Edit>) -> Seq<EditView> {
    Seq::new(s.len(), |i: int| s[i]@)
}

/// Whether edits come one after the other and end at or before `p`.
pub open spec fn fits(es: Seq<EditView>, p: int) -> bool
    decreases es.len(),
{
    es.len() == 0 || {
        let e = es.last();
        0 <= e.pos && 0 <= e.delete && e.pos + e.delete <= p && fits(es.drop_last(), e.pos)
    }
}

/// The edits that changes amount to: what is deleted and what is inserted, at
/// its position in the old text, with neighbours of one kind put together. A
/// character that is kept lies outside of all of them.
pub open spec fn edits_of(cs: Seq<(Tag, char)>) -> Seq<EditView>
    decreases cs.len(),
{
    if cs.len() == 0 {
        Seq::empty()
    } else {
        let es = edits_of(cs.drop_last());
        let p = old_chars(cs.drop_last()).len() as int;
        let c = cs.last().1;
        match cs.last().0 {
            Tag::Equal => es,
            Tag::Delete => if es.len() > 0 && es.last().pos + es.last().delete == p
                && es.last().insert.len() == 0 {
                es.drop_last().push(EditView { delete: es.last().delete + 1, ..es.last() })
            } else {
                es.push(EditView { pos: p, delete: 1, insert: Seq::empty() })
            },
            Tag::Insert => if es.len() > 0 && es.last().pos == p && es.last().delete == 0 {
                es.drop_last().push(EditView { insert: es.last().insert.push(c), ..es.last() })
            } else {
                es.push(EditView { pos: p, delete: 0, insert: seq![c] })
            },
        }
    }
}

proof fn lemma_old_len(cs: Seq<(Tag, char)>)
    ensures
        old_chars(cs).len() <= cs.len(),
    decreases cs.len(),
{
    if cs.len() > 0 {
        lemma_old_len(cs.drop_last());
    }
}

pub(crate) proof fn lemma_edits_fit(cs: Seq<(Tag, char)>)
    ensures
        fits(edits_of(cs), old_chars(cs).len() as int),
    decreases cs.len(),
{
    if cs.len() > 0 {
        let d = cs.drop_last();
        lemma_edits_fit(d);
        let es = edits_of(d);
        let p = old_chars(d).len() as int;
        if cs.last().0 == Tag::Equal {
            assert(fits(es, p + 1));
        } else {
            let r = edits_of(cs);
            if r.len() == es.len() {
                assert(r.drop_last() =~= es.drop_last());
            } else {
                assert(r.drop_last() =~= es);
            }
        }
    }
}

/// The edits that changes amount to.
pub fn plan_edits(changes: &Vec<(Tag, char)>) -> (r: Vec<Edit>)
    ensures
        edits_view(r@) == edits_of(changes@),
{
    let mut out: Vec<Edit> = Vec::new();
    let mut orig: usize = 0;
    let mut i: usize = 0;
    let ghost cs = changes@;
    proof {
        assert(cs.take(0) =~= Seq::<(Tag, char)>::empty());
        assert(edits_view(out@) =~= Seq::<EditView>::empty());
    }
    while i < changes.len()
        invariant
            i <= cs.len(),
            cs == changes@,
            orig == old_chars(cs.take(i as int)).len(),
            orig <= i,
            edits_view(out@) == edits_of(cs.take(i as int)),
        decreases cs.len() - i,
    {
        let (tag, ch) = changes[i];
        let ghost es = edits_view(out@);
        proof {
            assert(cs.take(i + 1).drop_last() =~= cs.take(i as int));
            assert(cs.take(i + 1).last() == cs[i as int]);
            lemma_old_len(cs.take(i as int));
            lemma_edits_fit(cs.take(i as int));
        }
        let n: usize = out.len();
        match tag {
            Tag::Equal => {
                orig = orig + 1;
            },
            Tag::Delete => {
                let extend = n > 0 && out[n - 1].pos + out[n - 1].delete == orig && out[n
                    - 1].insert.as_str().is_empty();
                if extend {
                    let ghost e = es.last();
                    proof {
                        assert(e == out@[n - 1]@);
                    }
                    let mut last = out.pop().unwrap();
                    last.delete = last.delete + 1;
                    out.push(last);
                    proof {
                        let f = EditView { delete: e.delete + 1, ..e };
                        assert(edits_view(out@) =~= es.drop_last().push(f));
                    }
                } else {
                    let e = Edit { pos: orig, delete: 1, insert: String::new() };
                    proof {
                        assert(e@.insert =~= Seq::<char>::empty());
                        if n > 0 {
                            assert(es.last() == out@[n - 1]@);
                        }
                    }
                    out.push(e);
                    proof {
                        assert(edits_view(out@) =~= es.push(e@));
                    }
                }
                orig = orig + 1;
            },
            Tag::Insert => {
                let extend = n > 0 && out[n - 1].pos == orig && out[n - 1].delete == 0;
                if extend {
                    let ghost e = es.last();
                    proof {
                        assert(e == out@[n - 1]@);
                    }
                    let mut last = out.pop().unwrap();
                    last.insert.push(ch);
                    out.push(last);
                    proof {
                        let f = EditView { insert: e.insert.push(ch), ..e };
                        assert(edits_view(out@) =~= es.drop_last().push(f));
                    }
                } else {
                    let mut ins = String::new();
                    ins.push(ch);
                    let e = Edit { pos: orig, delete: 0, insert: ins };
                    proof {
                        assert(e@.insert =~= seq![ch]);
                        if n > 0 {
                            assert(es.last() == out@[n - 1]@);
                        }
                    }
                    out.push(e);
                    proof {
                        assert(edits_view(out@) =~= es.push(e@));
                    }
                }
            },
        }
        i = i + 1;
    }
    proof {
        assert(cs.take(i as int) =~= cs);
    }
    out
}

/// Whether `s` is what edits make of the first `p` members of `b`: those that no
/// edit deletes stay, and what an edit inserts is new, with an identity that is
/// not in `k`.
pub open spec fn patched(
    b: Seq<(int, char)>,
    k: Set<int>,
    es: Seq<EditView>,
    p: int,
    s: Seq<(int, char)>,
) -> bool
    decreases es.len(),
{
    if es.len() == 0 {
        s == b.take(p)
    } else {
        let e = es.last();
        let end = e.pos + e.delete;
        let n = e.insert.len() as int;
        let c = s.len() - n - (p - end);
        &&& 0 <= c
        &&& s.skip(c + n) == b.subrange(end, p)
        &&& forall|i: int|
            c <= i < c + n ==> (#[trigger] s[i]).1 == e.insert[i - c] && !k.contains(s[i].0)
        &&& patched(b, k, es.drop_last(), e.pos, s.take(c))
    }
}

/// Whether `s` comes out of `b` by changes: each that keeps a character keeps
/// the next member of `b`, each that deletes one drops it, and each that inserts
/// one puts a member whose identity is not in `k`.
pub open spec fn walked(
    b: Seq<(int, char)>,
    k: Set<int>,
    s: Seq<(int, char)>,
    cs: Seq<(Tag, char)>,
) -> bool
    decreases cs.len(),
{
    if cs.len() == 0 {
        b.len() == 0 && s.len() == 0
    } else {
        match cs.last().0 {
            Tag::Equal => {
                &&& b.len() > 0 && s.len() > 0 && s.last() == b.last()
                &&& walked(b.drop_last(), k, s.drop_last(), cs.drop_last())
            },
            Tag::Delete => b.len() > 0 && walked(b.drop_last(), k, s, cs.drop_last()),
            Tag::Insert => {
                &&& s.len() > 0 && s.last().1 == cs.last().1 && !k.contains(s.last().0)
                &&& walked(b, k, s.drop_last(), cs.drop_last())
            },
        }
    }
}

proof fn lemma_patched_walked(
    b: Seq<(int, char)>,
    k: Set<int>,
    s: Seq<(int, char)>,
    cs: Seq<(Tag, char)>,
)
    requires
        old_chars(cs).len() <= b.len(),
        patched(b, k, edits_of(cs), old_chars(cs).len() as int, s),
    ensures
        walked(b.take(old_chars(cs).len() as int), k, s, cs),
    decreases cs.len(),
{
    if cs.len() == 0 {
        assert(b.take(0) =~= Seq::<(int, char)>::empty());
    } else {
        let d = cs.drop_last();
        let es = edits_of(d);
        let r = edits_of(cs);
        let p = old_chars(d).len() as int;
        lemma_edits_fit(d);
        let t = s.drop_last();
        match cs.last().0 {
            Tag::Equal => {
                if es.len() == 0 {
                    assert(s.last() == b.take(p + 1)[p]);
                    assert(t =~= b.take(p));
                } else {
                    let e = es.last();
                    let end = e.pos + e.delete;
                    let n = e.insert.len() as int;
                    let c = s.len() - n - (p + 1 - end);
                    assert(s.skip(c + n)[p - end] == b.subrange(end, p + 1)[p - end]);
                    assert(t.skip(c + n) =~= b.subrange(end, p)) by {
                        let x = t.skip(c + n);
                        assert forall|i: int| 0 <= i < p - end implies #[trigger] x[i]
                            == b.subrange(end, p)[i] by {
                            assert(s.skip(c + n)[i] == b.subrange(end, p + 1)[i]);
                        }
                    }
                    assert(t.take(c) =~= s.take(c));
                    assert forall|i: int| c <= i < c + n implies (#[trigger] t[i]).1 == e.insert[i
                        - c] && !k.contains(t[i].0) by {
                        assert(t[i] == s[i]);
                    }
                }
                assert(patched(b, k, es, p, t));
                lemma_patched_walked(b, k, t, d);
                assert(b.take(p + 1).drop_last() =~= b.take(p));
            },
            Tag::Delete => {
                if r.len() == es.len() {
                    assert(r.drop_last() =~= es.drop_last());
                    let e = es.last();
                    assert(b.subrange(p, p) =~= b.subrange(p + 1, p + 1));
                } else {
                    assert(r.drop_last() =~= es);
                    assert(s.take(s.len() as int) =~= s);
                }
                assert(patched(b, k, es, p, s));
                lemma_patched_walked(b, k, s, d);
                assert(b.take(p + 1).drop_last() =~= b.take(p));
            },
            Tag::Insert => {
                let f = r.last();
                let n = f.insert.len() as int;
                let c = s.len() - n;
                assert(s[c + n - 1].1 == f.insert[n - 1]);
                if r.len() == es.len() {
                    assert(r.drop_last() =~= es.drop_last());
                    let e = es.last();
                    assert(t.take(c) =~= s.take(c));
                    assert(t.skip(c + n - 1) =~= b.subrange(p, p));
                    assert forall|i: int| c <= i < c + n - 1 implies (#[trigger] t[i]).1
                        == e.insert[i - c] && !k.contains(t[i].0) by {
                        assert(s[i].1 == f.insert[i - c]);
                    }
                } else {
                    assert(r.drop_last() =~= es);
                    assert(t =~= s.take(c));
                }
                assert(patched(b, k, es, p, t));
                lemma_patched_walked(b, k, t, d);
            },
        }
    }
}

/// The text of what comes out of changes is the new text.
proof fn lemma_walked_values(
    b: Seq<(int, char)>,
    k: Set<int>,
    s: Seq<(int, char)>,
    cs: Seq<(Tag, char)>,
)
    requires
        walked(b, k, s, cs),
        values(b) == old_chars(cs),
    ensures
        values(s) == new_chars(cs),
    decreases cs.len(),
{
    let d = cs.drop_last();
    if cs.len() == 0 {
        assert(values(s) =~= new_chars(cs));
    } else {
        let x = b.drop_last();
        let t = s.drop_last();
        if cs.last().0 != Tag::Insert {
            assert(values(b).drop_last() =~= values(x));
            assert(old_chars(cs).drop_last() =~= old_chars(d));
            assert(values(b).last() == b.last().1);
        }
        match cs.last().0 {
            Tag::Equal => {
                lemma_walked_values(x, k, t, d);
                assert(values(s) =~= values(t).push(s.last().1));
            },
            Tag::Delete => {
                lemma_walked_values(x, k, s, d);
            },
            Tag::Insert => {
                lemma_walked_values(b, k, t, d);
                assert(values(s) =~= values(t).push(s.last().1));
            },
        }
    }
}

/// Two replacements at one place, of which the first inserts nothing, are one.
proof fn lemma_splice_twice<T>(
    s: Seq<(int, T)>,
    ks: Set<int>,
    t: Seq<(int, T)>,
    kt: Set<int>,
    u: Seq<(int, T)>,
    ku: Set<int>,
    pos: int,
    first: int,
    second: int,
    ins: Seq<T>,
)
    requires
        0 <= pos && 0 <= first && 0 <= second,
        pos + first + second <= s.len(),
        is_splice(s, ks, t, kt, pos, first, Seq::empty()),
        is_splice(t, kt, u, ku, pos, second, ins),
    ensures
        is_splice(s, ks, u, ku, pos, first + second, ins),
{
    assert(kt =~= ks);
    assert(t.skip(pos + second) =~= s.skip(pos + first + second)) by {
        assert(t.skip(pos + 0) == s.skip(pos + first));
        let x = t.skip(pos + second);
        let y = s.skip(pos + first + second);
        assert(x.len() == y.len());
        assert forall|i: int| 0 <= i < x.len() implies #[trigger] x[i] == y[i] by {
            assert(t.skip(pos + 0)[i + second] == s.skip(pos + first)[i + second]);
        }
    }
}

/// Replaces characters at a position of a document's text, however many.
fn splice(doc: &mut AutoCommit, id: &ObjId, pos: usize, del: usize, ins: &str) -> (r: Result<
    (),
    ZettelError,
>)
    requires
        is_at(*id, *old(doc), Kind::Characters),
        pos + del <= text_chars(*old(doc)).len(),
    ensures
        r is Ok && goes_on(*old(doc), *final(doc)) && is_splice(
            text_chars(*old(doc)),
            known(*old(doc)),
            text_chars(*final(doc)),
            known(*final(doc)),
            pos as int,
            del as int,
            ins@,
        ),
    decreases del,
{
    let most: usize = isize::MAX as usize;
    if del > most {
        match splice_text(doc, id, pos, most, "") {
            Ok(_) => {},
            Err(e) => {
                return Err(failure(e));
            },
        }
        let ghost t = *doc;
        proof {
            reveal_strlit("");
            assert(""@ =~= Seq::<char>::empty());
        }
        let r = splice(doc, id, pos, del - most, ins);
        proof {
            lemma_splice_twice(
                text_chars(*old(doc)),
                known(*old(doc)),
                text_chars(t),
                known(t),
                text_chars(*doc),
                known(*doc),
                pos as int,
                most as int,
                del - most,
                ins@,
            );
        }
        return r;
    }
    match splice_text(doc, id, pos, del, ins) {
        Ok(_) => Ok(()),
        Err(e) => Err(failure(e)),
    }
}

/// Makes edits in a document's text, from the last to the first, so that the
/// positions of those to come stay valid.
fn apply_edits(doc: &mut AutoCommit, id: &ObjId, es: &Vec<Edit>, Ghost(b): Ghost<
    Seq<(int, char)>,
>, Ghost(k): Ghost<Set<int>>) -> (r: Result<(), ZettelError>)
    requires
        is_at(*id, *old(doc), Kind::Characters),
        text_chars(*old(doc)) == b,
        known(*old(doc)) == k,
        edited(b, k, b, k),
        fits(edits_view(es@), b.len() as int),
    ensures
        r is Ok && goes_on(*old(doc), *final(doc)) && edited(
            b,
            k,
            text_chars(*final(doc)),
            known(*final(doc)),
        ) && patched(b, k, edits_view(es@), b.len() as int, text_chars(*final(doc))),
{
    let ghost all = edits_view(es@);
    let ghost mut q: int = b.len() as int;
    let ghost mut tail: Seq<(int, char)> = Seq::empty();
    let mut n: usize = es.len();
    proof {
        assert(all.take(n as int) =~= all);
        assert(b.take(q) + tail =~= b);
        assert forall|x: Seq<(int, char)>| #[trigger]
            patched(b, k, all, q, x) implies patched(b, k, all, b.len() as int, x + tail) by {
            assert(x + tail =~= x);
        }
    }
    while n > 0
        invariant
            n <= es@.len(),
            all == edits_view(es@),
            edited(b, k, b, k),
            0 <= q <= b.len(),
            is_at(*id, *doc, Kind::Characters),
            goes_on(*old(doc), *doc),
            fits(all.take(n as int), q),
            text_chars(*doc) == b.take(q) + tail,
            forall|x: Seq<(int, char)>| #[trigger]
                patched(b, k, all.take(n as int), q, x) ==> patched(
                    b,
                    k,
                    all,
                    b.len() as int,
                    x + tail,
                ),
            edited(b, k, text_chars(*doc), known(*doc)),
        decreases n,
    {
        let ghost t = all.take(n as int);
        let ghost e = t.last();
        let ghost before = *doc;
        proof {
            assert(e == es@[n - 1]@);
            assert(t.drop_last() =~= all.take(n - 1));
        }
        match splice(doc, id, es[n - 1].pos, es[n - 1].delete, es[n - 1].insert.as_str()) {
            Ok(_) => {},
            Err(x) => {
                return Err(x);
            },
        }
        proof {
            let s = text_chars(before);
            let u = text_chars(*doc);
            lemma_splice_edited(b, k, s, known(before), u, known(*doc), e.pos, e.delete, e.insert);
            lemma_splice_at(s, known(before), u, known(*doc), e.pos, e.delete, e.insert);
            let end = e.pos + e.delete;
            let l = e.insert.len() as int;
            let ins = u.subrange(e.pos, e.pos + l);
            let tail2 = ins + b.subrange(end, q) + tail;
            assert(u =~= b.take(e.pos) + tail2);
            assert forall|i: int| 0 <= i < l implies (#[trigger] ins[i]).1 == e.insert[i]
                && !k.contains(ins[i].0) by {
                assert(u[e.pos + i].1 == e.insert[i]);
                assert(!known(before).contains(u[e.pos + i].0));
            }
            assert forall|x: Seq<(int, char)>| #[trigger]
                patched(b, k, all.take(n - 1), e.pos, x) implies patched(
                b,
                k,
                all,
                b.len() as int,
                x + tail2,
            ) by {
                let y = x + ins + b.subrange(end, q);
                assert(y.take(x.len() as int) =~= x);
                assert(y.skip(x.len() + l) =~= b.subrange(end, q));
                assert forall|i: int| x.len() <= i < x.len() + l implies (#[trigger] y[i]).1
                    == e.insert[i - x.len()] && !k.contains(y[i].0) by {
                    assert(y[i] == ins[i - x.len()]);
                }
                assert(patched(b, k, t, q, y));
                assert(y + tail =~= x + tail2);
            }
            q = e.pos;
            tail = tail2;
        }
        n = n - 1;
    }
    proof {
        assert(all.take(0) =~= Seq::<EditView>::empty());
        assert(patched(b, k, all.take(0), q, b.take(q)));
    }
    Ok(())
}

/// Whether `s` is what a side made of the members `b` of a text: the same where
/// it did not change the text, else what the changes between the two texts make
/// of them.
pub open spec fn changed(
    b: Seq<(int, char)>,
    k: Set<int>,
    s: Seq<(int, char)>,
    old_text: Seq<char>,
    new_text: Seq<char>,
) -> bool {
    if old_text == new_text {
        s == b
    } else {
        walked(b, k, s, changes_between(old_text, new_text))
    }
}

/// Turns a document's text into another one, character by character.
fn apply_text_diff(doc: &mut AutoCommit, id: &ObjId, old_text: &str, new_text: &str) -> (r: Result<
    (),
    ZettelError,
>)
    requires
        is_at(*id, *old(doc), Kind::Characters),
        values(text_chars(*old(doc))) == old_text@,
        edited(
            text_chars(*old(doc)),
            known(*old(doc)),
            text_chars(*old(doc)),
            known(*old(doc)),
        ),
    ensures
        r is Ok && goes_on(*old(doc), *final(doc)) && edited(
            text_chars(*old(doc)),
            known(*old(doc)),
            text_chars(*final(doc)),
            known(*final(doc)),
        ) && changed(
            text_chars(*old(doc)),
            known(*old(doc)),
            text_chars(*final(doc)),
            old_text@,
            new_text@,
        ),
        values(text_chars(*final(doc))) == new_text@,
        old_text@ == new_text@ ==> *final(doc) == *old(doc),
{
    if text::same(old_text, new_text) {
        return Ok(());
    }
    let changes = diff_chars(old_text, new_text);
    let es = plan_edits(&changes);
    let ghost b = text_chars(*doc);
    let ghost k = known(*doc);
    proof {
        assert(values(b).len() == b.len());
        lemma_edits_fit(changes@);
    }
    let r = apply_edits(doc, id, &es, Ghost(b), Ghost(k));
    proof {
        let s = text_chars(*doc);
        lemma_patched_walked(b, k, s, changes@);
        assert(b.take(b.len() as int) =~= b);
        lemma_walked_values(b, k, s, changes@);
    }
    r
}

/// Whether two copies put no thing of one identity: what both know of was known
/// before.
pub open spec fn put_apart(k: Set<int>, ks: Set<int>, ko: Set<int>) -> bool {
    forall|n: int|
        #![trigger ks.contains(n)]
        #![trigger ko.contains(n)]
        ks.contains(n) && ko.contains(n) ==> k.contains(n)
}

/// What holds of a merge of texts whatever the chance of the merge: each side
/// makes its changes of the members of one text, and the merge has what neither
/// side dropped and what either put, in the order of each.
pub open spec fn is_text_merge(
    ancestor: Seq<char>,
    ours: Seq<char>,
    theirs: Seq<char>,
    merged: Seq<char>,
) -> bool {
    exists|
        b: Seq<(int, char)>,
        k: Set<int>,
        s: Seq<(int, char)>,
        ks: Set<int>,
        o: Seq<(int, char)>,
        ko: Set<int>,
        m: Seq<(int, char)>,
    |
        #![trigger edited(b, k, s, ks), edited(b, k, o, ko), is_merge(s, ks, o, ko, m)]
        {
            &&& values(b) == ancestor && values(s) == ours && values(o) == theirs && values(m)
                == merged
            &&& edited(b, k, b, k) && edited(b, k, s, ks) && edited(b, k, o, ko)
            &&& changed(b, k, s, ancestor, ours) && changed(b, k, o, ancestor, theirs)
            &&& put_apart(k, ks, ko)
            &&& is_merge(s, ks, o, ko, m)
        }
}

/// Merges the texts of two copies of a document. It succeeds where two authors
/// changed them apart, and fails only where the changes do not go together.
pub fn merge_copies(doc_ours: &mut AutoCommit, doc_theirs: &mut AutoCommit) -> (r: Result<
    String,
    ZettelError,
>)
    requires
        root(*old(doc_ours)) == Some(("body"@, Kind::Characters)),
        are_copies(*old(doc_ours), *old(doc_theirs)),
    ensures
        changed_apart(*old(doc_ours), *old(doc_theirs)) ==> r is Ok,
        match r {
            Ok(t) => exists|m: Seq<(int, char)>|
                values(m) == t@ && #[trigger] is_merge(
                    text_chars(*old(doc_ours)),
                    known(*old(doc_ours)),
                    text_chars(*old(doc_theirs)),
                    known(*old(doc_theirs)),
                    m,
                ),
            Err(e) => e@ is Automerge && !mergeable(
                changes_in(*old(doc_ours)),
                changes_in(*old(doc_theirs)),
            ),
        },
{
    match merge(doc_ours, doc_theirs) {
        Ok(_) => {},
        Err(e) => {
            return Err(failure(e));
        },
    }
    match object_at(doc_ours, "body") {
        Ok(Some(id)) => match read_text(doc_ours, &id) {
            Ok(text) => Ok(text),
            Err(e) => Err(failure(e)),
        },
        Ok(None) => Err(ZettelError::Parse(text::copy("missing body text after merge"))),
        Err(e) => Err(failure(e)),
    }
}

/// Merges two texts that were changed apart. This succeeds; where a side did not
/// change, the merge is the other.
pub fn merge_body(ancestor: &str, ours: &str, theirs: &str) -> (r: Result<String, ZettelError>)
    ensures
        match r {
            Ok(m) => {
                &&& is_text_merge(ancestor@, ours@, theirs@, m@)
                &&& theirs@ == ancestor@ ==> m@ == ours@
                &&& ours@ == ancestor@ ==> m@ == theirs@
            },
            Err(_) => false,
        },
{
    let mut doc = new_doc();
    let id = match put_object(&mut doc, "body", Kind::Characters) {
        Ok(id) => id,
        Err(e) => {
            return Err(failure(e));
        },
    };
    match splice_text(&mut doc, &id, 0, 0, ancestor) {
        Ok(_) => {},
        Err(e) => {
            return Err(failure(e));
        },
    }
    let ghost b = text_chars(doc);
    let ghost k = known(doc);
    proof {
        let none = Seq::<(int, char)>::empty();
        assert(edited(none, Set::<int>::empty(), none, Set::<int>::empty()));
        lemma_splice_edited(
            none,
            Set::<int>::empty(),
            none,
            Set::<int>::empty(),
            b,
            k,
            0,
            0,
            ancestor@,
        );
        assert(values(b) =~= ancestor@);
        assert forall|i: int| 0 <= i < b.len() implies b.contains(#[trigger] b[i]) by {
        }
        assert(edited(b, k, b, k));
    }
    let mut doc_ours = fork(&mut doc);
    let ours_id = match object_at(&doc_ours, "body") {
        Ok(Some(id)) => id,
        Ok(None) => {
            return Err(ZettelError::Parse(text::copy("missing body text")));
        },
        Err(e) => {
            return Err(failure(e));
        },
    };
    match apply_text_diff(&mut doc_ours, &ours_id, ancestor, ours) {
        Ok(_) => {},
        Err(e) => {
            return Err(e);
        },
    }
    let mut doc_theirs = second_copy(&mut doc, &doc_ours);
    let theirs_id = match object_at(&doc_theirs, "body") {
        Ok(Some(id)) => id,
        Ok(None) => {
            return Err(ZettelError::Parse(text::copy("missing body text")));
        },
        Err(e) => {
            return Err(failure(e));
        },
    };
    match apply_text_diff(&mut doc_theirs, &theirs_id, ancestor, theirs) {
        Ok(_) => {},
        Err(e) => {
            return Err(e);
        },
    }
    let ghost s = text_chars(doc_ours);
    let ghost ks = known(doc_ours);
    let ghost o = text_chars(doc_theirs);
    let ghost ko = known(doc_theirs);
    match merge_copies(&mut doc_ours, &mut doc_theirs) {
        Ok(text) => {
            proof {
                let m = choose|m: Seq<(int, char)>|
                    values(m) == text@ && #[trigger] is_merge(s, ks, o, ko, m);
                assert(edited(b, k, s, ks) && edited(b, k, o, ko) && is_merge(s, ks, o, ko, m));
                assert(changed(b, k, s, ancestor@, ours@));
                assert(changed(b, k, o, ancestor@, theirs@));
                lemma_merge_one_side(b, k, s, ks, o, ko, m);
            }
            Ok(text)
        },
        Err(e) => Err(e),
    }
}

// ---------------------------------------------------------------------------
// The reference section
// ---------------------------------------------------------------------------
/// The lines that are not blank.
pub open spec fn filled(ls: Seq<Seq<char>>) -> Seq<Seq<char>>
    decreases ls.len(),
{
    if ls.len() == 0 {
        ls
    } else if text::is_blank(ls.last()) {
        filled(ls.drop_last())
    } else {
        filled(ls.drop_last()).push(ls.last())
    }
}

pub open spec fn ref_items(content: Seq<char>) -> Seq<Seq<char>> {
    filled(lines(content))
}

/// The lines of a reference section that are not blank.
pub fn ref_lines(content: &str) -> (r: Vec<String>)
    ensures
        texts(r@) == ref_items(content@),
{
    let ls = text::split_lines(content);
    let ghost all = lines(content@);
    let mut out: Vec<String> = Vec::new();
    let mut i: usize = 0;
    proof {
        assert(all.take(0) =~= Seq::<Seq<char>>::empty());
        assert(texts(out@) =~= Seq::<Seq<char>>::empty());
    }
    while i < ls.len()
        invariant
            i <= ls@.len(),
            all == texts(ls@),
            texts(out@) == filled(all.take(i as int)),
        decreases ls@.len() - i,
    {
        proof {
            let t = all.take(i + 1);
            assert(t.drop_last() =~= all.take(i as int));
            assert(t.last() == ls@[i as int]@);
        }
        if !text::blank(ls[i].as_str()) {
            let s = text::copy(ls[i].as_str());
            proof {
                text::lemma_texts_push(out@, s);
            }
            out.push(s);
        }
        i = i + 1;
    }
    proof {
        assert(all.take(i as int) =~= all);
    }
    out
}

/// The members that hold one of the texts.
pub open spec fn holding(s: Seq<(int, Seq<char>)>, cur: Seq<Seq<char>>) -> Seq<(int, Seq<char>)>
    decreases s.len(),
{
    if s.len() == 0 {
        s
    } else if cur.contains(s[0].1) {
        seq![s[0]] + holding(s.drop_first(), cur)
    } else {
        holding(s.drop_first(), cur)
    }
}

proof fn lemma_holding(s: Seq<(int, Seq<char>)>, cur: Seq<Seq<char>>)
    ensures
        forall|e: (int, Seq<char>)| #[trigger]
            holding(s, cur).contains(e) == (s.contains(e) && cur.contains(e.1)),
    decreases s.len(),
{
    let h = holding(s, cur);
    if s.len() > 0 {
        let d = s.drop_first();
        lemma_holding(d, cur);
        assert forall|e: (int, Seq<char>)| #[trigger]
            h.contains(e) == (s.contains(e) && cur.contains(e.1)) by {
            if s.contains(e) && e != s[0] {
                let i = s.index_of(e);
                assert(d[i - 1] == e);
            }
            if d.contains(e) {
                let i = d.index_of(e);
                assert(s[i + 1] == e);
            }
            let r = holding(d, cur);
            assert(r.contains(e) == (d.contains(e) && cur.contains(e.1)));
            assert(s.contains(s[0]));
            if cur.contains(s[0].1) {
                assert(h == seq![s[0]] + r);
                assert(h[0] == s[0]);
                if r.contains(e) {
                    let i = r.index_of(e);
                    assert(h[i + 1] == e);
                }
                if h.contains(e) && e != s[0] {
                    let i = h.index_of(e);
                    assert(r[i - 1] == e);
                }
            } else {
                assert(h == r);
            }
        }
    }
}

/// Whether a list was brought from the items `b` to the texts `cur`: of `b` it
/// has those whose text stayed, and it has a new item for each new text.
pub open spec fn is_list_edit(
    b: Seq<(int, Seq<char>)>,
    k: Set<int>,
    cur: Seq<Seq<char>>,
    s: Seq<(int, Seq<char>)>,
    ks: Set<int>,
) -> bool {
    &&& edited(b, k, s, ks)
    &&& forall|e: (int, Seq<char>)| #![trigger s.contains(e)]
        b.contains(e) ==> s.contains(e) == cur.contains(e.1)
    &&& forall|e: (int, Seq<char>)| #![trigger s.contains(e)]
        s.contains(e) && !b.contains(e) ==> cur.contains(e.1) && !values(b).contains(e.1)
    &&& forall|t: Seq<char>| #![trigger cur.contains(t)]
        cur.contains(t) && !values(b).contains(t) ==> has_new(k, s, t)
    &&& forall|x: int| #![trigger ks.contains(x)]
        ks.contains(x) && !k.contains(x) ==> exists|i: int|
            0 <= i < s.len() && (#[trigger] s[i]).0 == x
}

pub open spec fn has_new(k: Set<int>, s: Seq<(int, Seq<char>)>, t: Seq<char>) -> bool {
    exists|i: int| 0 <= i < s.len() && (#[trigger] s[i]).1 == t && !k.contains(s[i].0)
}

/// Brings a document's list from one set of lines to another: what is gone is
/// deleted, from the back so that positions stay valid, and what is new is
/// appended.
fn apply_list_diff(doc: &mut AutoCommit, id: &ObjId, ancestor: &Vec<String>, current: &Vec<
    String,
>) -> (r: Result<(), ZettelError>)
    requires
        is_at(*id, *old(doc), Kind::Items),
        values(list_items(*old(doc))) == texts(ancestor@),
        edited(
            list_items(*old(doc)),
            known(*old(doc)),
            list_items(*old(doc)),
            known(*old(doc)),
        ),
    ensures
        r is Ok && goes_on(*old(doc), *final(doc)) && is_list_edit(
            list_items(*old(doc)),
            known(*old(doc)),
            texts(current@),
            list_items(*final(doc)),
            known(*final(doc)),
        ),
{
    let ghost b = list_items(*doc);
    let ghost k = known(*doc);
    let ghost cur = texts(current@);
    let ghost anc = texts(ancestor@);
    let mut i: usize = ancestor.len();
    proof {
        assert(values(b).len() == b.len());
        assert(b.skip(i as int) =~= Seq::<(int, Seq<char>)>::empty());
        assert(b.take(i as int) + holding(b.skip(i as int), cur) =~= b);
    }
    while i > 0
        invariant
            i <= ancestor@.len() == b.len(),
            anc == texts(ancestor@),
            anc == values(b),
            cur == texts(current@),
            is_at(*id, *doc, Kind::Items),
            goes_on(*old(doc), *doc),
            list_items(*doc) == b.take(i as int) + holding(b.skip(i as int), cur),
            known(*doc) == k,
            edited(b, k, b, k),
            edited(b, k, list_items(*doc), known(*doc)),
        decreases i,
    {
        let ghost before = *doc;
        let ghost rest = b.skip(i - 1);
        proof {
            assert(rest.drop_first() =~= b.skip(i as int));
            assert(rest[0] == b[i - 1]);
            assert(anc[i - 1] == ancestor@[i - 1]@);
            assert(anc.contains(anc[i - 1]));
            assert(values(b)[i - 1] == b[i - 1].1);
        }
        if !text::contains_text(current, ancestor[i - 1].as_str()) {
            match delete_item(doc, id, i - 1) {
                Ok(_) => {},
                Err(e) => {
                    return Err(failure(e));
                },
            }
            proof {
                let s = list_items(before);
                let t = list_items(*doc);
                lemma_splice_edited(
                    b,
                    k,
                    s,
                    known(before),
                    t,
                    known(*doc),
                    i - 1,
                    1,
                    Seq::<Seq<char>>::empty(),
                );
                lemma_splice_at(
                    s,
                    known(before),
                    t,
                    known(*doc),
                    i - 1,
                    1,
                    Seq::<Seq<char>>::empty(),
                );
                assert(t =~= b.take(i - 1) + holding(b.skip(i - 1), cur));
                assert(known(*doc) =~= k);
            }
        } else {
            proof {
                assert(b.take(i as int) + holding(b.skip(i as int), cur) =~= b.take(i - 1)
                    + holding(b.skip(i - 1), cur));
            }
        }
        i = i - 1;
    }
    let ghost kept = list_items(*doc);
    proof {
        assert(b.skip(0) =~= b);
        assert(kept =~= holding(b, cur));
        lemma_holding(b, cur);
    }
    let mut j: usize = 0;
    while j < current.len()
        invariant
            j <= current@.len(),
            anc == texts(ancestor@),
            anc == values(b),
            cur == texts(current@),
            is_at(*id, *doc, Kind::Items),
            goes_on(*old(doc), *doc),
            edited(b, k, list_items(*doc), known(*doc)),
            forall|e: (int, Seq<char>)| #[trigger]
                b.contains(e) ==> list_items(*doc).contains(e) == cur.contains(e.1),
            forall|x: int| 0 <= x < list_items(*doc).len() ==> b.contains(
                #[trigger] list_items(*doc)[x],
            ) || (cur.contains(list_items(*doc)[x].1) && !anc.contains(list_items(*doc)[x].1)),
            forall|t: Seq<char>| #![trigger anc.contains(t)]
                cur.take(j as int).contains(t) && !anc.contains(t) ==> has_new(
                    k,
                    list_items(*doc),
                    t,
                ),
            forall|x: int| #![trigger known(*doc).contains(x)]
                known(*doc).contains(x) && !k.contains(x) ==> exists|y: int|
                    0 <= y < list_items(*doc).len() && (#[trigger] list_items(*doc)[y]).0 == x,
            forall|x: int| #![trigger k.contains(x)] k.contains(x) ==> known(*doc).contains(x),
        decreases current@.len() - j,
    {
        let ghost before = *doc;
        let ghost line = cur[j as int];
        proof {
            assert(cur[j as int] == current@[j as int]@);
            assert(cur.take(j + 1) =~= cur.take(j as int).push(line));
            assert(cur.contains(line));
        }
        if !text::contains_text(ancestor, current[j].as_str()) {
            let n = list_len(doc, id);
            match insert_item(doc, id, n, current[j].as_str()) {
                Ok(_) => {},
                Err(e) => {
                    return Err(failure(e));
                },
            }
            proof {
                let s = list_items(before);
                let t = list_items(*doc);
                let ins = seq![line];
                lemma_splice_edited(b, k, s, known(before), t, known(*doc), n as int, 0, ins);
                lemma_splice_at(s, known(before), t, known(*doc), n as int, 0, ins);
                let fresh = t[n as int];
                assert(fresh.1 == ins[0]);
                assert(t =~= s.push(fresh));
                assert(!k.contains(fresh.0));
                lemma_list_push(b, k, cur, anc, s, known(before), t, known(*doc), j as int);
            }
        } else {
            proof {
                assert forall|t: Seq<char>| #![trigger anc.contains(t)]
                    cur.take(j + 1).contains(t) && !anc.contains(t) implies has_new(
                    k,
                    list_items(*doc),
                    t,
                ) by {
                    let p = cur.take(j + 1);
                    let q = p.index_of(t);
                    assert(t != line);
                    assert(cur.take(j as int)[q] == t);
                }
            }
        }
        j = j + 1;
    }
    proof {
        assert(cur.take(j as int) =~= cur);
        let s = list_items(*doc);
        assert forall|e: (int, Seq<char>)| #![trigger s.contains(e)]
            s.contains(e) && !b.contains(e) implies cur.contains(e.1) && !values(b).contains(
            e.1,
        ) by {
            let x = s.index_of(e);
            assert(s[x] == e);
        }
        assert forall|t: Seq<char>| #![trigger cur.contains(t)]
            cur.contains(t) && !values(b).contains(t) implies has_new(k, s, t) by {
            assert(!anc.contains(t));
        }
    }
    Ok(())
}

/// One more new item keeps what holds of the list.
proof fn lemma_list_push(
    b: Seq<(int, Seq<char>)>,
    k: Set<int>,
    cur: Seq<Seq<char>>,
    anc: Seq<Seq<char>>,
    s: Seq<(int, Seq<char>)>,
    ks: Set<int>,
    t: Seq<(int, Seq<char>)>,
    kt: Set<int>,
    j: int,
)
    requires
        anc == values(b),
        0 <= j < cur.len(),
        !anc.contains(cur[j]),
        is_splice(s, ks, t, kt, s.len() as int, 0, seq![cur[j]]),
        t == s.push(t[s.len() as int]),
        t[s.len() as int].1 == cur[j],
        !k.contains(t[s.len() as int].0),
        forall|e: (int, Seq<char>)| #[trigger]
            b.contains(e) ==> s.contains(e) == cur.contains(e.1),
        forall|x: int|
            0 <= x < s.len() ==> b.contains(#[trigger] s[x]) || (cur.contains(s[x].1)
                && !anc.contains(s[x].1)),
        forall|l: Seq<char>| #![trigger anc.contains(l)]
            cur.take(j).contains(l) && !anc.contains(l) ==> has_new(k, s, l),
        forall|x: int| #![trigger ks.contains(x)]
            ks.contains(x) && !k.contains(x) ==> exists|y: int|
                0 <= y < s.len() && (#[trigger] s[y]).0 == x,
    ensures
        forall|e: (int, Seq<char>)| #[trigger]
            b.contains(e) ==> t.contains(e) == cur.contains(e.1),
        forall|x: int|
            0 <= x < t.len() ==> b.contains(#[trigger] t[x]) || (cur.contains(t[x].1)
                && !anc.contains(t[x].1)),
        forall|l: Seq<char>| #![trigger anc.contains(l)]
            cur.take(j + 1).contains(l) && !anc.contains(l) ==> has_new(k, t, l),
        forall|x: int| #![trigger kt.contains(x)]
            kt.contains(x) && !k.contains(x) ==> exists|y: int|
                0 <= y < t.len() && (#[trigger] t[y]).0 == x,
{
    let n = s.len() as int;
    let fresh = t[n];
    assert forall|e: (int, Seq<char>)| #[trigger] b.contains(e) implies t.contains(e)
        == cur.contains(e.1) by {
        let i = b.index_of(e);
        assert(values(b)[i] == e.1);
        assert(anc.contains(e.1));
        assert(e != fresh);
        if s.contains(e) {
            let x = s.index_of(e);
            assert(t[x] == e);
        }
        if t.contains(e) {
            let x = t.index_of(e);
            assert(s[x] == e);
        }
    }
    assert forall|x: int| 0 <= x < t.len() implies b.contains(#[trigger] t[x]) || (cur.contains(
        t[x].1,
    ) && !anc.contains(t[x].1)) by {
        if x < n {
            assert(t[x] == s[x]);
        } else {
            assert(cur.contains(cur[j]));
        }
    }
    assert forall|l: Seq<char>| #![trigger anc.contains(l)]
        cur.take(j + 1).contains(l) && !anc.contains(l) implies has_new(k, t, l) by {
        if l == cur[j] {
            assert(t[n].1 == l && !k.contains(t[n].0));
        } else {
            let p = cur.take(j + 1);
            let q = p.index_of(l);
            assert(cur.take(j)[q] == l);
            assert(has_new(k, s, l));
            let x = choose|x: int| 0 <= x < s.len() && (#[trigger] s[x]).1 == l && !k.contains(
                s[x].0,
            );
            assert(t[x] == s[x]);
        }
    }
    assert forall|x: int| #![trigger kt.contains(x)]
        kt.contains(x) && !k.contains(x) implies exists|y: int|
        0 <= y < t.len() && (#[trigger] t[y]).0 == x by {
        if ks.contains(x) {
            let y = choose|y: int| 0 <= y < s.len() && (#[trigger] s[y]).0 == x;
            assert(t[y] == s[y]);
        } else {
            let y = choose|y: int| n <= y < n + 1 && (#[trigger] t[y]).0 == x;
            assert(t[y].0 == x);
        }
    }
}

/// Whether a line is in the merge of three lists of lines: it was there and
/// both kept it, or it is new on one side.
pub open spec fn line_kept(
    a: Seq<Seq<char>>,
    o: Seq<Seq<char>>,
    t: Seq<Seq<char>>,
    x: Seq<char>,
) -> bool {
    if a.contains(x) {
        o.contains(x) && t.contains(x)
    } else {
        o.contains(x) || t.contains(x)
    }
}

proof fn lemma_values_contains(s: Seq<(int, Seq<char>)>, x: Seq<char>)
    ensures
        values(s).contains(x) == exists|e: (int, Seq<char>)| #[trigger]
            s.contains(e) && e.1 == x,
{
    if values(s).contains(x) {
        let i = values(s).index_of(x);
        assert(s.contains(s[i]));
    }
    if exists|e: (int, Seq<char>)| #[trigger] s.contains(e) && e.1 == x {
        let e = choose|e: (int, Seq<char>)| #[trigger] s.contains(e) && e.1 == x;
        let i = s.index_of(e);
        assert(values(s)[i] == x);
    }
}

/// The lines of a merged list are those that the rule keeps.
proof fn lemma_list_merge(
    b: Seq<(int, Seq<char>)>,
    k: Set<int>,
    ours: Seq<Seq<char>>,
    s: Seq<(int, Seq<char>)>,
    ks: Set<int>,
    theirs: Seq<Seq<char>>,
    o: Seq<(int, Seq<char>)>,
    ko: Set<int>,
    m: Seq<(int, Seq<char>)>,
)
    requires
        edited(b, k, b, k),
        is_list_edit(b, k, ours, s, ks),
        is_list_edit(b, k, theirs, o, ko),
        is_merge(s, ks, o, ko, m),
    ensures
        forall|x: Seq<char>| #[trigger]
            values(m).contains(x) == line_kept(values(b), ours, theirs, x),
{
    assert forall|x: Seq<char>| #[trigger]
        values(m).contains(x) == line_kept(values(b), ours, theirs, x) by {
        lemma_values_contains(m, x);
        lemma_values_contains(b, x);
        if values(m).contains(x) {
            let e = choose|e: (int, Seq<char>)| #[trigger] m.contains(e) && e.1 == x;
            if b.contains(e) {
                let i = b.index_of(e);
                assert(k.contains(b[i].0));
                assert(ks.contains(e.0) && ko.contains(e.0));
                assert(s.contains(e) && o.contains(e));
            } else if s.contains(e) {
            } else {
                assert(o.contains(e));
            }
        }
        if line_kept(values(b), ours, theirs, x) {
            if values(b).contains(x) {
                let e = choose|e: (int, Seq<char>)| #[trigger] b.contains(e) && e.1 == x;
                assert(s.contains(e) && o.contains(e));
                assert(m.contains(e));
            } else if ours.contains(x) {
                lemma_new_survives(b, k, ours, s, ks, theirs, o, ko, x);
                let e = choose|e: (int, Seq<char>)|
                    s.contains(e) && e.1 == x && (o.contains(e) || !ko.contains(e.0));
                assert(m.contains(e));
            } else {
                lemma_new_survives(b, k, theirs, o, ko, ours, s, ks, x);
                let e = choose|e: (int, Seq<char>)|
                    o.contains(e) && e.1 == x && (s.contains(e) || !ks.contains(e.0));
                assert(m.contains(e));
            }
        }
    }
}

/// A new item of one side is either unknown to the other, or the other has it.
proof fn lemma_new_survives(
    b: Seq<(int, Seq<char>)>,
    k: Set<int>,
    ours: Seq<Seq<char>>,
    s: Seq<(int, Seq<char>)>,
    ks: Set<int>,
    theirs: Seq<Seq<char>>,
    o: Seq<(int, Seq<char>)>,
    ko: Set<int>,
    x: Seq<char>,
)
    requires
        is_list_edit(b, k, ours, s, ks),
        is_list_edit(b, k, theirs, o, ko),
        forall|e: (int, Seq<char>), f: (int, Seq<char>)|
            #![trigger s.contains(e), o.contains(f)]
            s.contains(e) && o.contains(f) && e.0 == f.0 ==> e == f,
        ours.contains(x),
        !values(b).contains(x),
    ensures
        exists|e: (int, Seq<char>)|
            #![trigger s.contains(e)]
            s.contains(e) && e.1 == x && (o.contains(e) || !ko.contains(e.0)),
{
    assert(has_new(k, s, x));
    let i = choose|i: int| 0 <= i < s.len() && (#[trigger] s[i]).1 == x && !k.contains(s[i].0);
    let e = s[i];
    assert(s.contains(e));
    if ko.contains(e.0) {
        let y = choose|y: int| 0 <= y < o.len() && (#[trigger] o[y]).0 == e.0;
        assert(o.contains(o[y]));
        assert(o[y] == e);
    }
}

/// An item as it is read back: double quotes at its ends are dropped.
pub open spec fn read_back(x: Seq<char>) -> Seq<char> {
    text::stripped("\""@ + x + "\""@, '"')
}

/// Whether a list is the merge of three: in order, each line once, and of the
/// lines those that the rule keeps.
pub open spec fn is_ref_merge(
    a: Seq<Seq<char>>,
    o: Seq<Seq<char>>,
    t: Seq<Seq<char>>,
    merged: Seq<Seq<char>>,
) -> bool {
    &&& text::ascending(merged)
    &&& forall|y: Seq<char>| #[trigger]
        merged.contains(y) == exists|x: Seq<char>| line_kept(a, o, t, x) && #[trigger] read_back(x)
            == y
}

/// Whether a text is the merge of three reference sections.
pub open spec fn is_reference_merge(
    ancestor: Seq<char>,
    ours: Seq<char>,
    theirs: Seq<char>,
    merged: Seq<char>,
) -> bool {
    exists|l: Seq<Seq<char>>| #[trigger]
        is_ref_merge(ref_items(ancestor), ref_items(ours), ref_items(theirs), l) && merged == join(
            l,
            "\n"@,
        )
}

/// Sorts the items that were read back and writes them one to a line.
pub fn finish_reference(items: &Vec<String>) -> (r: String)
    ensures
        exists|l: Seq<Seq<char>>|
            #![trigger text::ascending(l)]
            text::ascending(l) && (forall|y: Seq<char>| #[trigger]
                l.contains(y) == texts(items@).contains(y)) && r@ == join(l, "\n"@),
{
    let sorted = text::sort_dedup(items);
    proof {
        assert(text::ascending(texts(sorted@)));
    }
    text::join_all(&sorted, "\n")
}

fn list_of(lines_in: &Vec<String>) -> (r: Result<(AutoCommit, ObjId), ZettelError>)
    ensures
        r matches Ok((doc, id)) && is_at(id, doc, Kind::Items) && root(doc) == Some(
            ("refs"@, Kind::Items),
        ) && values(list_items(doc)) == texts(lines_in@) && edited(
            list_items(doc),
            known(doc),
            list_items(doc),
            known(doc),
        ),
{
    let mut doc = new_doc();
    let id = match put_object(&mut doc, "refs", Kind::Items) {
        Ok(id) => id,
        Err(e) => {
            return Err(failure(e));
        },
    };
    let ghost none = Seq::<(int, Seq<char>)>::empty();
    let ghost nothing = Set::<int>::empty();
    let mut i: usize = 0;
    proof {
        assert(values(list_items(doc)) =~= texts(lines_in@).take(0));
        assert(edited(none, nothing, list_items(doc), known(doc)));
    }
    while i < lines_in.len()
        invariant
            i <= lines_in@.len(),
            is_at(id, doc, Kind::Items),
            root(doc) == Some(("refs"@, Kind::Items)),
            values(list_items(doc)) == texts(lines_in@).take(i as int),
            edited(none, nothing, list_items(doc), known(doc)),
        decreases lines_in@.len() - i,
    {
        let ghost before = doc;
        proof {
            assert(values(list_items(doc)).len() == list_items(doc).len());
        }
        match insert_item(&mut doc, &id, i, lines_in[i].as_str()) {
            Ok(_) => {},
            Err(e) => {
                return Err(failure(e));
            },
        }
        proof {
            lemma_splice_edited(
                none,
                nothing,
                list_items(before),
                known(before),
                list_items(doc),
                known(doc),
                i as int,
                0,
                seq![lines_in@[i as int]@],
            );
            assert(values(list_items(doc)) =~= texts(lines_in@).take(i + 1));
        }
        i = i + 1;
    }
    proof {
        assert(texts(lines_in@).take(i as int) =~= texts(lines_in@));
        let b = list_items(doc);
        assert forall|j: int| 0 <= j < b.len() implies b.contains(#[trigger] b[j]) by {
        }
        assert(edited(b, known(doc), b, known(doc)));
    }
    Ok((doc, id))
}

fn missing_refs() -> (e: ZettelError)
    ensures
        e@ == ErrorView::Parse("missing refs list"@),
{
    ZettelError::Parse(text::copy("missing refs list"))
}

/// Merges the lists of two copies of a document, and gives the items as they are
/// read back. It succeeds where two authors changed them apart, and fails only
/// where the changes do not go together.
pub fn merge_list_copies(doc_ours: &mut AutoCommit, doc_theirs: &mut AutoCommit) -> (r: Result<
    Vec<String>,
    ZettelError,
>)
    requires
        root(*old(doc_ours)) == Some(("refs"@, Kind::Items)),
        are_copies(*old(doc_ours), *old(doc_theirs)),
    ensures
        changed_apart(*old(doc_ours), *old(doc_theirs)) ==> r is Ok,
        match r {
            Ok(items) => exists|m: Seq<(int, Seq<char>)>|
                are_read_back(m, texts(items@)) && #[trigger] is_merge(
                    list_items(*old(doc_ours)),
                    known(*old(doc_ours)),
                    list_items(*old(doc_theirs)),
                    known(*old(doc_theirs)),
                    m,
                ),
            Err(e) => e@ is Automerge && !mergeable(
                changes_in(*old(doc_ours)),
                changes_in(*old(doc_theirs)),
            ),
        },
{
    match merge(doc_ours, doc_theirs) {
        Ok(_) => {},
        Err(e) => {
            return Err(failure(e));
        },
    }
    let ghost m = list_items(*doc_ours);
    let merged_id = match object_at(doc_ours, "refs") {
        Ok(Some(id)) => id,
        Ok(None) => {
            return Err(missing_refs());
        },
        Err(e) => {
            return Err(failure(e));
        },
    };
    let n = list_len(doc_ours, &merged_id);
    let mut items: Vec<String> = Vec::new();
    let mut i: usize = 0;
    while i < n
        invariant
            i <= n == m.len(),
            m == list_items(*doc_ours),
            is_at(merged_id, *doc_ours, Kind::Items),
            texts(items@).len() == i,
            forall|j: int| 0 <= j < i ==> #[trigger] texts(items@)[j] == read_back(m[j].1),
        decreases n - i,
    {
        match list_item(doc_ours, &merged_id, i) {
            Ok(Some(v)) => {
                let t = text::strip_char(v.as_str(), '"');
                let ghost before = items@;
                items.push(t);
                proof {
                    text::lemma_texts_push(before, t);
                }
            },
            Ok(None) => {},
            Err(e) => {
                return Err(failure(e));
            },
        }
        i = i + 1;
    }
    Ok(items)
}

/// Whether texts are the items of a list as they are read back.
pub open spec fn are_read_back(m: Seq<(int, Seq<char>)>, l: Seq<Seq<char>>) -> bool {
    l.len() == m.len() && forall|j: int| 0 <= j < l.len() ==> #[trigger] l[j] == read_back(m[j].1)
}

/// Merges two reference sections that were changed apart: a line that was there
/// stays if both kept it, a line that one side added stays. The result is
/// sorted, each line once. This succeeds.
pub fn merge_reference(ancestor: &str, ours: &str, theirs: &str) -> (r: Result<
    String,
    ZettelError,
>)
    ensures
        match r {
            Ok(m) => is_reference_merge(ancestor@, ours@, theirs@, m@),
            Err(_) => false,
        },
{
    let ancestor_lines = ref_lines(ancestor);
    let ours_lines = ref_lines(ours);
    let theirs_lines = ref_lines(theirs);
    let (mut doc, id) = match list_of(&ancestor_lines) {
        Ok(d) => d,
        Err(e) => {
            return Err(e);
        },
    };
    let ghost b = list_items(doc);
    let ghost k = known(doc);
    let mut doc_ours = fork(&mut doc);
    let ours_id = match object_at(&doc_ours, "refs") {
        Ok(Some(id)) => id,
        Ok(None) => {
            return Err(missing_refs());
        },
        Err(e) => {
            return Err(failure(e));
        },
    };
    match apply_list_diff(&mut doc_ours, &ours_id, &ancestor_lines, &ours_lines) {
        Ok(_) => {},
        Err(e) => {
            return Err(e);
        },
    }
    let mut doc_theirs = second_copy(&mut doc, &doc_ours);
    let theirs_id = match object_at(&doc_theirs, "refs") {
        Ok(Some(id)) => id,
        Ok(None) => {
            return Err(missing_refs());
        },
        Err(e) => {
            return Err(failure(e));
        },
    };
    match apply_list_diff(&mut doc_theirs, &theirs_id, &ancestor_lines, &theirs_lines) {
        Ok(_) => {},
        Err(e) => {
            return Err(e);
        },
    }
    let ghost s = list_items(doc_ours);
    let ghost ks = known(doc_ours);
    let ghost o = list_items(doc_theirs);
    let ghost ko = known(doc_theirs);
    let items = match merge_list_copies(&mut doc_ours, &mut doc_theirs) {
        Ok(items) => items,
        Err(e) => {
            return Err(e);
        },
    };
    let ghost m = choose|m: Seq<(int, Seq<char>)>|
        are_read_back(m, texts(items@)) && #[trigger] is_merge(s, ks, o, ko, m);
    let ghost a_items = ref_items(ancestor@);
    let ghost o_items = ref_items(ours@);
    let ghost t_items = ref_items(theirs@);
    proof {
        lemma_list_merge(b, k, o_items, s, ks, t_items, o, ko, m);
        assert(values(b) == a_items);
    }
    let out = finish_reference(&items);
    proof {
        let l = choose|l: Seq<Seq<char>>|
            #![trigger text::ascending(l)]
            text::ascending(l) && (forall|y: Seq<char>| #[trigger]
                l.contains(y) == texts(items@).contains(y)) && out@ == join(l, "\n"@);
        assert forall|y: Seq<char>| #[trigger] l.contains(y) == exists|x: Seq<char>|
            line_kept(a_items, o_items, t_items, x) && #[trigger] read_back(x) == y by {
            if texts(items@).contains(y) {
                let j = texts(items@).index_of(y);
                let x = m[j].1;
                assert(values(m)[j] == x);
                assert(values(m).contains(x));
                assert(read_back(x) == y);
            }
            if exists|x: Seq<char>| line_kept(a_items, o_items, t_items, x) && #[trigger] read_back(
                x,
            ) == y {
                let x = choose|x: Seq<char>|
                    line_kept(a_items, o_items, t_items, x) && #[trigger] read_back(x) == y;
                assert(values(m).contains(x));
                let j = values(m).index_of(x);
                assert(texts(items@)[j] == y);
            }
        }
        assert(is_ref_merge(a_items, o_items, t_items, l));
    }
    Ok(out)
}

// ---------------------------------------------------------------------------
// Laws
// ---------------------------------------------------------------------------
/// Merging reference sections has one outcome, and it does not depend on which
/// side is ours.
pub proof fn law_reference_commutes(
    ancestor: Seq<char>,
    ours: Seq<char>,
    theirs: Seq<char>,
    m1: Seq<char>,
    m2: Seq<char>,
)
    requires
        is_reference_merge(ancestor, ours, theirs, m1),
        is_reference_merge(ancestor, theirs, ours, m2) || is_reference_merge(
            ancestor,
            ours,
            theirs,
            m2,
        ),
    ensures
        m1 == m2,
{
    let a = ref_items(ancestor);
    let o = ref_items(ours);
    let t = ref_items(theirs);
    let x = choose|l: Seq<Seq<char>>| #[trigger] is_ref_merge(a, o, t, l) && m1 == join(l, "\n"@);
    let y = if is_reference_merge(ancestor, theirs, ours, m2) {
        choose|l: Seq<Seq<char>>| #[trigger] is_ref_merge(a, t, o, l) && m2 == join(l, "\n"@)
    } else {
        choose|l: Seq<Seq<char>>| #[trigger] is_ref_merge(a, o, t, l) && m2 == join(l, "\n"@)
    };
    assert forall|z: Seq<char>| line_kept(a, o, t, z) == line_kept(a, t, o, z) by {
    }
    assert forall|z: Seq<char>| x.contains(z) == y.contains(z) by {
        if x.contains(z) {
            let w = choose|w: Seq<char>| line_kept(a, o, t, w) && #[trigger] read_back(w) == z;
            assert(line_kept(a, t, o, w) && read_back(w) == z);
        }
        if y.contains(z) {
            if is_reference_merge(ancestor, theirs, ours, m2) {
                let w = choose|w: Seq<char>| line_kept(a, t, o, w) && #[trigger] read_back(w) == z;
                assert(line_kept(a, o, t, w) && read_back(w) == z);
            } else {
                let w = choose|w: Seq<char>| line_kept(a, o, t, w) && #[trigger] read_back(w) == z;
                assert(line_kept(a, o, t, w) && read_back(w) == z);
            }
        }
    }
    text::lemma_ascending_unique(x, y);
}

/// What either side added to the reference section is in the merge, and what
/// either removed is not.
pub proof fn law_reference_union(
    a: Seq<Seq<char>>,
    o: Seq<Seq<char>>,
    t: Seq<Seq<char>>,
    merged: Seq<Seq<char>>,
    x: Seq<char>,
)
    requires
        is_ref_merge(a, o, t, merged),
    ensures
        !a.contains(x) && (o.contains(x) || t.contains(x)) ==> merged.contains(read_back(x)),
        a.contains(x) && o.contains(x) && t.contains(x) ==> merged.contains(read_back(x)),
        !o.contains(x) && !t.contains(x) ==> !line_kept(a, o, t, x),
        a.contains(x) && (!o.contains(x) || !t.contains(x)) ==> !line_kept(a, o, t, x),
{
    if line_kept(a, o, t, x) {
        assert(line_kept(a, o, t, x) && read_back(x) == read_back(x));
    }
}

/// Whether no line begins or ends with a double quote.
pub open spec fn are_bare(ls: Seq<Seq<char>>) -> bool {
    forall|i: int|
        0 <= i < ls.len() ==> (#[trigger] ls[i]).len() > 0 && ls[i][0] != '"' && ls[i].last() != '"'
}

proof fn lemma_bare(ls: Seq<Seq<char>>, x: Seq<char>)
    requires
        are_bare(ls),
        ls.contains(x),
    ensures
        read_back(x) == x,
{
    let i = ls.index_of(x);
    assert(ls[i] == x);
    reveal_strlit("\"");
    let q = "\""@;
    let y = q + x + q;
    let z = y.drop_first();
    assert(q[0] == '"' && y[0] == '"');
    assert(z =~= x + q);
    assert(z[0] == x[0]);
    assert(text::stripped_start(z, '"') == z);
    assert(text::stripped_start(y, '"') == z);
    assert(z.last() == '"');
    assert(z.drop_last() =~= x);
    assert(text::stripped_end(x, '"') == x);
}

/// The lines of a merged reference section are in order, each once: of the lines
/// of both sides those that were there before and neither side removed, and
/// those that either added.
pub proof fn law_reference_lines(
    ancestor: Seq<char>,
    ours: Seq<char>,
    theirs: Seq<char>,
    merged: Seq<char>,
)
    requires
        is_reference_merge(ancestor, ours, theirs, merged),
        are_bare(ref_items(ours)),
        are_bare(ref_items(theirs)),
    ensures
        exists|l: Seq<Seq<char>>|
            {
                &&& #[trigger] text::ascending(l)
                &&& merged == join(l, "\n"@)
                &&& forall|x: Seq<char>| #[trigger]
                    l.contains(x) == line_kept(
                        ref_items(ancestor),
                        ref_items(ours),
                        ref_items(theirs),
                        x,
                    )
            },
{
    let a = ref_items(ancestor);
    let o = ref_items(ours);
    let t = ref_items(theirs);
    let l = choose|l: Seq<Seq<char>>| #[trigger] is_ref_merge(a, o, t, l) && merged == join(l, "\n"@);
    assert forall|x: Seq<char>| #[trigger] line_kept(a, o, t, x) implies read_back(x) == x by {
        if o.contains(x) {
            lemma_bare(o, x);
        } else {
            lemma_bare(t, x);
        }
    }
    assert forall|x: Seq<char>| #[trigger] l.contains(x) == line_kept(a, o, t, x) by {
        if line_kept(a, o, t, x) {
            assert(read_back(x) == x);
        }
        if l.contains(x) {
            let w = choose|w: Seq<char>| line_kept(a, o, t, w) && #[trigger] read_back(w) == x;
            assert(line_kept(a, o, t, w));
        }
    }
    assert(text::ascending(l));
}

/// Merging three times the same reference section gives its lines, sorted and
/// each once.
pub proof fn law_reference_idempotent(a: Seq<Seq<char>>, merged: Seq<Seq<char>>, x: Seq<char>)
    requires
        is_ref_merge(a, a, a, merged),
    ensures
        a.contains(x) ==> merged.contains(read_back(x)),
        forall|y: Seq<char>| #[trigger]
            merged.contains(y) ==> exists|z: Seq<char>| a.contains(z) && #[trigger] read_back(z)
                == y,
{
    law_reference_union(a, a, a, merged, x);
    assert forall|y: Seq<char>| #[trigger] merged.contains(y) implies exists|z: Seq<char>|
        a.contains(z) && #[trigger] read_back(z) == y by {
        let w = choose|w: Seq<char>| line_kept(a, a, a, w) && #[trigger] read_back(w) == y;
        assert(a.contains(w) && read_back(w) == y);
    }
}

/// In a merge of texts nothing is lost but what one side deleted, and nothing
/// is made up: each character is one of ours or of theirs.
pub proof fn law_text_merge_members(
    s: Seq<(int, char)>,
    ks: Set<int>,
    o: Seq<(int, char)>,
    ko: Set<int>,
    m: Seq<(int, char)>,
    e: (int, char),
)
    requires
        is_merge(s, ks, o, ko, m),
    ensures
        m.contains(e) ==> s.contains(e) || o.contains(e),
        s.contains(e) && o.contains(e) ==> m.contains(e),
        s.contains(e) && !ko.contains(e.0) ==> m.contains(e),
        o.contains(e) && !ks.contains(e.0) ==> m.contains(e),
{
    assert(m.contains(e) == m.contains(e));
}

} // verus!
