//! What edits, lists and fields come to in a merge.
use crate::docs::{new_chars, old_chars, Tag};
use crate::merge::{edits_of, filled, fits, lemma_edits_fit, ref_items, EditView};
use crate::merge_fm::{
    clean_scalar, fm_entries, fm_line, fm_text, fm_value, in_quotes, item_lines, list_merge,
    lists_of, node_text, scalars_of, FmEntries, FmView,
};
use crate::parser::needs_quotes;
use crate::picks::{lemma_pick_more, lemma_pick_none, picked};
use crate::text::{self, is_blank, lines};
use crate::textmap::{self, keys, lookup};
use crate::yaml::YamlView;
use vstd::prelude::*;

verus! {

// ---------------------------------------------------------------------------
// Edits
// ---------------------------------------------------------------------------
/// The first `p` characters of a text after edits.
pub open spec fn applied(s: Seq<char>, es: Seq<EditView>, p: int) -> Seq<char>
    decreases es.len(),
{
    if es.len() == 0 {
        s.take(p)
    } else {
        let e = es.last();
        applied(s, es.drop_last(), e.pos) + e.insert + s.subrange(e.pos + e.delete, p)
    }
}

proof fn lemma_applied_more(s: Seq<char>, es: Seq<EditView>, p: int, c: char)
    requires
        fits(es, p),
        0 <= p <= s.len(),
    ensures
        applied(s.push(c), es, p) == applied(s, es, p),
    decreases es.len(),
{
    if es.len() == 0 {
        assert(s.push(c).take(p) =~= s.take(p));
    } else {
        let e = es.last();
        lemma_applied_more(s, es.drop_last(), e.pos, c);
        assert(s.push(c).subrange(e.pos + e.delete, p) =~= s.subrange(e.pos + e.delete, p));
    }
}

/// The edits between two texts, carried out on the old one, give the new one.
pub proof fn law_edits_give_new(cs: Seq<(Tag, char)>)
    ensures
        applied(old_chars(cs), edits_of(cs), old_chars(cs).len() as int) == new_chars(cs),
    decreases cs.len(),
{
    let s = old_chars(cs);
    let es = edits_of(cs);
    if cs.len() == 0 {
        assert(s.take(0) =~= new_chars(cs));
    } else {
        let d = cs.drop_last();
        let t = old_chars(d);
        let fs = edits_of(d);
        let p = t.len() as int;
        let c = cs.last().1;
        law_edits_give_new(d);
        lemma_edits_fit(d);
        match cs.last().0 {
            Tag::Equal => {
                lemma_applied_more(t, fs, p, c);
                if fs.len() == 0 {
                    assert(s.take(p + 1) =~= t.take(p).push(c));
                } else {
                    let e = fs.last();
                    let end = e.pos + e.delete;
                    lemma_applied_more(t, fs.drop_last(), e.pos, c);
                    assert(s.subrange(end, p + 1) =~= t.subrange(end, p).push(c));
                    assert(applied(s, es, p + 1) =~= applied(t, fs, p).push(c));
                }
            },
            Tag::Delete => {
                lemma_applied_more(t, fs, p, c);
                if fs.len() > 0 && fs.last().pos + fs.last().delete == p && fs.last().insert.len()
                    == 0 {
                    let e = fs.last();
                    assert(es.drop_last() =~= fs.drop_last());
                    lemma_applied_more(t, fs.drop_last(), e.pos, c);
                    assert(s.subrange(p + 1, p + 1) =~= t.subrange(p, p));
                } else {
                    assert(es.drop_last() =~= fs);
                    assert(s.subrange(p + 1, p + 1) =~= Seq::<char>::empty());
                    assert(applied(s, es, p + 1) =~= applied(s, fs, p));
                }
            },
            Tag::Insert => {
                if fs.len() > 0 && fs.last().pos == p && fs.last().delete == 0 {
                    assert(es.drop_last() =~= fs.drop_last());
                    assert(applied(s, es, p) =~= applied(t, fs, p).push(c));
                } else {
                    assert(es.drop_last() =~= fs);
                    assert(s.subrange(p, p) =~= Seq::<char>::empty());
                    assert(applied(s, es, p) =~= applied(t, fs, p).push(c));
                }
            },
        }
    }
}

// ---------------------------------------------------------------------------
// Lines and lists
// ---------------------------------------------------------------------------
/// The lines that are filled are those that are not blank, in their order and as they are.
pub proof fn law_filled_lines(ls: Seq<Seq<char>>)
    ensures
        picked(filled(ls), ls, |i: int| !is_blank(ls[i])),
    decreases ls.len(),
{
    let keep = |i: int| !is_blank(ls[i]);
    if ls.len() == 0 {
        assert(ls =~= Seq::<Seq<char>>::empty());
        lemma_pick_none::<Seq<char>>(keep);
    } else {
        let d = ls.drop_last();
        law_filled_lines(d);
        lemma_pick_more(filled(d), ls, |i: int| !is_blank(d[i]), keep);
    }
}

/// The items of a reference section are its lines that are not blank.
pub proof fn law_reference_items(content: Seq<char>)
    ensures
        picked(ref_items(content), lines(content), |i: int| !is_blank(lines(content)[i])),
{
    law_filled_lines(lines(content));
}

/// A merged list has each item that one side added, and each that was there before and that
/// both sides have still; it has no other.
pub proof fn law_merged_items(
    a: Seq<Seq<char>>,
    o: Seq<Seq<char>>,
    t: Seq<Seq<char>>,
    x: Seq<char>,
)
    ensures
        list_merge(Some(a), Some(o), Some(t)) matches Some(l) && l.contains(x) == ((!a.contains(x)
            && (o.contains(x) || t.contains(x))) || (a.contains(x) && o.contains(x) && t.contains(
            x,
        ))),
        list_merge(None, Some(o), Some(t)) matches Some(l) && l.contains(x) == (o.contains(x)
            || t.contains(x)),
        list_merge(None, Some(o), None) matches Some(l) && l.contains(x) == o.contains(x),
        list_merge(None, None, Some(t)) matches Some(l) && l.contains(x) == t.contains(x),
        list_merge(Some(a), None, Some(t)) is None,
        list_merge(Some(a), Some(o), None) is None,
        list_merge(None, None, None) is None,
{
    crate::merge_fm::law_list_merge_commutes(Some(a), Some(o), Some(t), x);
    crate::merge_fm::law_list_merge_commutes(None, Some(o), Some(t), x);
    crate::merge_fm::law_list_merge_commutes(None, Some(o), None, x);
    crate::merge_fm::law_list_merge_commutes(None, None, Some(t), x);
}

// ---------------------------------------------------------------------------
// Fields
// ---------------------------------------------------------------------------
proof fn lemma_lookup_more<T>(e: Seq<(Seq<char>, T)>, k: Seq<char>, v: T, name: Seq<char>)
    requires
        text::ascending(keys(e)),
        forall|i: int| 0 <= i < e.len() ==> text::lt((#[trigger] e[i]).0, k),
    ensures
        text::ascending(keys(e.push((k, v)))),
        lookup(e.push((k, v)), name) == if name == k {
            Some(v)
        } else {
            lookup(e, name)
        },
{
    let r = e.push((k, v));
    assert forall|i: int, j: int| 0 <= i < j < keys(r).len() implies text::lt(
        #[trigger] keys(r)[i],
        #[trigger] keys(r)[j],
    ) by {
        assert(keys(r)[i] == e[i].0);
        if j < e.len() {
            assert(keys(e)[i] == e[i].0 && keys(e)[j] == e[j].0);
        }
    }
    textmap::lemma_lookup_none(r, name);
    textmap::lemma_lookup_none(e, name);
    textmap::lemma_lookup_at(r, e.len() as int);
    if name != k {
        if keys(e).contains(name) {
            let i = keys(e).index_of(name);
            assert(e[i].0 == name);
            textmap::lemma_lookup_at(e, i);
            assert(r[i] == e[i]);
            textmap::lemma_lookup_at(r, i);
        } else if keys(r).contains(name) {
            let i = keys(r).index_of(name);
            assert(keys(e)[i] == name);
        }
    }
}

proof fn lemma_parts(m: FmEntries, k: Seq<char>)
    requires
        text::ascending(keys(m)),
    ensures
        text::ascending(keys(scalars_of(m))),
        text::ascending(keys(lists_of(m))),
        forall|i: int| 0 <= i < scalars_of(m).len() ==> keys(m).contains((#[trigger] scalars_of(m)[i]).0),
        forall|i: int| 0 <= i < lists_of(m).len() ==> keys(m).contains((#[trigger] lists_of(m)[i]).0),
        lookup(scalars_of(m), k) == match lookup(m, k) {
            Some(FmView::Scalar(s)) => Some(s),
            _ => None,
        },
        lookup(lists_of(m), k) == match lookup(m, k) {
            Some(FmView::List(l)) => Some(l),
            _ => None,
        },
    decreases m.len(),
{
    if m.len() == 0 {
        assert(keys(scalars_of(m)) =~= Seq::empty());
        assert(keys(lists_of(m)) =~= Seq::empty());
    } else {
        let d = m.drop_last();
        let n = m.len() - 1;
        let (x, v) = m.last();
        assert(keys(d) =~= keys(m).drop_last());
        assert forall|i: int, j: int| 0 <= i < j < keys(d).len() implies text::lt(
            #[trigger] keys(d)[i],
            #[trigger] keys(d)[j],
        ) by {
            assert(keys(d)[i] == keys(m)[i] && keys(d)[j] == keys(m)[j]);
        }
        lemma_parts(d, k);
        assert forall|i: int| 0 <= i < d.len() implies text::lt((#[trigger] d[i]).0, x) by {
            assert(keys(m)[i] == d[i].0 && keys(m)[n] == x);
        }
        assert(m =~= d.push((x, v)));
        lemma_lookup_more(d, x, v, k);
        assert forall|y: Seq<char>| keys(d).contains(y) implies #[trigger] keys(m).contains(y)
            && text::lt(y, x) by {
            let i = keys(d).index_of(y);
            assert(keys(m)[i] == y);
            assert(d[i].0 == y);
        }
        assert(keys(m)[n] == x);
        assert forall|i: int| 0 <= i < scalars_of(d).len() implies text::lt(
            (#[trigger] scalars_of(d)[i]).0,
            x,
        ) by {
            assert(keys(d).contains(scalars_of(d)[i].0));
            assert(keys(m).contains(scalars_of(d)[i].0));
        }
        assert forall|i: int| 0 <= i < lists_of(d).len() implies text::lt(
            (#[trigger] lists_of(d)[i]).0,
            x,
        ) by {
            assert(keys(d).contains(lists_of(d)[i].0));
            assert(keys(m).contains(lists_of(d)[i].0));
        }
        match v {
            FmView::Scalar(s) => {
                lemma_lookup_more(scalars_of(d), x, s, k);
                textmap::lemma_lookup_none(d, x);
                if k == x {
                    assert(!keys(d).contains(x)) by {
                        if keys(d).contains(x) {
                            text::lemma_lt_irreflexive(x);
                        }
                    }
                }
            },
            FmView::List(l) => {
                lemma_lookup_more(lists_of(d), x, l, k);
                textmap::lemma_lookup_none(d, x);
                if k == x {
                    assert(!keys(d).contains(x)) by {
                        if keys(d).contains(x) {
                            text::lemma_lt_irreflexive(x);
                        }
                    }
                }
            },
        }
        assert forall|i: int| 0 <= i < scalars_of(m).len() implies keys(m).contains(
            (#[trigger] scalars_of(m)[i]).0,
        ) by {
            if i < scalars_of(d).len() {
                assert(scalars_of(m)[i] == scalars_of(d)[i]);
                assert(keys(d).contains(scalars_of(d)[i].0));
            } else {
                assert(scalars_of(m)[i].0 == x);
            }
        }
        assert forall|i: int| 0 <= i < lists_of(m).len() implies keys(m).contains(
            (#[trigger] lists_of(m)[i]).0,
        ) by {
            if i < lists_of(d).len() {
                assert(lists_of(m)[i] == lists_of(d)[i]);
                assert(keys(d).contains(lists_of(d)[i].0));
            } else {
                assert(lists_of(m)[i].0 == x);
            }
        }
    }
}

/// Each field of a front matter is among its scalars or among its lists, with its value, and
/// nothing else is.
pub proof fn law_fields_parted(m: FmEntries, k: Seq<char>)
    requires
        text::ascending(keys(m)),
    ensures
        lookup(scalars_of(m), k) == match lookup(m, k) {
            Some(FmView::Scalar(s)) => Some(s),
            _ => None,
        },
        lookup(lists_of(m), k) == match lookup(m, k) {
            Some(FmView::List(l)) => Some(l),
            _ => None,
        },
{
    lemma_parts(m, k);
}

/// The fields of a mapping: each key has the value of the last entry with it.
pub proof fn law_fields_of_mapping(m: Seq<(YamlView, YamlView)>, k: Seq<char>)
    ensures
        text::ascending(keys(fm_entries(m))),
        match lookup(fm_entries(m), k) {
            Some(v) => exists|i: int|
                0 <= i < m.len() && node_text((#[trigger] m[i]).0) == k && v == fm_value(m[i].1)
                    && forall|j: int| i < j < m.len() ==> node_text((#[trigger] m[j]).0) != k,
            None => forall|j: int| 0 <= j < m.len() ==> node_text((#[trigger] m[j]).0) != k,
        },
    decreases m.len(),
{
    if m.len() == 0 {
        assert(keys(fm_entries(m)) =~= Seq::empty());
    } else {
        let d = m.drop_last();
        let n = m.len() - 1;
        law_fields_of_mapping(d, k);
        let x = node_text(m.last().0);
        let v = fm_value(m.last().1);
        textmap::law_put_sorted(fm_entries(d), x, v);
        textmap::lemma_lookup_put(fm_entries(d), x, v);
        assert forall|j: int| 0 <= j < n implies #[trigger] m[j] == d[j] by {}
        if x == k {
            assert(node_text(m[n].0) == k);
        } else if let Some(w) = lookup(fm_entries(d), k) {
            let i = choose|i: int|
                0 <= i < d.len() && node_text((#[trigger] d[i]).0) == k && w == fm_value(d[i].1)
                    && forall|j: int| i < j < d.len() ==> node_text((#[trigger] d[j]).0) != k;
            assert(m[i] == d[i]);
        }
    }
}

// ---------------------------------------------------------------------------
// Writing
// ---------------------------------------------------------------------------
/// A merged front matter is written field by field, in the order of the fields.
pub proof fn law_fields_written(a: FmEntries, b: FmEntries)
    ensures
        fm_text(a + b) == fm_text(a) + fm_text(b),
        forall|k: Seq<char>, v: FmView| #[trigger] fm_text(seq![(k, v)]) == fm_line(k, v),
    decreases b.len(),
{
    assert forall|k: Seq<char>, v: FmView| #[trigger] fm_text(seq![(k, v)]) == fm_line(k, v) by {
        assert(seq![(k, v)].drop_last() =~= Seq::empty());
        assert(fm_text(seq![(k, v)].drop_last()) =~= Seq::empty());
        assert(fm_text(seq![(k, v)]) =~= fm_line(k, v));
    }
    if b.len() == 0 {
        assert(a + b =~= a);
        assert(fm_text(a) + fm_text(b) =~= fm_text(a));
    } else {
        law_fields_written(a, b.drop_last());
        assert((a + b).drop_last() =~= a + b.drop_last());
        assert(fm_text(a + b) =~= fm_text(a) + fm_text(b));
    }
}

/// A merged scalar is written without the quotes round it where it can stand without, else in
/// them.
pub proof fn law_scalar_written(k: Seq<char>, v: Seq<char>)
    ensures
        !needs_quotes(v) ==> fm_line(k, FmView::Scalar(in_quotes(v))) == k + ": "@ + v + "\n"@,
        needs_quotes(v) ==> fm_line(k, FmView::Scalar(in_quotes(v))) == k + ": "@ + ("\""@ + v
            + "\""@) + "\n"@,
{
    reveal_strlit("\"");
    let q = in_quotes(v);
    assert(q.subrange(1, q.len() - 1) =~= v);
    assert(q[0] == '"' && q.last() == '"');
    assert(clean_scalar(q) == if needs_quotes(v) {
        q
    } else {
        v
    });
}

/// The items of a list are written one to a line, in their order, in quotes where they need
/// them.
pub proof fn law_items_written(a: Seq<Seq<char>>, b: Seq<Seq<char>>, x: Seq<char>)
    ensures
        item_lines(a + b) == item_lines(a) + item_lines(b),
        item_lines(seq![x]) == if needs_quotes(x) {
            "  - \""@ + x + "\"\n"@
        } else {
            "  - "@ + x + "\n"@
        },
    decreases b.len(),
{
    assert(seq![x].drop_last() =~= Seq::empty());
    assert(item_lines(seq![x].drop_last()) =~= Seq::empty());
    assert(item_lines(seq![x]) =~= if needs_quotes(x) {
        "  - \""@ + x + "\"\n"@
    } else {
        "  - "@ + x + "\n"@
    });
    if b.len() == 0 {
        assert(a + b =~= a);
        assert(item_lines(a) + item_lines(b) =~= item_lines(a));
    } else {
        law_items_written(a, b.drop_last(), x);
        assert((a + b).drop_last() =~= a + b.drop_last());
        assert(item_lines(a + b) =~= item_lines(a) + item_lines(b));
    }
}

} // verus!
