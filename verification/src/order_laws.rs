//! In which order things stand: texts, headings, items, notes; and what a new row begins with.
use crate::crdt_resolver::with_new;
use crate::git_ops::{has_id, joined};
use crate::hlc::parsed_hlc;
use crate::merge_fm::{item_kept, kept_ours, with_theirs};
use crate::picks::{lemma_pick_more, lemma_pick_none, picked};
use crate::log_laws::{lemma_split_cat, lemma_split_one};
use crate::row_laws::lemma_no_feed;
use crate::rows::{
    find_column, has_ref, ref_line, row_note, row_parts, typed_value, with_ref, with_update, Cells,
};
use crate::string_laws::law_join_split;
use crate::schema::zone_of_column;
use crate::text::{self, has_prefix, is_space, join, lines, lt, split};
use crate::textmap::{self, keys, lookup};
use crate::types::{ColumnView, FieldView, LinkView, SchemaView, ZettelView, Zone};
use vstd::prelude::*;

verus! {

// ---------------------------------------------------------------------------
// Characters and texts
// ---------------------------------------------------------------------------
/// White space is what Unicode says it is.
pub proof fn law_white_space(c: char)
    ensures
        is_space(c) == seq![
            0x09int,
            0x0a,
            0x0b,
            0x0c,
            0x0d,
            0x20,
            0x85,
            0xa0,
            0x1680,
            0x2000,
            0x2001,
            0x2002,
            0x2003,
            0x2004,
            0x2005,
            0x2006,
            0x2007,
            0x2008,
            0x2009,
            0x200a,
            0x2028,
            0x2029,
            0x202f,
            0x205f,
            0x3000,
        ].contains(c as int),
{
    let n = c as int;
    let s = seq![
        0x09int,
        0x0a,
        0x0b,
        0x0c,
        0x0d,
        0x20,
        0x85,
        0xa0,
        0x1680,
        0x2000,
        0x2001,
        0x2002,
        0x2003,
        0x2004,
        0x2005,
        0x2006,
        0x2007,
        0x2008,
        0x2009,
        0x200a,
        0x2028,
        0x2029,
        0x202f,
        0x205f,
        0x3000,
    ];
    if is_space(c) {
        let i = if n <= 0x0d {
            n - 9
        } else if n == 0x20 {
            5
        } else if n == 0x85 {
            6
        } else if n == 0xa0 {
            7
        } else if n == 0x1680 {
            8
        } else if n <= 0x200a {
            n - 0x2000 + 9
        } else if n == 0x2028 {
            20
        } else if n == 0x2029 {
            21
        } else if n == 0x202f {
            22
        } else if n == 0x205f {
            23
        } else {
            24
        };
        assert(s[i] == n);
    }
    if s.contains(n) {
        let i = s.index_of(n);
        assert(s[i] == n);
    }
}

/// Texts are ordered by the first character in which they differ; a text comes before one that
/// it begins.
pub proof fn law_order_of_texts(p: Seq<char>, x: char, s: Seq<char>, y: char, t: Seq<char>)
    requires
        x != y,
    ensures
        lt(p + seq![x] + s, p + seq![y] + t) == ((x as int) < (y as int)),
        lt(p, p + seq![y] + t),
        !lt(p + seq![y] + t, p),
        !lt(p, p),
    decreases p.len(),
{
    let a = p + seq![x] + s;
    let b = p + seq![y] + t;
    if p.len() == 0 {
        assert(a[0] == x && b[0] == y);
    } else {
        let q = p.drop_first();
        law_order_of_texts(q, x, s, y, t);
        assert(a.drop_first() =~= q + seq![x] + s);
        assert(b.drop_first() =~= q + seq![y] + t);
        assert(a[0] == p[0] && b[0] == p[0]);
    }
}

/// A time stamp has two dashes at least.
pub proof fn law_time_stamp_dashes(a: Seq<char>, b: Seq<char>)
    requires
        !a.contains('-') && !b.contains('-'),
    ensures
        parsed_hlc(a) is Err,
        parsed_hlc(a + "-"@ + b) is Err,
{
    reveal_strlit("-");
    assert forall|i: int| 0 <= i < a.len() implies a[i] != '-' by {
        assert(a.contains(a[i]));
    }
    assert forall|i: int| 0 <= i < b.len() implies b[i] != '-' by {
        assert(b.contains(b[i]));
    }
    text::lemma_until_is(a, '-', a.len() as int);
    let s = a + "-"@ + b;
    let n = a.len() as int;
    assert(s[n] == '-');
    assert forall|i: int| 0 <= i < n implies s[i] != '-' by {
        assert(s[i] == a[i]);
    }
    text::lemma_until_is(s, '-', n);
    assert(s.skip(n + 1) =~= b);
    text::lemma_until_is(b, '-', b.len() as int);
}

// ---------------------------------------------------------------------------
// What is added
// ---------------------------------------------------------------------------
/// Whether an item is the first of its kind: it is not there before, and not earlier in the
/// list.
pub open spec fn is_new<A>(base: Seq<A>, more: Seq<A>, i: int) -> bool {
    !base.contains(more[i]) && forall|j: int| 0 <= j < i ==> #[trigger] more[j] != more[i]
}

/// The headings of a body are followed by those of the other body that are new, in their order.
pub proof fn law_new_headings(hs: Seq<Option<Seq<char>>>, more: Seq<Option<Seq<char>>>)
    ensures
        with_new(hs, more).len() >= hs.len(),
        with_new(hs, more).take(hs.len() as int) == hs,
        picked(with_new(hs, more).skip(hs.len() as int), more, |i: int| is_new(hs, more, i)),
        forall|h: Option<Seq<char>>| #[trigger]
            with_new(hs, more).contains(h) == (hs.contains(h) || more.contains(h)),
    decreases more.len(),
{
    let keep = |i: int| is_new(hs, more, i);
    let r = with_new(hs, more);
    let n = hs.len() as int;
    if more.len() == 0 {
        assert(more =~= Seq::<Option<Seq<char>>>::empty());
        lemma_pick_none::<Option<Seq<char>>>(keep);
        assert(r.skip(n) =~= Seq::<Option<Seq<char>>>::empty());
        assert(r.take(n) =~= hs);
    } else {
        let d = more.drop_last();
        let k = more.len() - 1;
        let l = more.last();
        law_new_headings(hs, d);
        let p = with_new(hs, d);
        assert(p.contains(l) == !is_new(hs, more, k)) by {
            if d.contains(l) {
                let j = d.index_of(l);
                assert(more[j] == more[k]);
            }
            if !is_new(hs, more, k) && !hs.contains(l) {
                let j = choose|j: int| 0 <= j < k && #[trigger] more[j] == more[k];
                assert(d[j] == l);
            }
        }
        let kept = |i: int| is_new(hs, d, i);
        assert forall|i: int| 0 <= i < more.len() - 1 implies #[trigger] kept(i) == keep(i) by {
            assert forall|j: int| 0 <= j <= i implies #[trigger] more[j] == d[j] by {}
            if is_new(hs, d, i) {
                assert forall|j: int| 0 <= j < i implies #[trigger] more[j] != more[i] by {
                    assert(d[j] != d[i]);
                }
            }
            if is_new(hs, more, i) {
                assert forall|j: int| 0 <= j < i implies #[trigger] d[j] != d[i] by {
                    assert(more[j] != more[i]);
                }
            }
        }
        lemma_pick_more(p.skip(n), more, kept, keep);
        if !p.contains(l) {
            assert(r.skip(n) =~= p.skip(n).push(l));
        }
        assert(r.take(n) =~= p.take(n));
        assert forall|h: Option<Seq<char>>| #[trigger] r.contains(h) == (hs.contains(h)
            || more.contains(h)) by {
            if p.contains(h) {
                assert(r[p.index_of(h)] == h);
                if d.contains(h) {
                    assert(more[d.index_of(h)] == h);
                }
            }
            if h == l {
                assert(more[k] == h);
                if !p.contains(l) {
                    assert(r[p.len() as int] == h);
                }
            }
            if r.contains(h) {
                let i = r.index_of(h);
                if i < p.len() {
                    assert(p[i] == h);
                    assert(p.contains(h));
                }
            }
            if more.contains(h) {
                let i = more.index_of(h);
                if i < k {
                    assert(d[i] == h);
                    assert(p.contains(h));
                }
            }
        }
    }
}

/// Whether a note that was found is the first with its identifier.
pub open spec fn is_new_note(
    a: Seq<(Seq<char>, Seq<char>)>,
    b: Seq<(Seq<char>, Seq<char>)>,
    i: int,
) -> bool {
    !has_id(a, b[i].0) && forall|j: int| 0 <= j < i ==> (#[trigger] b[j]).0 != b[i].0
}

/// The notes that are found by a path are followed by those that are found by the identifier and
/// are new, in their order.
pub proof fn law_new_backlinks(a: Seq<(Seq<char>, Seq<char>)>, b: Seq<(Seq<char>, Seq<char>)>)
    ensures
        joined(a, b).len() >= a.len(),
        joined(a, b).take(a.len() as int) == a,
        picked(joined(a, b).skip(a.len() as int), b, |i: int| is_new_note(a, b, i)),
        forall|x: Seq<char>| #[trigger]
            has_id(joined(a, b), x) == (has_id(a, x) || has_id(b, x)),
    decreases b.len(),
{
    let keep = |i: int| is_new_note(a, b, i);
    let r = joined(a, b);
    let n = a.len() as int;
    if b.len() == 0 {
        assert(b =~= Seq::<(Seq<char>, Seq<char>)>::empty());
        lemma_pick_none::<(Seq<char>, Seq<char>)>(keep);
        assert(r.skip(n) =~= Seq::<(Seq<char>, Seq<char>)>::empty());
        assert(r.take(n) =~= a);
    } else {
        let d = b.drop_last();
        let k = b.len() - 1;
        let l = b.last();
        law_new_backlinks(a, d);
        let p = joined(a, d);
        assert forall|j: int| 0 <= j < k implies #[trigger] b[j] == d[j] by {}
        assert(has_id(p, l.0) == !is_new_note(a, b, k)) by {
            if has_id(d, l.0) {
                let j = choose|j: int| 0 <= j < d.len() && (#[trigger] d[j]).0 == l.0;
                assert(b[j].0 == b[k].0);
            }
            if !is_new_note(a, b, k) && !has_id(a, l.0) {
                let j = choose|j: int| 0 <= j < k && (#[trigger] b[j]).0 == b[k].0;
                assert(d[j].0 == l.0);
            }
        }
        lemma_pick_more(p.skip(n), b, |i: int| is_new_note(a, d, i), keep);
        if !has_id(p, l.0) {
            assert(r.skip(n) =~= p.skip(n).push(l));
        }
        assert(r.take(n) =~= p.take(n));
        assert forall|x: Seq<char>| #[trigger] has_id(r, x) == (has_id(a, x) || has_id(b, x)) by {
            if has_id(p, x) {
                let i = choose|i: int| 0 <= i < p.len() && (#[trigger] p[i]).0 == x;
                assert(r[i].0 == x);
            }
            if has_id(d, x) {
                let i = choose|i: int| 0 <= i < d.len() && (#[trigger] d[i]).0 == x;
                assert(b[i].0 == x);
            }
            if x == l.0 {
                assert(b[k].0 == x);
                if !has_id(p, l.0) {
                    assert(r[p.len() as int].0 == x);
                }
            }
            if has_id(r, x) {
                let i = choose|i: int| 0 <= i < r.len() && (#[trigger] r[i]).0 == x;
                if i < p.len() {
                    assert(p[i].0 == x);
                }
            }
            if has_id(b, x) {
                let i = choose|i: int| 0 <= i < b.len() && (#[trigger] b[i]).0 == x;
                if i < k {
                    assert(d[i].0 == x);
                    assert(has_id(d, x));
                    assert(has_id(p, x));
                }
            }
        }
    }
}

/// Whether an item of theirs is added to those of ours that stay.
pub open spec fn is_added(
    a: Seq<Seq<char>>,
    o: Seq<Seq<char>>,
    t: Seq<Seq<char>>,
    i: int,
) -> bool {
    &&& item_kept(a, o, t, t[i])
    &&& is_new(kept_ours(a, o, t, o.len() as int), t, i)
}

/// The items of ours that stay are followed by those of theirs that stay and are new, in their
/// order.
pub proof fn law_new_items(a: Seq<Seq<char>>, o: Seq<Seq<char>>, t: Seq<Seq<char>>, n: int)
    requires
        0 <= n <= t.len(),
    ensures
        ({
            let k = kept_ours(a, o, t, o.len() as int);
            let r = with_theirs(a, o, t, n);
            &&& r.len() >= k.len()
            &&& r.take(k.len() as int) == k
            &&& picked(r.skip(k.len() as int), t.take(n), |i: int| is_added(a, o, t, i))
            &&& forall|x: Seq<char>| #[trigger]
                r.contains(x) == (k.contains(x) || exists|i: int|
                    0 <= i < n && #[trigger] t[i] == x && item_kept(a, o, t, x))
        }),
    decreases n,
{
    let k = kept_ours(a, o, t, o.len() as int);
    let r = with_theirs(a, o, t, n);
    let m = k.len() as int;
    let keep = |i: int| is_added(a, o, t, i);
    if n == 0 {
        assert(t.take(0) =~= Seq::<Seq<char>>::empty());
        lemma_pick_none::<Seq<char>>(keep);
        assert(r.skip(m) =~= Seq::<Seq<char>>::empty());
        assert(r.take(m) =~= k);
    } else {
        law_new_items(a, o, t, n - 1);
        let p = with_theirs(a, o, t, n - 1);
        let l = t[n - 1];
        assert((item_kept(a, o, t, l) && !p.contains(l)) == is_added(a, o, t, n - 1)) by {
            if item_kept(a, o, t, l) && p.contains(l) && !k.contains(l) {
                let j = choose|j: int|
                    0 <= j < n - 1 && #[trigger] t[j] == l && item_kept(a, o, t, l);
                assert(t[j] == t[n - 1]);
            }
            if item_kept(a, o, t, l) && !p.contains(l) {
                assert forall|j: int| 0 <= j < n - 1 implies #[trigger] t[j] != l by {
                    if t[j] == l {
                        assert(p.contains(l));
                    }
                }
            }
        }
        assert(t.take(n).drop_last() =~= t.take(n - 1));
        lemma_pick_more(p.skip(m), t.take(n), keep, keep);
        if is_added(a, o, t, n - 1) {
            assert(r.skip(m) =~= p.skip(m).push(l));
        }
        assert(r.take(m) =~= p.take(m));
        assert forall|x: Seq<char>| #[trigger] r.contains(x) == (k.contains(x) || exists|i: int|
            0 <= i < n && #[trigger] t[i] == x && item_kept(a, o, t, x)) by {
            if p.contains(x) {
                assert(r[p.index_of(x)] == x);
            }
            if r.contains(x) {
                let i = r.index_of(x);
                if i < p.len() {
                    assert(p[i] == x);
                    assert(p.contains(x));
                } else {
                    assert(t[n - 1] == x);
                }
            }
            if x == l && item_kept(a, o, t, x) && !p.contains(x) {
                assert(r[p.len() as int] == x);
            }
        }
    }
}

// ---------------------------------------------------------------------------
// Rows
// ---------------------------------------------------------------------------
/// Setting a reference adds a line just where there is none of its key.
pub proof fn law_reference_lines(ls: Seq<Seq<char>>, key: Seq<char>, val: Seq<char>)
    ensures
        (exists|i: int| 0 <= i < ls.len() && has_prefix(#[trigger] ls[i], "- "@ + key + "::"@))
            ==> with_ref(ls, key, val).len() == ls.len(),
        (forall|i: int| 0 <= i < ls.len() ==> !has_prefix(#[trigger] ls[i], "- "@ + key + "::"@))
            ==> with_ref(ls, key, val) == ls.push("- "@ + key + ":: [["@ + val + "]]"@),
{
}

/// Whether a column gives a row's note its title: it is kept in the body and the row has a value
/// for it, and no column before it does.
pub open spec fn gives_title(cs: Seq<ColumnView>, cells: Cells, i: int) -> bool {
    &&& in_body(cs, cells, i)
    &&& forall|j: int| 0 <= j < i ==> !#[trigger] in_body(cs, cells, j)
}

pub open spec fn in_body(cs: Seq<ColumnView>, cells: Cells, i: int) -> bool {
    &&& 0 <= i < cs.len()
    &&& zone_of_column(cs[i]) == Zone::Body
    &&& lookup(cells, cs[i].name) is Some
}

proof fn lemma_title(cs: Seq<ColumnView>, cells: Cells)
    ensures
        match row_parts(cs, cells).title {
            Some(v) => exists|i: int| #[trigger]
                gives_title(cs, cells, i) && lookup(cells, cs[i].name) == Some(v),
            None => forall|i: int| !#[trigger] in_body(cs, cells, i),
        },
    decreases cs.len(),
{
    if cs.len() > 0 {
        let d = cs.drop_last();
        let n = cs.len() - 1;
        lemma_title(d, cells);
        assert forall|j: int| 0 <= j < n implies #[trigger] in_body(cs, cells, j) == in_body(
            d,
            cells,
            j,
        ) by {
            assert(cs[j] == d[j]);
        }
        assert(cs[n] == cs.last());
        if let Some(v) = row_parts(d, cells).title {
            let i = choose|i: int| #[trigger]
                gives_title(d, cells, i) && lookup(cells, d[i].name) == Some(v);
            assert(in_body(d, cells, i));
            assert(gives_title(cs, cells, i)) by {
                assert forall|j: int| 0 <= j < i implies !#[trigger] in_body(cs, cells, j) by {
                    assert(!in_body(d, cells, j));
                }
            }
            assert(cs[i] == d[i]);
        } else {
            assert forall|j: int| 0 <= j < n implies !#[trigger] in_body(cs, cells, j) by {
                assert(!in_body(d, cells, j));
            }
            if in_body(cs, cells, n) {
                assert(gives_title(cs, cells, n));
            }
        }
    }
}

/// The note of a new row has the row's identifier, the table for its type, no date and no tags,
/// and the value of the first column in its body for its title.
pub proof fn law_row_note(id: Seq<char>, s: SchemaView, cells: Cells, i: int)
    ensures
        ({
            let z = row_note(id, s, cells);
            &&& z.meta.id == Some(id)
            &&& z.meta.zettel_type == Some(s.table_name)
            &&& z.meta.date is None
            &&& z.meta.tags.len() == 0
            &&& z.path == "zettelkasten/"@ + id + ".md"@
            &&& gives_title(s.columns, cells, i) ==> z.meta.title == lookup(
                cells,
                s.columns[i].name,
            )
            &&& (forall|j: int| !#[trigger] in_body(s.columns, cells, j)) ==> z.meta.title is None
        }),
{
    let cs = s.columns;
    lemma_title(cs, cells);
    if gives_title(cs, cells, i) {
        let t = row_parts(cs, cells).title;
        assert(in_body(cs, cells, i));
        let k = choose|k: int| #[trigger]
            gives_title(cs, cells, k) && lookup(cells, cs[k].name) == Some(t->0);
        assert(in_body(cs, cells, k));
        if i < k {
            assert(!in_body(cs, cells, i));
        }
        if k < i {
            assert(!in_body(cs, cells, k));
        }
    }
}

/// Whether a row has a value for a column of a zone.
pub open spec fn has_value_in(cs: Seq<ColumnView>, cells: Cells, zone: Zone, i: int) -> bool {
    zone_of_column(cs[i]) == zone && lookup(cells, cs[i].name) is Some
}

/// The value that a row has for a column.
pub open spec fn given(cs: Seq<ColumnView>, cells: Cells, i: int) -> Seq<char> {
    lookup(cells, cs[i].name).unwrap_or(Seq::empty())
}

/// A new row's note has a section for each column in the body that the row has a value for, in
/// the order of the columns, and no other.
pub proof fn law_row_sections(cs: Seq<ColumnView>, cells: Cells)
    ensures
        picked(
            row_parts(cs, cells).sections,
            Seq::new(
                cs.len(),
                |i: int| "## "@ + cs[i].name + "\n\n"@ + given(cs, cells, i),
            ),
            |i: int| has_value_in(cs, cells, Zone::Body, i),
        ),
    decreases cs.len(),
{
    let whole = Seq::new(cs.len(), |i: int| "## "@ + cs[i].name + "\n\n"@ + given(cs, cells, i));
    let keep = |i: int| has_value_in(cs, cells, Zone::Body, i);
    if cs.len() == 0 {
        assert(whole =~= Seq::<Seq<char>>::empty());
        lemma_pick_none::<Seq<char>>(keep);
    } else {
        let d = cs.drop_last();
        law_row_sections(d, cells);
        assert(whole.drop_last() =~= Seq::new(
            d.len(),
            |i: int| "## "@ + d[i].name + "\n\n"@ + given(d, cells, i),
        ));
        lemma_pick_more(
            row_parts(d, cells).sections,
            whole,
            |i: int| has_value_in(d, cells, Zone::Body, i),
            keep,
        );
    }
}

/// It has a reference line for each column that is a reference and that the row has a value for,
/// in the order of the columns, and no other.
pub proof fn law_row_references(cs: Seq<ColumnView>, cells: Cells)
    ensures
        picked(
            row_parts(cs, cells).refs,
            Seq::new(
                cs.len(),
                |i: int| "- "@ + cs[i].name + ":: [["@ + given(cs, cells, i) + "]]"@,
            ),
            |i: int| has_value_in(cs, cells, Zone::Reference, i),
        ),
    decreases cs.len(),
{
    let whole = Seq::new(
        cs.len(),
        |i: int| "- "@ + cs[i].name + ":: [["@ + given(cs, cells, i) + "]]"@,
    );
    let keep = |i: int| has_value_in(cs, cells, Zone::Reference, i);
    if cs.len() == 0 {
        assert(whole =~= Seq::<Seq<char>>::empty());
        lemma_pick_none::<Seq<char>>(keep);
    } else {
        let d = cs.drop_last();
        law_row_references(d, cells);
        assert(whole.drop_last() =~= Seq::new(
            d.len(),
            |i: int| "- "@ + d[i].name + ":: [["@ + given(d, cells, i) + "]]"@,
        ));
        lemma_pick_more(
            row_parts(d, cells).refs,
            whole,
            |i: int| has_value_in(d, cells, Zone::Reference, i),
            keep,
        );
    }
}

/// It links to the note that each of these columns names.
pub proof fn law_row_links(cs: Seq<ColumnView>, cells: Cells)
    ensures
        picked(
            row_parts(cs, cells).links,
            Seq::new(
                cs.len(),
                |i: int|
                    LinkView { target: given(cs, cells, i), display: None, zone: Zone::Reference },
            ),
            |i: int| has_value_in(cs, cells, Zone::Reference, i),
        ),
    decreases cs.len(),
{
    let whole = Seq::new(
        cs.len(),
        |i: int| LinkView { target: given(cs, cells, i), display: None, zone: Zone::Reference },
    );
    let keep = |i: int| has_value_in(cs, cells, Zone::Reference, i);
    if cs.len() == 0 {
        assert(whole =~= Seq::<LinkView>::empty());
        lemma_pick_none::<LinkView>(keep);
    } else {
        let d = cs.drop_last();
        law_row_links(d, cells);
        assert(whole.drop_last() =~= Seq::new(
            d.len(),
            |i: int| LinkView { target: given(d, cells, i), display: None, zone: Zone::Reference },
        ));
        lemma_pick_more(
            row_parts(d, cells).links,
            whole,
            |i: int| has_value_in(d, cells, Zone::Reference, i),
            keep,
        );
    }
}

/// And it has an inline field for each of them.
pub proof fn law_row_fields(cs: Seq<ColumnView>, cells: Cells)
    ensures
        picked(
            row_parts(cs, cells).fields,
            Seq::new(
                cs.len(),
                |i: int|
                    FieldView {
                        key: cs[i].name,
                        value: "[["@ + given(cs, cells, i) + "]]"@,
                        zone: Zone::Reference,
                    },
            ),
            |i: int| has_value_in(cs, cells, Zone::Reference, i),
        ),
    decreases cs.len(),
{
    let whole = Seq::new(
        cs.len(),
        |i: int|
            FieldView {
                key: cs[i].name,
                value: "[["@ + given(cs, cells, i) + "]]"@,
                zone: Zone::Reference,
            },
    );
    let keep = |i: int| has_value_in(cs, cells, Zone::Reference, i);
    if cs.len() == 0 {
        assert(whole =~= Seq::<FieldView>::empty());
        lemma_pick_none::<FieldView>(keep);
    } else {
        let d = cs.drop_last();
        law_row_fields(d, cells);
        assert(whole.drop_last() =~= Seq::new(
            d.len(),
            |i: int|
                FieldView {
                    key: d[i].name,
                    value: "[["@ + given(d, cells, i) + "]]"@,
                    zone: Zone::Reference,
                },
        ));
        lemma_pick_more(
            row_parts(d, cells).fields,
            whole,
            |i: int| has_value_in(d, cells, Zone::Reference, i),
            keep,
        );
    }
}

/// Whether a column is the last of its name that a row has a value for in the front matter.
pub open spec fn is_last_field(cs: Seq<ColumnView>, cells: Cells, i: int) -> bool {
    &&& 0 <= i < cs.len()
    &&& has_value_in(cs, cells, Zone::Frontmatter, i)
    &&& forall|j: int|
        i < j < cs.len() && (#[trigger] cs[j]).name == cs[i].name ==> !has_value_in(
            cs,
            cells,
            Zone::Frontmatter,
            j,
        )
}

/// Its front matter holds the value of each column that is kept there, as the column's type reads
/// it, and nothing else.
pub proof fn law_row_front(cs: Seq<ColumnView>, cells: Cells, i: int, name: Seq<char>)
    ensures
        text::ascending(keys(row_parts(cs, cells).extra)),
        is_last_field(cs, cells, i) ==> lookup(row_parts(cs, cells).extra, cs[i].name) == Some(
            typed_value(given(cs, cells, i), cs[i].data_type),
        ),
        (forall|j: int|
            0 <= j < cs.len() && (#[trigger] cs[j]).name == name ==> !has_value_in(
                cs,
                cells,
                Zone::Frontmatter,
                j,
            )) ==> lookup(row_parts(cs, cells).extra, name) is None,
    decreases cs.len(),
{
    if cs.len() == 0 {
        assert(keys(row_parts(cs, cells).extra) =~= Seq::empty());
    } else {
        let d = cs.drop_last();
        let n = cs.len() - 1;
        law_row_front(d, cells, i, name);
        let p = row_parts(d, cells);
        let c = cs.last();
        let v = typed_value(given(cs, cells, n), c.data_type);
        assert forall|j: int| 0 <= j < n implies #[trigger] cs[j] == d[j] by {}
        assert(cs[n] == c);
        textmap::law_put_sorted(p.extra, c.name, v);
        textmap::lemma_lookup_put(p.extra, c.name, v);
        if i < n && is_last_field(cs, cells, i) {
            assert(d[i] == cs[i]);
            assert forall|j: int|
                i < j < d.len() && (#[trigger] d[j]).name == d[i].name implies !has_value_in(
                d,
                cells,
                Zone::Frontmatter,
                j,
            ) by {
                assert(cs[j] == d[j]);
                assert(!has_value_in(cs, cells, Zone::Frontmatter, j));
            }
            assert(is_last_field(d, cells, i));
            if c.name == cs[i].name {
                assert(!has_value_in(cs, cells, Zone::Frontmatter, n));
            }
        }
        if forall|j: int|
            0 <= j < cs.len() && (#[trigger] cs[j]).name == name ==> !has_value_in(
                cs,
                cells,
                Zone::Frontmatter,
                j,
            ) {
            assert forall|j: int|
                0 <= j < d.len() && (#[trigger] d[j]).name == name implies !has_value_in(
                d,
                cells,
                Zone::Frontmatter,
                j,
            ) by {
                assert(cs[j] == d[j]);
                assert(!has_value_in(cs, cells, Zone::Frontmatter, j));
            }
            if c.name == name {
                assert(!has_value_in(cs, cells, Zone::Frontmatter, n));
            }
        }
    }
}

/// The zones of a new row's note are its sections with blank lines between them and its reference
/// lines, one to a line.
pub proof fn law_row_zones(id: Seq<char>, s: SchemaView, cells: Cells)
    ensures
        ({
            let z = row_note(id, s, cells);
            let p = row_parts(s.columns, cells);
            &&& p.sections.len() > 0 ==> z.body == "\n"@ + join(p.sections, "\n\n"@) + "\n"@
            &&& p.sections.len() == 0 ==> z.body.len() == 0
            &&& p.refs.len() > 0 ==> z.reference == join(p.refs, "\n"@) + "\n"@
            &&& p.refs.len() == 0 ==> z.reference.len() == 0
            &&& z.meta.extra == p.extra && z.links == p.links && z.fields == p.fields
        }),
{
}

/// After a reference was set the reference section has its lines as they were, but for the one
/// that is set, each ended by a line feed.
pub proof fn law_reference_section_set(
    z: ZettelView,
    cs: Seq<ColumnView>,
    i: int,
    val: Seq<char>,
)
    requires
        0 <= i < cs.len(),
        find_column(cs, cs[i].name) == Some(i),
        zone_of_column(cs[i]) == Zone::Reference,
        !cs[i].name.contains('\n') && !val.contains('\n'),
    ensures
        split(with_update(z, cs, cs[i].name, val).reference, '\n') == with_ref(
            lines(z.reference),
            cs[i].name,
            val,
        ).push(Seq::empty()),
{
    let key = cs[i].name;
    let ls = lines(z.reference);
    let r = with_ref(ls, key, val);
    reveal_strlit("\n");
    assert("\n"@ =~= seq!['\n']);
    lemma_no_feed(z.reference);
    let x = ref_line(key, val);
    assert(!x.contains('\n')) by {
        reveal_strlit("- ");
        reveal_strlit(":: [[");
        reveal_strlit("]]");
        if x.contains('\n') {
            let k = x.index_of('\n');
            assert(x[k] == '\n');
            let a = 2 + key.len();
            if 2 <= k < a {
                assert(key[k - 2] == '\n');
            } else if a + 5 <= k < a + 5 + val.len() {
                assert(val[k - a - 5] == '\n');
            }
        }
    }
    assert forall|k: int| 0 <= k < r.len() implies !(#[trigger] r[k]).contains('\n') by {
        if r[k] != x {
            assert(r[k] == ls[k]);
            if ls[k].contains('\n') {
                let j = ls[k].index_of('\n');
                assert(ls[k][j] == '\n');
            }
        }
    }
    assert(r.len() > 0) by {
        if ls.len() == 0 {
            assert(!has_ref(ls, key));
        }
    }
    law_join_split(r, '\n');
    let e = Seq::<char>::empty();
    lemma_split_cat(join(r, seq!['\n']), '\n', e);
    lemma_split_one(e, '\n');
    assert(join(r, seq!['\n']) + seq!['\n'] + e =~= join(r, "\n"@) + "\n"@);
    assert(r + seq![e] =~= r.push(e));
}

} // verus!
