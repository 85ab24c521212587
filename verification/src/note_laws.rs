//! What changing a note changes, and what it leaves alone.
use crate::error::ErrorView;
use crate::rows::{
    find_column, heading_of, heading_renamed, key_renamed, ref_prefix, renamed, title_column,
    typed_value, with_update, with_updates, Cells,
};
use crate::schema::zone_of_column;
use crate::sql_engine::{engine, first_missing, referenced, row_cells_of, row_path_of, row_text};
use crate::sql_plan::{are_known, edited, edited_all, inserted, NoteEdit};
use crate::statement_laws::{law_column_found, law_missing_reference, law_title_column};
use crate::string_laws::{
    is_gap, law_first_replaced, law_join_split, law_nothing_replaced, law_split_join, law_trim,
};
use crate::text::{self, has_prefix, is_space, occurs_at, split, trimmed};
use crate::textmap::{self, keys, lookup, without};
use crate::types::{ColumnView, SchemaView, ZettelView, Zone};
use vstd::prelude::*;

verus! {

// ---------------------------------------------------------------------------
// Updates
// ---------------------------------------------------------------------------
/// Whether two notes differ in their fields, title, body and reference section at most.
pub open spec fn is_same_note(y: ZettelView, z: ZettelView) -> bool {
    &&& y.meta.id == z.meta.id
    &&& y.meta.date == z.meta.date
    &&& y.meta.tags == z.meta.tags
    &&& y.meta.zettel_type == z.meta.zettel_type
    &&& y.fields == z.fields
    &&& y.links == z.links
    &&& y.path == z.path
}

/// Setting a column changes the zone that it is kept in, and in the front matter only its
/// own field. The title follows the first column that is kept in the body. A name that is
/// no column changes nothing.
pub proof fn law_update_changes_one_zone(
    z: ZettelView,
    cs: Seq<ColumnView>,
    name: Seq<char>,
    val: Seq<char>,
    other: Seq<char>,
)
    requires
        text::ascending(keys(z.meta.extra)),
    ensures
        ({
            let y = with_update(z, cs, name, val);
            &&& is_same_note(y, z)
            &&& text::ascending(keys(y.meta.extra))
            &&& other != name ==> lookup(y.meta.extra, other) == lookup(z.meta.extra, other)
            &&& match find_column(cs, name) {
                None => y == z,
                Some(i) => {
                    &&& zone_of_column(cs[i]) != Zone::Body ==> y.body == z.body && y.meta.title
                        == z.meta.title
                    &&& zone_of_column(cs[i]) != Zone::Reference ==> y.reference == z.reference
                    &&& zone_of_column(cs[i]) != Zone::Frontmatter ==> y.meta.extra == z.meta.extra
                    &&& zone_of_column(cs[i]) == Zone::Frontmatter ==> lookup(y.meta.extra, name)
                        == Some(typed_value(val, cs[i].data_type))
                    &&& zone_of_column(cs[i]) == Zone::Body ==> y.meta.title == if title_column(cs)
                        == Some(i) {
                        Some(val)
                    } else {
                        z.meta.title
                    }
                },
            }
        }),
{
    law_column_found(cs, name);
    law_title_column(cs);
    if let Some(i) = find_column(cs, name) {
        let v = typed_value(val, cs[i].data_type);
        textmap::law_put_sorted(z.meta.extra, name, v);
        textmap::lemma_lookup_put(z.meta.extra, name, v);
        if let Some(j) = title_column(cs) {
            if cs[j].name == name && zone_of_column(cs[i]) == Zone::Body {
                assert(i <= j);
                assert(j <= i);
            }
        }
    }
}

/// The field that an update leaves under a name.
pub open spec fn field_after(
    z: ZettelView,
    cs: Seq<ColumnView>,
    updates: Cells,
    name: Seq<char>,
) -> Option<crate::types::ValueView> {
    match (find_column(cs, name), lookup(updates, name)) {
        (Some(i), Some(v)) => if zone_of_column(cs[i]) == Zone::Frontmatter {
            Some(typed_value(v, cs[i].data_type))
        } else {
            lookup(z.meta.extra, name)
        },
        _ => lookup(z.meta.extra, name),
    }
}

/// Whether an update sets a column of a zone.
pub open spec fn sets_zone(cs: Seq<ColumnView>, updates: Cells, zone: Zone) -> bool {
    exists|k: int|
        0 <= k < updates.len() && (find_column(cs, (#[trigger] updates[k]).0) matches Some(i)
            && zone_of_column(cs[i]) == zone)
}

/// After an update each column in the front matter that is set has its value, and each
/// other field the value that it had. The body changes only where a column in the body is
/// set, the reference section only where a reference is; nothing else changes.
pub proof fn law_updates(z: ZettelView, cs: Seq<ColumnView>, updates: Cells, name: Seq<char>)
    requires
        text::ascending(keys(z.meta.extra)),
        text::ascending(keys(updates)),
    ensures
        ({
            let y = with_updates(z, cs, updates);
            &&& is_same_note(y, z)
            &&& text::ascending(keys(y.meta.extra))
            &&& lookup(y.meta.extra, name) == field_after(z, cs, updates, name)
            &&& !sets_zone(cs, updates, Zone::Body) ==> y.body == z.body && y.meta.title
                == z.meta.title
            &&& !sets_zone(cs, updates, Zone::Reference) ==> y.reference == z.reference
            &&& title_column(cs) matches Some(j) ==> find_column(cs, cs[j].name) == Some(j) ==> (
            lookup(updates, cs[j].name) matches Some(v) ==> y.meta.title == Some(v))
            &&& title_column(cs) matches Some(j) ==> lookup(updates, cs[j].name) is None
                ==> y.meta.title == z.meta.title
        }),
    decreases updates.len(),
{
    let y = with_updates(z, cs, updates);
    law_title_column(cs);
    textmap::lemma_lookup_none(updates, name);
    if updates.len() > 0 {
        let d = updates.drop_last();
        let n = updates.len() - 1;
        let e = updates.last();
        let x = with_updates(z, cs, d);
        assert(keys(d) =~= keys(updates).drop_last());
        assert forall|a: int, b: int| 0 <= a < b < keys(d).len() implies text::lt(
            #[trigger] keys(d)[a],
            #[trigger] keys(d)[b],
        ) by {
            assert(keys(d)[a] == keys(updates)[a]);
            assert(keys(d)[b] == keys(updates)[b]);
        }
        law_updates(z, cs, d, name);
        law_update_changes_one_zone(x, cs, e.0, e.1, name);
        lemma_lookup_last(updates, name);
        if let Some(j) = title_column(cs) {
            lemma_lookup_last(updates, cs[j].name);
            law_update_changes_one_zone(x, cs, e.0, e.1, cs[j].name);
        }
        assert(updates[n] == e);
        assert forall|zone: Zone| sets_zone(cs, d, zone) implies sets_zone(cs, updates, zone) by {
            let k = choose|k: int|
                0 <= k < d.len() && (find_column(cs, (#[trigger] d[k]).0) matches Some(i)
                    && zone_of_column(cs[i]) == zone);
            assert(updates[k] == d[k]);
        }
        if let Some(i) = find_column(cs, e.0) {
            assert(sets_zone(cs, updates, zone_of_column(cs[i])));
            law_column_found(cs, e.0);
        }
    }
}

proof fn lemma_lookup_last<T>(e: Seq<(Seq<char>, T)>, name: Seq<char>)
    requires
        text::ascending(keys(e)),
        e.len() > 0,
    ensures
        text::ascending(keys(e.drop_last())),
        lookup(e, name) == if e.last().0 == name {
            Some(e.last().1)
        } else {
            lookup(e.drop_last(), name)
        },
        e.last().0 == name ==> lookup(e.drop_last(), name) is None,
{
    let d = e.drop_last();
    let n = e.len() - 1;
    assert forall|a: int, b: int| 0 <= a < b < keys(d).len() implies text::lt(
        #[trigger] keys(d)[a],
        #[trigger] keys(d)[b],
    ) by {
        assert(keys(d)[a] == keys(e)[a]);
        assert(keys(d)[b] == keys(e)[b]);
    }
    textmap::lemma_lookup_none(d, name);
    textmap::lemma_lookup_none(e, name);
    textmap::lemma_lookup_at(e, n);
    if e.last().0 == name {
        if keys(d).contains(name) {
            let k = keys(d).index_of(name);
            assert(keys(e)[k] == name && keys(e)[n] == name);
            text::lemma_lt_irreflexive(name);
        }
    } else if keys(d).contains(name) {
        let k = keys(d).index_of(name);
        assert(d[k].0 == name);
        textmap::lemma_lookup_at(d, k);
        assert(e[k] == d[k]);
        textmap::lemma_lookup_at(e, k);
    } else if keys(e).contains(name) {
        let k = keys(e).index_of(name);
        assert(keys(d)[k] == name);
    }
}

// ---------------------------------------------------------------------------
// Renaming a column
// ---------------------------------------------------------------------------
/// Taking a key takes its entry and no other.
pub proof fn law_without<T>(e: Seq<(Seq<char>, T)>, key: Seq<char>, other: Seq<char>)
    requires
        text::ascending(keys(e)),
    ensures
        lookup(without(e, key), key) is None,
        other != key ==> lookup(without(e, key), other) == lookup(e, other),
{
    let w = without(e, key);
    textmap::law_without_sorted(e, key);
    textmap::lemma_lookup_none(w, key);
    textmap::lemma_lookup_none(w, other);
    textmap::lemma_lookup_none(e, other);
    textmap::lemma_place(e, key);
    if other != key && keys(e).contains(other) {
        let i = keys(e).index_of(other);
        let p = textmap::place(e, key);
        textmap::lemma_lookup_at(e, i);
        if w.len() < e.len() {
            let j = if i < p {
                i
            } else {
                i - 1
            };
            assert(w[j] == e[i]);
            textmap::lemma_lookup_at(w, j);
        }
    }
}

/// A column in the front matter that is renamed has its value under the new name. Nothing
/// is left under the old one, and no other field and no other zone changes.
pub proof fn law_field_renamed(
    z: ZettelView,
    old_name: Seq<char>,
    new_name: Seq<char>,
    other: Seq<char>,
)
    requires
        text::ascending(keys(z.meta.extra)),
        old_name != new_name,
        other != old_name && other != new_name,
    ensures
        ({
            let y = renamed(z, old_name, new_name, Zone::Frontmatter);
            &&& is_same_note(y, z)
            &&& y.body == z.body && y.reference == z.reference && y.meta.title == z.meta.title
            &&& lookup(y.meta.extra, other) == lookup(z.meta.extra, other)
            &&& lookup(y.meta.extra, old_name) is None
            &&& lookup(z.meta.extra, old_name) is Some ==> lookup(y.meta.extra, new_name) == lookup(
                z.meta.extra,
                old_name,
            )
            &&& lookup(z.meta.extra, old_name) is None ==> y == z
        }),
{
    if let Some(v) = lookup(z.meta.extra, old_name) {
        let w = without(z.meta.extra, old_name);
        textmap::law_without_sorted(z.meta.extra, old_name);
        law_without(z.meta.extra, old_name, other);
        textmap::lemma_lookup_put(w, new_name, v);
    }
}

/// A heading that is renamed keeps the white space round it.
pub proof fn law_heading_renamed(line: Seq<char>, old_name: Seq<char>, new_name: Seq<char>)
    ensures
        trimmed(line) != heading_of(old_name) ==> heading_renamed(line, old_name, new_name) == line,
        trimmed(line) == heading_of(old_name) ==> exists|a: Seq<char>, b: Seq<char>|
            {
                &&& line == #[trigger] (a + heading_of(old_name) + b)
                &&& is_gap(a) && is_gap(b)
                &&& heading_renamed(line, old_name, new_name) == a + heading_of(new_name) + b
            },
{
    let h = heading_of(old_name);
    let g = heading_of(new_name);
    reveal_strlit("## ");
    if trimmed(line) == h {
        law_trim(line);
        let (a, b) = choose|a: Seq<char>, b: Seq<char>| #[trigger]
            (a + trimmed(line) + b) == line && is_gap(a) && is_gap(b);
        assert(h[0] == '#');
        let k = a.len() as int;
        assert(line.subrange(k, k + h.len()) =~= h);
        assert forall|i: int| 0 <= i < k implies !#[trigger] occurs_at(line, h, i) by {
            if occurs_at(line, h, i) {
                assert(line.subrange(i, i + h.len())[0] == line[i]);
                assert(line[i] == a[i]);
                assert(is_space('#'));
            }
        }
        law_first_replaced(line, h, g, k);
        assert(line.take(k) =~= a);
        assert(line.skip(k + h.len()) =~= b);
        assert forall|i: int| !#[trigger] occurs_at(b, h, i) by {
            if occurs_at(b, h, i) {
                assert(b.subrange(i, i + h.len())[0] == b[i]);
                assert(is_space('#'));
            }
        }
        law_nothing_replaced(b, h, g);
    }
}

/// Renaming a column in the body renames its headings and keeps every other line; a heading
/// keeps the white space round it. No other zone changes.
pub proof fn law_section_renamed(
    z: ZettelView,
    old_name: Seq<char>,
    new_name: Seq<char>,
    i: int,
)
    requires
        !new_name.contains('\n'),
        0 <= i < split(z.body, '\n').len(),
    ensures
        ({
            let y = renamed(z, old_name, new_name, Zone::Body);
            let line = split(z.body, '\n')[i];
            &&& y.meta == z.meta && y.reference == z.reference && is_same_note(y, z)
            &&& split(y.body, '\n').len() == split(z.body, '\n').len()
            &&& trimmed(line) != "## "@ + old_name ==> split(y.body, '\n')[i] == line
            &&& trimmed(line) == "## "@ + old_name ==> exists|a: Seq<char>, b: Seq<char>|
                line == #[trigger] (a + ("## "@ + old_name) + b) && is_gap(a) && is_gap(b) && split(
                    y.body,
                    '\n',
                )[i] == a + ("## "@ + new_name) + b
        }),
{
    let y = renamed(z, old_name, new_name, Zone::Body);
    let ls = split(z.body, '\n');
    let rs = Seq::new(ls.len(), |k: int| heading_renamed(ls[k], old_name, new_name));
    reveal_strlit("\n");
    reveal_strlit("## ");
    assert("\n"@ =~= seq!['\n']);
    law_split_join(z.body, '\n');
    assert forall|k: int| 0 <= k < rs.len() implies !(#[trigger] rs[k]).contains('\n') by {
        let l = ls[k];
        law_heading_renamed(l, old_name, new_name);
        assert(!l.contains('\n'));
        if rs[k] != l && rs[k].contains('\n') {
            let h = heading_of(old_name);
            let g = heading_of(new_name);
            let (a, b) = choose|a: Seq<char>, b: Seq<char>|
                {
                    &&& l == #[trigger] (a + h + b)
                    &&& is_gap(a) && is_gap(b)
                    &&& heading_renamed(l, old_name, new_name) == a + g + b
                };
            let j = rs[k].index_of('\n');
            if j < a.len() {
                assert(l[j] == '\n');
            } else if j < a.len() + g.len() {
                assert(g[j - a.len()] == '\n');
                assert(new_name[j - a.len() - 3] == '\n');
            } else {
                assert(l[j - g.len() + h.len()] == '\n');
            }
        }
    }
    law_join_split(rs, '\n');
    law_heading_renamed(ls[i], old_name, new_name);
}

/// Renaming a reference renames the key of each of its lines and keeps what follows the
/// key, and every other line. No other zone changes.
pub proof fn law_reference_renamed(
    z: ZettelView,
    old_name: Seq<char>,
    new_name: Seq<char>,
    i: int,
)
    requires
        !new_name.contains('\n'),
        0 <= i < split(z.reference, '\n').len(),
    ensures
        ({
            let y = renamed(z, old_name, new_name, Zone::Reference);
            let line = split(z.reference, '\n')[i];
            let other = split(y.reference, '\n')[i];
            let old_key = "- "@ + old_name + "::"@;
            let new_key = "- "@ + new_name + "::"@;
            &&& y.meta == z.meta && y.body == z.body && is_same_note(y, z)
            &&& split(y.reference, '\n').len() == split(z.reference, '\n').len()
            &&& !has_prefix(line, old_key) ==> other == line
            &&& has_prefix(line, old_key) ==> has_prefix(other, new_key) && other.skip(
                new_key.len() as int,
            ) == line.skip(old_key.len() as int)
        }),
{
    let ls = split(z.reference, '\n');
    let rs = Seq::new(ls.len(), |k: int| key_renamed(ls[k], old_name, new_name));
    let old_key = ref_prefix(old_name);
    let new_key = ref_prefix(new_name);
    reveal_strlit("\n");
    reveal_strlit("- ");
    reveal_strlit("::");
    assert("\n"@ =~= seq!['\n']);
    law_split_join(z.reference, '\n');
    assert forall|k: int| 0 <= k < rs.len() implies !(#[trigger] rs[k]).contains('\n') by {
        let l = ls[k];
        assert(!l.contains('\n'));
        if has_prefix(l, old_key) && rs[k].contains('\n') {
            let j = rs[k].index_of('\n');
            if j < new_key.len() {
                assert(new_key[j] == '\n');
                if j >= 2 && j - 2 < new_name.len() {
                    assert(new_name[j - 2] == '\n');
                }
            } else {
                assert(l[j - new_key.len() + old_key.len()] == '\n');
            }
        }
    }
    law_join_split(rs, '\n');
    if has_prefix(ls[i], old_key) {
        assert(rs[i].take(new_key.len() as int) =~= new_key);
        assert(rs[i].skip(new_key.len() as int) =~= ls[i].skip(old_key.len() as int));
    }
}

// ---------------------------------------------------------------------------
// Many notes
// ---------------------------------------------------------------------------
/// A change of many notes gives a file for each of them, at its path and in its place. The
/// first note that cannot be changed refuses all.
pub proof fn law_each_note_edited(notes: Seq<(Seq<char>, Seq<char>)>, e: NoteEdit)
    ensures
        match edited_all(notes, e) {
            Ok(l) => l.len() == notes.len() && forall|i: int|
                0 <= i < notes.len() ==> (#[trigger] l[i]).0 == notes[i].0 && edited(
                    notes[i].1,
                    notes[i].0,
                    e,
                ) == Ok::<Seq<char>, ErrorView>(l[i].1),
            Err(x) => exists|i: int|
                0 <= i < notes.len() && edited((#[trigger] notes[i]).1, notes[i].0, e) == Err::<
                    Seq<char>,
                    ErrorView,
                >(x) && forall|j: int|
                    0 <= j < i ==> edited((#[trigger] notes[j]).1, notes[j].0, e) is Ok,
        },
    decreases notes.len(),
{
    if notes.len() > 0 {
        let d = notes.drop_last();
        let n = notes.len() - 1;
        law_each_note_edited(d, e);
        assert forall|j: int| 0 <= j < n implies #[trigger] notes[j] == d[j] by {}
        match edited_all(d, e) {
            Err(x) => {
                let i = choose|i: int|
                    0 <= i < d.len() && edited((#[trigger] d[i]).1, d[i].0, e) == Err::<
                        Seq<char>,
                        ErrorView,
                    >(x) && forall|j: int|
                        0 <= j < i ==> edited((#[trigger] d[j]).1, d[j].0, e) is Ok;
                assert(notes[i] == d[i]);
            },
            Ok(l) => {
                assert forall|j: int| 0 <= j < n implies edited(
                    (#[trigger] notes[j]).1,
                    notes[j].0,
                    e,
                ) is Ok by {
                    assert(l[j].0 == d[j].0);
                }
                assert(notes[n] == notes.last());
                if let Ok(r) = edited_all(notes, e) {
                    assert forall|i: int| 0 <= i < notes.len() implies (#[trigger] r[i]).0
                        == notes[i].0 && edited(notes[i].1, notes[i].0, e) == Ok::<
                        Seq<char>,
                        ErrorView,
                    >(r[i].1) by {
                        if i < n {
                            assert(r[i] == l[i]);
                        }
                    }
                }
            },
        }
    }
}

/// An insertion plans a note for each row before the first that is refused, and each has the
/// row's values. The notes that a row refers to are known or were inserted before it.
pub proof fn law_rows_planned(
    s: SchemaView,
    table: Seq<char>,
    names: Seq<Seq<char>>,
    rows: Seq<Seq<Seq<char>>>,
    ids: Seq<Seq<char>>,
    known: Seq<Seq<char>>,
    n: int,
)
    requires
        0 <= n <= rows.len(),
        rows.len() <= ids.len(),
    ensures
        ({
            let r = inserted(s, table, names, rows, ids, known, n);
            let k = r.rows.len() as int;
            &&& k <= n
            &&& r.known == known + ids.take(k)
            &&& r.error is None ==> k == n
            &&& r.error is Some ==> k < n
            &&& forall|i: int|
                0 <= i < k ==> row_cells_of(s.columns, names, rows[i]) == Ok::<Cells, ErrorView>(
                    (#[trigger] r.rows[i]).cells,
                ) && r.rows[i].path == row_path_of(table, ids[i]) && r.rows[i].content == row_text(
                    ids[i],
                    s,
                    r.rows[i].cells,
                )
            &&& r.error matches Some(e) ==> match row_cells_of(s.columns, names, rows[k]) {
                Err(x) => e == x,
                Ok(cells) => exists|x: Seq<char>|
                    #![trigger referenced(s.columns, cells).contains(x)]
                    {
                        &&& referenced(s.columns, cells).contains(x)
                        &&& !(known + ids.take(k)).contains(x)
                        &&& e == engine("referenced zettel not found: "@ + x)
                    },
            }
        }),
    decreases n,
{
    let r = inserted(s, table, names, rows, ids, known, n);
    if n == 0 {
        assert(r.known =~= known + ids.take(0));
    } else {
        law_rows_planned(s, table, names, rows, ids, known, n - 1);
        let p = inserted(s, table, names, rows, ids, known, n - 1);
        if p.error is None {
            assert(p.rows.len() == n - 1);
            match row_cells_of(s.columns, names, rows[n - 1]) {
                Err(_) => {},
                Ok(cells) => {
                    let l = referenced(s.columns, cells);
                    let found = are_known(l, p.known);
                    law_missing_reference(l, found);
                    if let Some(x) = first_missing(l, found) {
                        let j = choose|j: int|
                            0 <= j < l.len() && l[j] == x && !#[trigger] found[j] && forall|i: int|
                                0 <= i < j ==> #[trigger] found[i];
                        assert(!(known + ids.take(n - 1)).contains(x));
                        assert(l.contains(x));
                    } else {
                        assert(ids.take(n) =~= ids.take(n - 1).push(ids[n - 1]));
                        assert(r.known =~= known + ids.take(n));
                        assert forall|i: int| 0 <= i < n implies row_cells_of(
                            s.columns,
                            names,
                            rows[i],
                        ) == Ok::<Cells, ErrorView>((#[trigger] r.rows[i]).cells) && r.rows[i].path
                            == row_path_of(table, ids[i]) && r.rows[i].content == row_text(
                            ids[i],
                            s,
                            r.rows[i].cells,
                        ) by {
                            if i < n - 1 {
                                assert(r.rows[i] == p.rows[i]);
                            }
                        }
                    }
                },
            }
        }
    }
}

} // verus!
