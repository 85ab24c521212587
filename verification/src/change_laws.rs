//! What is left of a note after a statement changed it, and what conflicts are resolved to.
use crate::crdt_resolver::{is_resolution, lww_winner};
use crate::error::{ErrorView, ZettelError};
use crate::front_laws::{is_plain_meta, law_new_meta_read};
use crate::git_ops::first_parts;
use crate::ids::{made_ids, parsed_time, ID_FORMAT};
use crate::index_plan::touches_schema;
use crate::maintenance::task_args;
use crate::note_laws::{field_after, law_field_renamed, law_updates, sets_zone};
use crate::parse_laws::is_settled;
use crate::parser::{
    all_blank, boundary, zones_of, first_rule, id_field, is_reading, is_rule, is_separator,
    meta_of_entries, meta_of_fields, parsed_zettel, separators, serialized, text_field,
    with_path_id,
};
use crate::rows::{renamed, with_updates, Cells};
use crate::rule_laws::law_times;
use crate::schema::{column_fields, opt_value, text_values, typedef_path, zone_text};
use crate::sql_engine::{
    is_renaming, is_updating, lowered_all, renamed_text, row_ids, row_paths, updated_text,
};
use crate::text::{self, has_part, join, occurs_at};
use crate::textmap::{self, keys, lookup, put, put_if};
use crate::types::{
    empty_meta, ColumnView, ConflictFile, DiffKind, MetaView, ParsedZettel, ResolvedFile,
    SchemaView, ValueView, Zone,
};
use crate::written::{given_twice, written_value};
use crate::yaml::{value_of, YamlView};
use vstd::prelude::*;

verus! {

// ---------------------------------------------------------------------------
// Updates
// ---------------------------------------------------------------------------
/// The text of an updated note is that of a note with its identifier, date, tags and type, with
/// the fields that are set and the others as they were. Its body is as it was unless a column
/// in the body is set, its reference section unless a reference is.
pub proof fn law_updated_text(
    content: Seq<char>,
    path: Seq<char>,
    s: SchemaView,
    updates: Cells,
    t: Seq<char>,
    name: Seq<char>,
)
    requires
        updated_text(content, path, s, updates) == Ok::<Seq<char>, ErrorView>(t),
        parsed_zettel(content, path) matches Ok(z) && text::ascending(keys(z.meta.extra)),
        text::ascending(keys(updates)),
    ensures
        parsed_zettel(content, path) matches Ok(z) && exists|
            m: MetaView,
            body: Seq<char>,
            reference: Seq<char>,
        |
            {
                &&& t == #[trigger] serialized(m, body, reference)
                &&& m.id == z.meta.id && m.date == z.meta.date && m.tags == z.meta.tags
                    && m.zettel_type == z.meta.zettel_type
                &&& lookup(m.extra, name) == field_after(z, s.columns, updates, name)
                &&& !sets_zone(s.columns, updates, Zone::Body) ==> body == z.body && m.title
                    == z.meta.title
                &&& !sets_zone(s.columns, updates, Zone::Reference) ==> reference == z.reference
            },
{
    let z = parsed_zettel(content, path)->Ok_0;
    let y = with_updates(z, s.columns, updates);
    law_updates(z, s.columns, updates, name);
    assert(t == serialized(y.meta, y.body, y.reference));
}

/// A note in whose front matter columns were set is read with these values. Its other fields,
/// its body, its reference section and its inline fields are those that it had.
pub proof fn law_updated_note_read(
    content: Seq<char>,
    path: Seq<char>,
    p: ParsedZettel,
    s: SchemaView,
    updates: Cells,
    t: Seq<char>,
    q: Result<ParsedZettel, ZettelError>,
    name: Seq<char>,
)
    requires
        is_reading(content, path, Ok(p)),
        is_settled(content),
        text::ascending(keys(p@.meta.extra)),
        text::ascending(keys(updates)),
        !sets_zone(s.columns, updates, Zone::Body),
        !sets_zone(s.columns, updates, Zone::Reference),
        is_plain_meta(with_updates(p@, s.columns, updates).meta),
        is_updating(content, path, s, updates, t),
        is_reading(t, path, q),
    ensures
        q matches Ok(y) && {
            &&& lookup(y@.meta.extra, name) == field_after(p@, s.columns, updates, name)
            &&& y@.meta.id == p@.meta.id
            &&& y@.meta.title == p@.meta.title
            &&& y@.meta.date == p@.meta.date
            &&& y@.meta.tags == p@.meta.tags
            &&& y@.meta.zettel_type == p@.meta.zettel_type
            &&& y@.body == p@.body
            &&& y@.reference == p@.reference
            &&& y@.fields == p@.fields
        },
{
    let n = with_updates(p@, s.columns, updates);
    law_updates(p@, s.columns, updates, name);
    assert(with_path_id(p@.meta, path) == p@.meta);
    assert(with_path_id(n.meta, path) == n.meta);
    law_new_meta_read(content, path, p, n.meta, t, q);
}

/// A note in whose front matter a column was renamed is read with the column's value under the
/// new name; what else it held is as it was.
pub proof fn law_renamed_note_read(
    content: Seq<char>,
    path: Seq<char>,
    p: ParsedZettel,
    old_name: Seq<char>,
    new_name: Seq<char>,
    t: Seq<char>,
    q: Result<ParsedZettel, ZettelError>,
    other: Seq<char>,
)
    requires
        is_reading(content, path, Ok(p)),
        is_settled(content),
        text::ascending(keys(p@.meta.extra)),
        old_name != new_name,
        other != old_name && other != new_name,
        is_plain_meta(renamed(p@, old_name, new_name, Zone::Frontmatter).meta),
        is_renaming(content, path, old_name, new_name, Zone::Frontmatter, t),
        is_reading(t, path, q),
    ensures
        q matches Ok(y) && {
            &&& lookup(y@.meta.extra, other) == lookup(p@.meta.extra, other)
            &&& lookup(y@.meta.extra, old_name) is None
            &&& lookup(p@.meta.extra, old_name) is Some ==> lookup(y@.meta.extra, new_name)
                == lookup(p@.meta.extra, old_name)
            &&& y@.meta.id == p@.meta.id
            &&& y@.meta.title == p@.meta.title
            &&& y@.meta.date == p@.meta.date
            &&& y@.meta.tags == p@.meta.tags
            &&& y@.meta.zettel_type == p@.meta.zettel_type
            &&& y@.body == p@.body
            &&& y@.reference == p@.reference
            &&& y@.fields == p@.fields
        },
{
    let n = renamed(p@, old_name, new_name, Zone::Frontmatter);
    law_field_renamed(p@, old_name, new_name, other);
    assert(with_path_id(p@.meta, path) == p@.meta);
    assert(with_path_id(n.meta, path) == n.meta);
    law_new_meta_read(content, path, p, n.meta, t, q);
}

/// The text of a note after a column was renamed is that of the note with this zone changed
/// alone.
pub proof fn law_renamed_text(
    content: Seq<char>,
    path: Seq<char>,
    old_name: Seq<char>,
    new_name: Seq<char>,
    zone: Zone,
    t: Seq<char>,
)
    requires
        renamed_text(content, path, old_name, new_name, zone) == Ok::<Seq<char>, ErrorView>(t),
    ensures
        parsed_zettel(content, path) matches Ok(z) && exists|
            m: MetaView,
            body: Seq<char>,
            reference: Seq<char>,
        |
            {
                &&& t == #[trigger] serialized(m, body, reference)
                &&& m.id == z.meta.id && m.title == z.meta.title && m.date == z.meta.date && m.tags
                    == z.meta.tags && m.zettel_type == z.meta.zettel_type
                &&& zone != Zone::Frontmatter ==> m == z.meta
                &&& zone != Zone::Body ==> body == z.body
                &&& zone != Zone::Reference ==> reference == z.reference
            },
{
    let z = parsed_zettel(content, path)->Ok_0;
    let y = renamed(z, old_name, new_name, zone);
    assert(t == serialized(y.meta, y.body, y.reference));
}

// ---------------------------------------------------------------------------
// Conflicts
// ---------------------------------------------------------------------------
/// Each conflict is resolved to one file at its path, in the order of the conflicts.
pub proof fn law_each_conflict_resolved(
    conflicts: Seq<ConflictFile>,
    strategy: Option<&str>,
    files: Vec<ResolvedFile>,
    i: int,
)
    requires
        is_resolution(conflicts, strategy, Ok(files)),
        0 <= i < conflicts.len(),
    ensures
        files@.len() == conflicts.len(),
        files@[i].path@ == conflicts[i].path@,
        strategy matches Some(s) && s@ == "preset:last-writer-wins"@ ==> files@[i].content@
            == lww_winner(conflicts[i]),
{
    assert(files@[i].path@ == conflicts[i].path@);
}

/// Where the last writer wins, conflicts are always resolved.
pub proof fn law_last_writer_resolves(
    conflicts: Seq<ConflictFile>,
    strategy: Option<&str>,
    r: Result<Vec<ResolvedFile>, ZettelError>,
)
    requires
        is_resolution(conflicts, strategy, r),
        strategy matches Some(s) && s@ == "preset:last-writer-wins"@,
    ensures
        r is Ok,
{
}

// ---------------------------------------------------------------------------
// Lists
// ---------------------------------------------------------------------------
/// The identifiers of new rows: as many as are asked for, the first as it was given, and none
/// of the others taken.
pub proof fn law_made_ids(first: Seq<char>, taken: Seq<Seq<char>>, n: int)
    ensures
        made_ids(first, taken, n) matches Ok(ids) ==> {
            &&& ids.len() == if n <= 1 {
                1
            } else {
                n
            }
            &&& ids[0] == first
            &&& forall|i: int| 0 < i < ids.len() ==> !taken.contains(#[trigger] ids[i])
        },
        parsed_time(first, ID_FORMAT@) is Err ==> made_ids(first, taken, n) is Err,
{
    if let Ok(t) = parsed_time(first, ID_FORMAT@) {
        law_times(t as int, taken, n);
    }
}

/// What is listed of rows is there for each of them, in their order.
pub proof fn law_rows_listed(
    rows: Seq<(String, String)>,
    l: Seq<Seq<char>>,
    files: Seq<(Seq<char>, Seq<char>)>,
    i: int,
)
    ensures
        row_ids(rows).len() == rows.len() && row_paths(rows).len() == rows.len(),
        0 <= i < rows.len() ==> row_ids(rows)[i] == rows[i].0@ && row_paths(rows)[i] == rows[i].1@,
        lowered_all(l).len() == l.len() && task_args(l).len() == l.len(),
        0 <= i < l.len() ==> lowered_all(l)[i] == text::lowered(l[i]) && task_args(l)[i] == "--task="@
            + l[i],
        first_parts(files).len() == files.len(),
        0 <= i < files.len() ==> first_parts(files)[i] == files[i].0,
{
}

/// A change of a schema is noticed wherever it stands among the changes; without one none is.
pub proof fn law_schema_change_noticed(
    a: Seq<(DiffKind, Seq<char>)>,
    b: Seq<(DiffKind, Seq<char>)>,
    kind: DiffKind,
    id: Seq<char>,
)
    ensures
        touches_schema(a + seq![(kind, typedef_path(id))] + b),
        (forall|i: int| 0 <= i < a.len() ==> !has_part((#[trigger] a[i]).1, "_typedef/"@))
            ==> !touches_schema(a),
{
    reveal_strlit("zettelkasten/_typedef/");
    reveal_strlit("_typedef/");
    let p = typedef_path(id);
    assert(p.subrange(13, 22) =~= "_typedef/"@);
    assert(occurs_at(p, "_typedef/"@, 13));
    let s = a + seq![(kind, p)] + b;
    assert(s[a.len() as int] == (kind, p));
    assert(has_part(s[a.len() as int].1, "_typedef/"@));
}

// ---------------------------------------------------------------------------
// Front matter
// ---------------------------------------------------------------------------
/// Whether a key has a place of its own in a front matter.
pub open spec fn is_own_key(k: Seq<char>) -> bool {
    k == "id"@ || k == "title"@ || k == "date"@ || k == "type"@ || k == "tags"@
}

/// Whether the entry at a place is the last with a key.
pub open spec fn is_last_entry(m: Seq<(Seq<char>, YamlView)>, k: Seq<char>, i: int) -> bool {
    &&& 0 <= i < m.len()
    &&& m[i].0 == k
    &&& forall|j: int| i < j < m.len() ==> (#[trigger] m[j]).0 != k
}

/// Each field of a front matter that has no place of its own is kept under its name with its
/// value, and nothing else is; title and date are what their entries say.
pub proof fn law_front_entries(ls: Seq<Seq<char>>, m: Seq<(Seq<char>, YamlView)>, k: Seq<char>, i: int)
    ensures
        meta_of_entries(ls, m) matches Ok(r) ==> {
            &&& text::ascending(keys(r.extra))
            &&& !is_own_key(k) && is_last_entry(m, k, i) ==> lookup(r.extra, k) == Some(
                value_of(m[i].1),
            )
            &&& is_own_key(k) || (forall|j: int| 0 <= j < m.len() ==> (#[trigger] m[j]).0 != k)
                ==> lookup(r.extra, k) is None
            &&& is_last_entry(m, "title"@, i) ==> text_field(m[i].1, written_value(ls, "title"@))
                == Some(r.title)
            &&& is_last_entry(m, "date"@, i) ==> text_field(m[i].1, written_value(ls, "date"@))
                == Some(r.date)
            &&& is_last_entry(m, "type"@, i) ==> text_field(m[i].1, written_value(ls, "type"@))
                == Some(r.zettel_type)
            &&& is_last_entry(m, "id"@, i) ==> id_field(m[i].1) == Some(r.id)
        },
    decreases m.len(),
{
    lemma_own_keys();
    if m.len() == 0 {
        assert(keys(empty_meta().extra) =~= Seq::empty());
    } else {
        let d = m.drop_last();
        let n = m.len() - 1;
        law_front_entries(ls, d, k, i);
        assert forall|j: int| 0 <= j < n implies #[trigger] m[j] == d[j] by {}
        assert(m[n] == m.last());
        if let Ok(a) = meta_of_entries(ls, d) {
            let (x, v) = m.last();
            textmap::law_put_sorted(a.extra, x, value_of(v));
            textmap::lemma_lookup_put(a.extra, x, value_of(v));
            assert forall|y: Seq<char>| i < n && #[trigger] is_last_entry(m, y, i) implies x != y
                && is_last_entry(d, y, i) by {
                assert(m[n].0 != y);
                assert(d[i] == m[i]);
            }
            if forall|j: int| 0 <= j < m.len() ==> (#[trigger] m[j]).0 != k {
                assert(m[n].0 != k);
                assert forall|j: int| 0 <= j < d.len() implies (#[trigger] d[j]).0 != k by {
                    assert(m[j] == d[j]);
                }
            }
        }
    }
}

proof fn lemma_own_keys()
    ensures
        "id"@ != "title"@ && "id"@ != "date"@ && "id"@ != "type"@ && "id"@ != "tags"@,
        "title"@ != "date"@ && "title"@ != "type"@ && "title"@ != "tags"@,
        "date"@ != "type"@ && "date"@ != "tags"@ && "type"@ != "tags"@,
{
    reveal_strlit("id");
    reveal_strlit("title");
    reveal_strlit("date");
    reveal_strlit("type");
    reveal_strlit("tags");
    assert("id"@.len() == 2 && "title"@.len() == 5 && "date"@.len() == 4);
    assert("date"@[0] != "type"@[0] && "date"@[0] != "tags"@[0] && "type"@[1] != "tags"@[1]);
}

/// A front matter that gives a field with a place of its own twice is refused.
pub proof fn law_repeated_field(ls: Seq<Seq<char>>, m: Seq<(Seq<char>, YamlView)>, k: Seq<char>)
    requires
        is_own_key(k),
        given_twice(ls, k),
    ensures
        meta_of_fields(ls, m) is Err,
{
}

// ---------------------------------------------------------------------------
// Rules
// ---------------------------------------------------------------------------
/// The first rule from a line on.
pub proof fn law_first_rule(ls: Seq<Seq<char>>, from: int)
    requires
        0 <= from <= ls.len(),
    ensures
        from <= first_rule(ls, from) <= ls.len(),
        forall|i: int| from <= i < first_rule(ls, from) ==> !is_rule(#[trigger] ls[i]),
        first_rule(ls, from) < ls.len() ==> is_rule(ls[first_rule(ls, from)]),
    decreases ls.len() - from,
{
    if from < ls.len() && !is_rule(ls[from]) {
        law_first_rule(ls, from + 1);
    }
}

/// The separators in a range are all rules there that stand outside of blocks of code, in their
/// order.
pub proof fn law_separators(ls: Seq<Seq<char>>, from: int, to: int)
    requires
        0 <= from <= to <= ls.len(),
    ensures
        forall|i: int| #[trigger]
            separators(ls, from, to).contains(i) == (from <= i < to && is_separator(ls, from, i)),
        forall|a: int, b: int|
            0 <= a < b < separators(ls, from, to).len() ==> #[trigger] separators(ls, from, to)[a]
                < #[trigger] separators(ls, from, to)[b],
    decreases to - from,
{
    if from < to {
        law_separators(ls, from, to - 1);
        let p = separators(ls, from, to - 1);
        let r = separators(ls, from, to);
        assert forall|i: int| #[trigger] r.contains(i) == (from <= i < to && is_separator(
            ls,
            from,
            i,
        )) by {
            if p.contains(i) {
                assert(r[p.index_of(i)] == i);
            }
            if i == to - 1 && is_separator(ls, from, i) {
                assert(r[p.len() as int] == i);
            }
            if r.contains(i) {
                let a = r.index_of(i);
                if a < p.len() {
                    assert(p[a] == i);
                    assert(p.contains(i));
                }
            }
        }
        assert forall|a: int, b: int| 0 <= a < b < r.len() implies #[trigger] r[a]
            < #[trigger] r[b] by {
            assert(r[a] == p[a]);
            assert(p.contains(p[a]));
            if b < p.len() {
                assert(r[b] == p[b]);
            }
        }
    }
}

/// Where what follows a separator ends: at the next one, or at the end.
pub open spec fn part_end(seps: Seq<int>, end: int, k: int) -> int {
    if k + 1 < seps.len() {
        seps[k + 1]
    } else {
        end
    }
}

/// The reference section follows the last separator that something follows, where that is
/// reference lines alone, and ends at the next separator. Separators that only blank lines
/// follow do not count. Where something else follows, there is no reference section.
pub proof fn law_reference_found(
    ls: Seq<Seq<char>>,
    refs: Seq<bool>,
    seps: Seq<int>,
    end: int,
    k: int,
)
    requires
        0 <= k < seps.len(),
        exists|i: int| seps[k] < i < part_end(seps, end, k) && !text::is_blank(#[trigger] ls[i]),
        forall|j: int|
            k < j < seps.len() ==> all_blank(ls, #[trigger] seps[j] + 1, part_end(seps, end, j)),
    ensures
        (forall|i: int|
            seps[k] < i < part_end(seps, end, k) && !text::is_blank(#[trigger] ls[i]) ==> refs[i])
            ==> boundary(ls, refs, seps, end) == (Some(seps[k]), part_end(seps, end, k)),
        (exists|i: int|
            seps[k] < i < part_end(seps, end, k) && !text::is_blank(#[trigger] ls[i]) && !refs[i])
            ==> boundary(ls, refs, seps, end).0 is None,
    decreases seps.len(),
{
    let n = seps.len() - 1;
    if k < n {
        assert(all_blank(ls, seps[n] + 1, part_end(seps, end, n)));
        let d = seps.drop_last();
        let e = seps.last();
        assert forall|j: int| 0 <= j < d.len() implies part_end(d, e, j) == part_end(
            seps,
            end,
            j,
        ) by {}
        assert forall|j: int| k < j < d.len() implies all_blank(
            ls,
            #[trigger] d[j] + 1,
            part_end(d, e, j),
        ) by {
            assert(d[j] == seps[j]);
            assert(all_blank(ls, seps[j] + 1, part_end(seps, end, j)));
        }
        law_reference_found(ls, refs, d, e, k);
    } else {
        let i = choose|i: int|
            seps[k] < i < part_end(seps, end, k) && !text::is_blank(#[trigger] ls[i]);
        assert(!all_blank(ls, seps[k] + 1, end));
    }
}

/// Where only blank lines follow each separator there is no reference section.
pub proof fn law_no_reference_found(ls: Seq<Seq<char>>, refs: Seq<bool>, seps: Seq<int>, end: int)
    requires
        forall|j: int|
            0 <= j < seps.len() ==> all_blank(ls, #[trigger] seps[j] + 1, part_end(seps, end, j)),
    ensures
        boundary(ls, refs, seps, end).0 is None,
    decreases seps.len(),
{
    if seps.len() > 0 {
        let d = seps.drop_last();
        let e = seps.last();
        let n = seps.len() - 1;
        assert(all_blank(ls, seps[n] + 1, part_end(seps, end, n)));
        assert forall|j: int| 0 <= j < d.len() implies all_blank(
            ls,
            #[trigger] d[j] + 1,
            part_end(d, e, j),
        ) by {
            assert(d[j] == seps[j]);
            assert(all_blank(ls, seps[j] + 1, part_end(seps, end, j)));
        }
        law_no_reference_found(ls, refs, d, e);
    }
}

/// The zones of a note are the lines between its first two rules, those up to the reference
/// section, and the reference section; each line is in one zone as it stands.
pub proof fn law_zones_are_lines(ls: Seq<Seq<char>>, refs: Seq<bool>)
    ensures
        ({
            let a = first_rule(ls, 0);
            let b = first_rule(ls, a + 1);
            let n = ls.len() as int;
            match zones_of(ls, refs) {
                Err(_) => a >= n || b >= n,
                Ok(z) => {
                    &&& a < b < n
                    &&& z.frontmatter == join(ls.subrange(a + 1, b), "\n"@)
                    &&& match boundary(ls, refs, separators(ls, b + 1, n), n) {
                        (Some(p), end) => z.body == join(ls.subrange(b + 1, p), "\n"@)
                            && z.reference == join(ls.subrange(p + 1, end), "\n"@),
                        (None, _) => z.body == join(ls.subrange(b + 1, n), "\n"@)
                            && z.reference.len() == 0,
                    }
                },
            }
        }),
{
    law_first_rule(ls, 0);
    let a = first_rule(ls, 0);
    if a < ls.len() {
        law_first_rule(ls, a + 1);
    }
}

// ---------------------------------------------------------------------------
// Columns
// ---------------------------------------------------------------------------
proof fn lemma_put_if<T>(f: Seq<(Seq<char>, T)>, k: Seq<char>, v: Option<T>)
    requires
        text::ascending(keys(f)),
    ensures
        text::ascending(keys(put_if(f, k, v))),
        forall|x: Seq<char>| #[trigger]
            lookup(put_if(f, k, v), x) == (if x == k && v is Some {
                v
            } else {
                lookup(f, x)
            }),
{
    if let Some(w) = v {
        textmap::law_put_sorted(f, k, w);
        textmap::lemma_lookup_put(f, k, w);
    }
}

/// A column is stored with a field for each thing that is said of it, and with no field for
/// what is not.
#[verifier::rlimit(40)]
#[verifier::spinoff_prover]
pub proof fn law_stored_column(c: ColumnView)
    ensures
        ({
            let f = column_fields(c);
            &&& lookup(f, "name"@) == Some(ValueView::Text(c.name))
            &&& lookup(f, "data_type"@) == Some(ValueView::Text(c.data_type))
            &&& lookup(f, "zone"@) == match c.zone {
                Some(z) => Some(ValueView::Text(zone_text(z))),
                None => None,
            }
            &&& lookup(f, "required"@) == if c.required {
                Some(ValueView::Bool(true))
            } else {
                None
            }
            &&& lookup(f, "references"@) == match c.references {
                Some(s) => Some(ValueView::Text(s)),
                None => None,
            }
            &&& lookup(f, "allowed_values"@) == match c.allowed_values {
                Some(l) => Some(ValueView::List(text_values(l))),
                None => None,
            }
            &&& lookup(f, "default_value"@) == match c.default_value {
                Some(s) => Some(ValueView::Text(s)),
                None => None,
            }
        }),
{
    lemma_column_keys();
    let e = Seq::<(Seq<char>, ValueView)>::empty();
    assert(keys(e) =~= Seq::empty());
    let n = ValueView::Text(c.name);
    let d = ValueView::Text(c.data_type);
    textmap::law_put_sorted(e, "name"@, n);
    textmap::lemma_lookup_put(e, "name"@, n);
    let f0 = put(e, "name"@, n);
    textmap::law_put_sorted(f0, "data_type"@, d);
    textmap::lemma_lookup_put(f0, "data_type"@, d);
    let f1 = put(f0, "data_type"@, d);
    let zone = match c.zone {
        Some(z) => Some(ValueView::Text(zone_text(z))),
        None => None,
    };
    lemma_put_if(f1, "zone"@, zone);
    let f2 = put_if(f1, "zone"@, zone);
    let required = if c.required {
        Some(ValueView::Bool(true))
    } else {
        None
    };
    lemma_put_if(f2, "required"@, required);
    let f3 = put_if(f2, "required"@, required);
    let boost = match c.search_boost {
        Some(b) => Some(ValueView::Number(b)),
        None => None,
    };
    lemma_put_if(f3, "search_boost"@, boost);
    let f4 = put_if(f3, "search_boost"@, boost);
    lemma_put_if(f4, "references"@, opt_value(c.references));
    let f5 = put_if(f4, "references"@, opt_value(c.references));
    let allowed = match c.allowed_values {
        Some(l) => Some(ValueView::List(text_values(l))),
        None => None,
    };
    lemma_put_if(f5, "allowed_values"@, allowed);
    let f6 = put_if(f5, "allowed_values"@, allowed);
    lemma_put_if(f6, "default_value"@, opt_value(c.default_value));
    assert(column_fields(c) == put_if(f6, "default_value"@, opt_value(c.default_value)));
    assert forall|x: Seq<char>| lookup(e, x) is None by {
        textmap::lemma_lookup_none(e, x);
    }
}

proof fn lemma_column_keys()
    ensures
        "name"@.len() == 4 && "data_type"@.len() == 9 && "zone"@.len() == 4 && "required"@.len() == 8
            && "search_boost"@.len() == 12 && "references"@.len() == 10 && "allowed_values"@.len()
            == 14 && "default_value"@.len() == 13,
        "name"@ != "zone"@,
{
    reveal_strlit("name");
    reveal_strlit("data_type");
    reveal_strlit("zone");
    reveal_strlit("required");
    reveal_strlit("search_boost");
    reveal_strlit("references");
    reveal_strlit("allowed_values");
    reveal_strlit("default_value");
    assert("name"@[0] != "zone"@[0]);
}

} // verus!
