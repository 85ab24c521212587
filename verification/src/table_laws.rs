//! What the index holds of notes, and how its tables are written to.
use crate::index_plan::{
    aliases_of, attachment_row, attachment_rows, cell_values, column_sqls, extra_fields, has_type,
    inferred_types, insert_names, known_updates, name_sql, note_values, or_blank, placeholder,
    placeholders, quoted_values, rows_of, scalar_of, select_ids, set_clauses, steps_of,
    storage_type, typed_schemas, unused_schemas, update_statement, AttachmentRowView, StepView,
};
use crate::indexer::{cell, merged_schema};
use crate::nosql::readable;
use crate::parser::parsed_zettel;
use crate::picks::{lemma_pick_more, lemma_pick_none, picked};
use crate::rows::{find_column, Cells};
use crate::schema::{only_texts, Fields};
use crate::statement_laws::law_column_found;
use crate::string_laws::lemma_join_front;
use crate::text::{self, has_prefix, has_suffix, join, replaced, split};
use crate::textmap::lookup;
use crate::types::{ColumnView, DiffKind, FieldView, SchemaView, ValueView, ZettelView, Zone};
use vstd::prelude::*;

verus! {

// ---------------------------------------------------------------------------
// Rows of a note
// ---------------------------------------------------------------------------
/// The fields of the front matter that are indexed: those with a single value, in their
/// order, each as it is shown.
pub proof fn law_indexed_fields(e: Fields)
    ensures
        picked(
            extra_fields(e),
            Seq::new(
                e.len(),
                |i: int|
                    FieldView {
                        key: e[i].0,
                        value: or_blank(scalar_of(e[i].1)),
                        zone: Zone::Frontmatter,
                    },
            ),
            |i: int| !(e[i].1 is List) && !(e[i].1 is Mapping),
        ),
    decreases e.len(),
{
    let whole = Seq::new(
        e.len(),
        |i: int|
            FieldView {
                key: e[i].0,
                value: or_blank(scalar_of(e[i].1)),
                zone: Zone::Frontmatter,
            },
    );
    let keep = |i: int| !(e[i].1 is List) && !(e[i].1 is Mapping);
    if e.len() == 0 {
        assert(whole =~= Seq::<FieldView>::empty());
        lemma_pick_none::<FieldView>(keep);
    } else {
        let d = e.drop_last();
        law_indexed_fields(d);
        assert(whole.drop_last() =~= Seq::new(
            d.len(),
            |i: int|
                FieldView {
                    key: d[i].0,
                    value: or_blank(scalar_of(d[i].1)),
                    zone: Zone::Frontmatter,
                },
        ));
        lemma_pick_more(
            extra_fields(d),
            whole,
            |i: int| !(d[i].1 is List) && !(d[i].1 is Mapping),
            keep,
        );
    }
}

/// The text of a value.
pub open spec fn text_in(v: ValueView) -> Seq<char> {
    match v {
        ValueView::Text(s) => s,
        _ => Seq::empty(),
    }
}

/// The texts of a list are all of them, in their order, without the other values.
pub proof fn law_only_texts(l: Seq<ValueView>)
    ensures
        picked(only_texts(l), Seq::new(l.len(), |i: int| text_in(l[i])), |i: int| l[i] is Text),
    decreases l.len(),
{
    let whole = Seq::new(l.len(), |i: int| text_in(l[i]));
    let keep = |i: int| l[i] is Text;
    if l.len() == 0 {
        assert(whole =~= Seq::<Seq<char>>::empty());
        lemma_pick_none::<Seq<char>>(keep);
    } else {
        let d = l.drop_last();
        law_only_texts(d);
        assert(whole.drop_last() =~= Seq::new(d.len(), |i: int| text_in(d[i])));
        lemma_pick_more(only_texts(d), whole, |i: int| d[i] is Text, keep);
    }
}

/// A note is indexed under each text of its list of aliases; it has no alias otherwise.
pub proof fn law_aliases(e: Fields)
    ensures
        lookup(e, "aliases"@) matches Some(ValueView::List(l)) ==> picked(
            aliases_of(e),
            Seq::new(l.len(), |i: int| text_in(l[i])),
            |i: int| l[i] is Text,
        ),
        !(lookup(e, "aliases"@) matches Some(ValueView::List(_))) ==> aliases_of(e).len() == 0,
{
    if let Some(ValueView::List(l)) = lookup(e, "aliases"@) {
        law_only_texts(l);
    }
}

/// The fields of a value.
pub open spec fn fields_in(v: ValueView) -> Fields {
    match v {
        ValueView::Mapping(m) => m,
        _ => Seq::empty(),
    }
}

/// Each attachment that is listed has a row, in the order of the list.
pub proof fn law_attachment_rows(id: Seq<char>, l: Seq<ValueView>)
    ensures
        picked(
            attachment_rows(id, l),
            Seq::new(l.len(), |i: int| attachment_row(id, fields_in(l[i]))),
            |i: int| l[i] is Mapping,
        ),
    decreases l.len(),
{
    let whole = Seq::new(l.len(), |i: int| attachment_row(id, fields_in(l[i])));
    let keep = |i: int| l[i] is Mapping;
    if l.len() == 0 {
        assert(whole =~= Seq::<AttachmentRowView>::empty());
        lemma_pick_none::<AttachmentRowView>(keep);
    } else {
        let d = l.drop_last();
        law_attachment_rows(id, d);
        assert(whole.drop_last() =~= Seq::new(
            d.len(),
            |i: int| attachment_row(id, fields_in(d[i])),
        ));
        lemma_pick_more(attachment_rows(id, d), whole, |i: int| d[i] is Mapping, keep);
    }
}

/// What is indexed of a note is what it holds: its inline fields before those of its front
/// matter, all its links and all its tags.
pub proof fn law_indexed_note(z: ZettelView)
    ensures
        ({
            let r = rows_of(z);
            &&& z.meta.id matches Some(id) ==> r.id == id
            &&& z.meta.title matches Some(t) ==> r.title == t
            &&& z.meta.date matches Some(d) ==> r.date == d
            &&& z.meta.zettel_type matches Some(t) ==> r.zettel_type == t
            &&& z.meta.title is None ==> r.title.len() == 0
            &&& z.meta.zettel_type is None ==> r.zettel_type.len() == 0
            &&& r.path == z.path && r.body == z.body && r.links == z.links && r.tags == z.meta.tags
            &&& r.fields.len() >= z.fields.len()
            &&& r.fields.take(z.fields.len() as int) == z.fields
            &&& r.fields.skip(z.fields.len() as int) == extra_fields(z.meta.extra)
            &&& r.tags_text == join(z.meta.tags, ", "@)
        }),
{
    let r = rows_of(z);
    assert(r.fields.take(z.fields.len() as int) =~= z.fields);
    assert(r.fields.skip(z.fields.len() as int) =~= extra_fields(z.meta.extra));
}

// ---------------------------------------------------------------------------
// Statements
// ---------------------------------------------------------------------------
/// A name in a statement stands in double quotes.
pub proof fn law_quoted_name(n: Seq<char>)
    ensures
        name_sql(n).len() == n.len() + 2,
        name_sql(n)[0] == '"',
        name_sql(n).last() == '"',
        name_sql(n).subrange(1, n.len() as int + 1) == n,
{
    reveal_strlit("\"");
    assert(name_sql(n).subrange(1, n.len() as int + 1) =~= n);
}

/// Replacing a character puts the other text in each of its places and keeps the parts
/// between them.
pub proof fn law_character_replaced(s: Seq<char>, c: char, to: Seq<char>)
    ensures
        replaced(s, seq![c], to) == join(split(s, c), to),
    decreases s.len(),
{
    let f = seq![c];
    let k = text::until(s, c);
    text::lemma_until(s, c);
    if s.len() == 0 {
        assert(split(s, c) =~= seq![s]);
    } else if s[0] == c {
        text::lemma_until_is(s, c, 0);
        assert(s.take(1) =~= f);
        let r = s.skip(1);
        law_character_replaced(r, c, to);
        text::lemma_split_nonempty(r, c);
        assert(s.take(0) =~= Seq::<char>::empty());
        lemma_join_front(s.take(0), split(r, c), to);
        assert(s.take(0) + to =~= to);
    } else {
        assert(s.take(1)[0] == s[0]);
        assert(!has_prefix(s, f));
        let d = s.drop_first();
        law_character_replaced(d, c, to);
        let kd = text::until(d, c);
        text::lemma_until(d, c);
        assert(k == kd + 1);
        let p = split(d, c);
        if kd >= d.len() {
            assert(p =~= seq![d]);
            assert(split(s, c) =~= seq![s]);
            assert(seq![s[0]] + d =~= s);
        } else {
            let r = d.skip(kd + 1);
            assert(s.skip(k + 1) =~= r);
            text::lemma_split_nonempty(r, c);
            lemma_join_front(d.take(kd), split(r, c), to);
            lemma_join_front(s.take(k), split(r, c), to);
            assert(s.take(k) =~= seq![s[0]] + d.take(kd));
            assert(replaced(s, f, to) =~= join(split(s, c), to));
        }
    }
}

/// A value in a statement stands in single quotes, and each quote in it is written twice.
pub proof fn law_quoted_value(l: Seq<Seq<char>>, i: int)
    requires
        0 <= i < l.len(),
    ensures
        quoted_values(l).len() == l.len(),
        quoted_values(l)[i] == seq!['\''] + join(split(l[i], '\''), seq!['\'', '\'']) + seq!['\''],
{
    reveal_strlit("'");
    reveal_strlit("''");
    assert("'"@ =~= seq!['\'']);
    assert("''"@ =~= seq!['\'', '\'']);
    law_character_replaced(l[i], '\'', "''"@);
}

/// A row is inserted with its identifier first, then a value for each column in the order of
/// the columns; there are as many names and places as values.
pub proof fn law_inserted_values(id: Seq<char>, z: ZettelView, cells: Cells, cs: Seq<ColumnView>)
    ensures
        insert_names(cs).len() == cs.len() + 1,
        placeholders(cs.len() + 1).len() == cs.len() + 1,
        note_values(id, z, cs).len() == cs.len() + 1,
        cell_values(id, cells, cs).len() == cs.len() + 1,
        insert_names(cs)[0] == "id"@,
        note_values(id, z, cs)[0] == Some(id),
        cell_values(id, cells, cs)[0] == Some(id),
        forall|i: int|
            0 <= i < cs.len() ==> {
                &&& insert_names(cs)[i + 1] == name_sql((#[trigger] cs[i]).name)
                &&& cell(z, cs[i]).len() > 0 ==> note_values(id, z, cs)[i + 1] == Some(
                    cell(z, cs[i]),
                )
                &&& cell(z, cs[i]).len() == 0 ==> note_values(id, z, cs)[i + 1] is None
                &&& lookup(cells, cs[i].name) matches Some(v) ==> v.len() > 0 ==> cell_values(
                    id,
                    cells,
                    cs,
                )[i + 1] == Some(v)
                &&& lookup(cells, cs[i].name) is None ==> cell_values(id, cells, cs)[i + 1] is None
            },
        forall|i: int|
            0 <= i < cs.len() + 1 ==> #[trigger] placeholders(cs.len() + 1)[i] == "?"@
                + text::decimal((i + 1) as nat),
{
}

/// The updates that are written to the index: those of columns of the table, in their order.
pub proof fn law_known_updates(cs: Seq<ColumnView>, u: Cells)
    ensures
        picked(
            known_updates(cs, u),
            u,
            |i: int| exists|j: int| 0 <= j < cs.len() && (#[trigger] cs[j]).name == u[i].0,
        ),
    decreases u.len(),
{
    let keep = |i: int| exists|j: int| 0 <= j < cs.len() && (#[trigger] cs[j]).name == u[i].0;
    if u.len() == 0 {
        assert(u =~= Seq::<(Seq<char>, Seq<char>)>::empty());
        lemma_pick_none::<(Seq<char>, Seq<char>)>(keep);
    } else {
        let d = u.drop_last();
        law_known_updates(cs, d);
        law_column_found(cs, u.last().0);
        if let Some(j) = find_column(cs, u.last().0) {
            assert(cs[j].name == u.last().0);
        }
        lemma_pick_more(
            known_updates(cs, d),
            u,
            |i: int| exists|j: int| 0 <= j < cs.len() && (#[trigger] cs[j]).name == d[i].0,
            keep,
        );
    }
}

/// An update of the index sets each known column to its value, in the order of the places,
/// in the row of the identifier alone. Nothing is written where no column is known.
pub proof fn law_update_statement(s: SchemaView, id: Seq<char>, updates: Cells)
    ensures
        ({
            let u = known_updates(s.columns, updates);
            match update_statement(s, id, updates) {
                None => u.len() == 0,
                Some((sql, values)) => {
                    &&& u.len() > 0
                    &&& values.len() == u.len() + 1
                    &&& values.last() == id
                    &&& forall|i: int| 0 <= i < u.len() ==> values[i] == (#[trigger] u[i]).1
                    &&& has_prefix(sql, "UPDATE "@ + name_sql(s.table_name) + " SET "@)
                    &&& has_suffix(sql, " WHERE id = "@ + placeholder(values.len()))
                    &&& set_clauses(u).len() == u.len()
                    &&& forall|i: int|
                        0 <= i < u.len() ==> set_clauses(u)[i] == name_sql((#[trigger] u[i]).0)
                            + " = "@ + placeholder((i + 1) as nat)
                    &&& sql.len() == ("UPDATE "@ + name_sql(s.table_name) + " SET "@).len() + join(
                        set_clauses(u),
                        ", "@,
                    ).len() + (" WHERE id = "@ + placeholder(values.len())).len()
                },
            }
        }),
{
    let u = known_updates(s.columns, updates);
    if let Some((sql, values)) = update_statement(s, id, updates) {
        let a = "UPDATE "@ + name_sql(s.table_name) + " SET "@;
        let b = " WHERE id = "@ + placeholder(values.len());
        let j = join(set_clauses(u), ", "@);
        assert(values.len() == u.len() + 1);
        assert(sql =~= a + j + b);
        assert(sql.take(a.len() as int) =~= a);
        assert(sql.skip(sql.len() - b.len()) =~= b);
    }
}

/// The columns of a table are stored as whole numbers, real numbers or texts; a truth value is
/// stored as a whole number. The identifier is the key.
pub proof fn law_stored_columns(cs: Seq<ColumnView>, i: int)
    requires
        0 <= i < cs.len(),
    ensures
        column_sqls(cs).len() == cs.len() + 1,
        column_sqls(cs)[0] == "id TEXT PRIMARY KEY"@,
        has_prefix(
            column_sqls(cs)[i + 1],
            name_sql(cs[i].name) + " "@ + (if text::uppered(cs[i].data_type) == "INTEGER"@
                || text::uppered(cs[i].data_type) == "BOOLEAN"@ {
                "INTEGER"@
            } else if text::uppered(cs[i].data_type) == "REAL"@ {
                "REAL"@
            } else {
                "TEXT"@
            }),
        ),
        cs[i].allowed_values is None ==> column_sqls(cs)[i + 1] == name_sql(cs[i].name) + " "@
            + storage_type(cs[i].data_type),
{
    let c = column_sqls(cs)[i + 1];
    let t = text::uppered(cs[i].data_type);
    let x = if t == "INTEGER"@ || t == "BOOLEAN"@ {
        "INTEGER"@
    } else if t == "REAL"@ {
        "REAL"@
    } else {
        "TEXT"@
    };
    reveal_strlit("REAL");
    reveal_strlit("BOOLEAN");
    assert("REAL"@.len() != "BOOLEAN"@.len());
    assert(x == storage_type(cs[i].data_type));
    let h = name_sql(cs[i].name) + " "@ + storage_type(cs[i].data_type);
    assert(c.take(h.len() as int) =~= h);
    if cs[i].allowed_values is None {
        assert(c =~= h);
    }
}

/// The rows of a condition are asked for in its table; without one, all rows are.
pub proof fn law_selected_ids(table: Seq<char>, condition: Option<Seq<char>>)
    ensures
        has_prefix(select_ids(table, condition), "SELECT id FROM "@ + name_sql(table)),
        condition matches Some(c) ==> has_suffix(select_ids(table, condition), " WHERE "@ + c),
        condition is None ==> select_ids(table, condition) == "SELECT id FROM "@ + name_sql(table),
{
    let s = "SELECT id FROM "@ + name_sql(table);
    let r = select_ids(table, condition);
    assert(r.take(s.len() as int) =~= s);
    if let Some(c) = condition {
        let w = " WHERE "@ + c;
        assert(r.skip(r.len() - w.len()) =~= w);
    }
}

// ---------------------------------------------------------------------------
// Tables
// ---------------------------------------------------------------------------
/// A table is filled for each type that a note has, with the schema that is given and
/// inferred for it, in the order of the types; a type without columns has none.
pub proof fn law_filled_tables(inferred: Seq<SchemaView>, given: Seq<(Seq<char>, SchemaView)>)
    ensures
        picked(
            typed_schemas(inferred, given),
            Seq::new(
                inferred.len(),
                |i: int| merged_schema(lookup(given, inferred[i].table_name), inferred[i]),
            ),
            |i: int|
                merged_schema(lookup(given, inferred[i].table_name), inferred[i]).columns.len() > 0,
        ),
    decreases inferred.len(),
{
    let whole = Seq::new(
        inferred.len(),
        |i: int| merged_schema(lookup(given, inferred[i].table_name), inferred[i]),
    );
    let keep = |i: int|
        merged_schema(lookup(given, inferred[i].table_name), inferred[i]).columns.len() > 0;
    if inferred.len() == 0 {
        assert(whole =~= Seq::<SchemaView>::empty());
        lemma_pick_none::<SchemaView>(keep);
    } else {
        let d = inferred.drop_last();
        law_filled_tables(d, given);
        assert(whole.drop_last() =~= Seq::new(
            d.len(),
            |i: int| merged_schema(lookup(given, d[i].table_name), d[i]),
        ));
        lemma_pick_more(
            typed_schemas(d, given),
            whole,
            |i: int| merged_schema(lookup(given, d[i].table_name), d[i]).columns.len() > 0,
            keep,
        );
    }
}

/// The types whose schema is inferred are those for which none is given and whose notes have
/// columns.
pub proof fn law_inferred_types(inferred: Seq<SchemaView>, given: Seq<(Seq<char>, SchemaView)>)
    ensures
        picked(
            inferred_types(inferred, given),
            Seq::new(inferred.len(), |i: int| inferred[i].table_name),
            |i: int|
                lookup(given, inferred[i].table_name) is None && inferred[i].columns.len() > 0,
        ),
    decreases inferred.len(),
{
    let whole = Seq::new(inferred.len(), |i: int| inferred[i].table_name);
    let keep = |i: int|
        lookup(given, inferred[i].table_name) is None && inferred[i].columns.len() > 0;
    if inferred.len() == 0 {
        assert(whole =~= Seq::<Seq<char>>::empty());
        lemma_pick_none::<Seq<char>>(keep);
    } else {
        let d = inferred.drop_last();
        law_inferred_types(d, given);
        assert(whole.drop_last() =~= Seq::new(d.len(), |i: int| d[i].table_name));
        lemma_pick_more(
            inferred_types(d, given),
            whole,
            |i: int| lookup(given, d[i].table_name) is None && d[i].columns.len() > 0,
            keep,
        );
    }
}

/// An empty table is made for each schema that is given, has columns and that no note has for
/// its type.
pub proof fn law_empty_tables(inferred: Seq<SchemaView>, given: Seq<(Seq<char>, SchemaView)>)
    ensures
        picked(
            unused_schemas(inferred, given),
            Seq::new(given.len(), |i: int| given[i].1),
            |i: int|
                given[i].1.columns.len() > 0 && forall|j: int|
                    0 <= j < inferred.len() ==> (#[trigger] inferred[j]).table_name != given[i].0,
        ),
    decreases given.len(),
{
    let whole = Seq::new(given.len(), |i: int| given[i].1);
    let keep = |i: int|
        given[i].1.columns.len() > 0 && forall|j: int|
            0 <= j < inferred.len() ==> (#[trigger] inferred[j]).table_name != given[i].0;
    if given.len() == 0 {
        assert(whole =~= Seq::<SchemaView>::empty());
        lemma_pick_none::<SchemaView>(keep);
    } else {
        let d = given.drop_last();
        law_empty_tables(inferred, d);
        assert(whole.drop_last() =~= Seq::new(d.len(), |i: int| d[i].1));
        assert(has_type(inferred, given.last().0) == exists|j: int|
            0 <= j < inferred.len() && (#[trigger] inferred[j]).table_name == given.last().0);
        lemma_pick_more(
            unused_schemas(inferred, d),
            whole,
            |i: int|
                d[i].1.columns.len() > 0 && forall|j: int|
                    0 <= j < inferred.len() ==> (#[trigger] inferred[j]).table_name != d[i].0,
            keep,
        );
    }
}

/// The notes that a rebuild takes in: each file that has a text and can be read, in the order
/// of the files.
pub proof fn law_rebuilt_notes(files: Seq<(Seq<char>, Option<Seq<char>>)>)
    ensures
        picked(
            readable(files),
            Seq::new(
                files.len(),
                |i: int| parsed_zettel(files[i].1.unwrap_or(Seq::empty()), files[i].0)->Ok_0,
            ),
            |i: int|
                files[i].1 is Some && parsed_zettel(
                    files[i].1.unwrap_or(Seq::empty()),
                    files[i].0,
                ) is Ok,
        ),
    decreases files.len(),
{
    let whole = Seq::new(
        files.len(),
        |i: int| parsed_zettel(files[i].1.unwrap_or(Seq::empty()), files[i].0)->Ok_0,
    );
    let keep = |i: int|
        files[i].1 is Some && parsed_zettel(files[i].1.unwrap_or(Seq::empty()), files[i].0) is Ok;
    if files.len() == 0 {
        assert(whole =~= Seq::<ZettelView>::empty());
        lemma_pick_none::<ZettelView>(keep);
    } else {
        let d = files.drop_last();
        law_rebuilt_notes(d);
        assert(whole.drop_last() =~= Seq::new(
            d.len(),
            |i: int| parsed_zettel(d[i].1.unwrap_or(Seq::empty()), d[i].0)->Ok_0,
        ));
        lemma_pick_more(
            readable(d),
            whole,
            |i: int|
                d[i].1 is Some && parsed_zettel(d[i].1.unwrap_or(Seq::empty()), d[i].0) is Ok,
            keep,
        );
    }
}

/// A file that is gone is removed under its name without the ending; any other file that
/// changed is indexed.
pub proof fn law_reindex_steps(s: Seq<(DiffKind, Seq<char>)>, i: int, dir: Seq<char>, name: Seq<char>)
    requires
        0 <= i < s.len(),
        s[i].1 == dir + "/"@ + name + ".md"@,
        name.len() > 0 && !name.contains('/'),
    ensures
        steps_of(s).len() == s.len(),
        s[i].0 == DiffKind::Deleted ==> steps_of(s)[i] == StepView::Remove(name),
        s[i].0 != DiffKind::Deleted ==> steps_of(s)[i] == StepView::Index(s[i].1),
{
    crate::move_laws::law_link_id(dir, name);
    let p = s[i].1;
    assert(p.len() > 0);
}

} // verus!
