//! What the statements of the index do to its rows: a note has its own rows and
//! no others, and those of other notes stay.
use crate::index_plan::RowsView;
use crate::index_sql::{
    alias_statements, attachment_statements, cleared, field_statements, link_statements,
    note_statements, removal_statements, tag_statements, text_values, with_texts, BoundView,
    StatementView, DROP_ALIASES, DROP_ATTACHMENTS, DROP_FIELDS, DROP_LINKS, DROP_NOTE, DROP_SEARCH,
    DROP_TAGS, PUT_ALIAS, PUT_ATTACHMENT, PUT_FIELD, PUT_LINK, PUT_NOTE, PUT_SEARCH, PUT_TAG,
};
use vstd::prelude::*;

verus! {

broadcast use vstd::string::group_string_axioms;

/// The tables of the index.
#[derive(Debug, Clone, Copy, PartialEq, Eq, Structural)]
pub enum Table {
    Notes,
    Search,
    Tags,
    Fields,
    Links,
    Aliases,
    Attachments,
}

/// What a statement does.
pub enum Deed {
    /// Removes the rows of a note.
    Drop(Table),
    /// Adds a row of a note.
    Put(Table),
    /// Puts the row of a note in place of the one that it had, and of that of
    /// another note at the same path.
    Replace,
    /// Removes what the search finds of a note that has a row.
    DropSearch,
    Other,
}

pub type Row = Seq<BoundView>;

/// The rows of an index: for each table and note, in the order in which they
/// came.
pub type Tables = spec_fn(Table, Seq<char>) -> Seq<Row>;

pub open spec fn deed_of(sql: Seq<char>) -> Deed {
    if sql == DROP_SEARCH@ {
        Deed::DropSearch
    } else if sql == PUT_NOTE@ {
        Deed::Replace
    } else if sql == DROP_NOTE@ {
        Deed::Drop(Table::Notes)
    } else if sql == DROP_TAGS@ {
        Deed::Drop(Table::Tags)
    } else if sql == DROP_FIELDS@ {
        Deed::Drop(Table::Fields)
    } else if sql == DROP_LINKS@ {
        Deed::Drop(Table::Links)
    } else if sql == DROP_ALIASES@ {
        Deed::Drop(Table::Aliases)
    } else if sql == DROP_ATTACHMENTS@ {
        Deed::Drop(Table::Attachments)
    } else if sql == PUT_TAG@ {
        Deed::Put(Table::Tags)
    } else if sql == PUT_FIELD@ {
        Deed::Put(Table::Fields)
    } else if sql == PUT_LINK@ {
        Deed::Put(Table::Links)
    } else if sql == PUT_ALIAS@ {
        Deed::Put(Table::Aliases)
    } else if sql == PUT_ATTACHMENT@ {
        Deed::Put(Table::Attachments)
    } else if sql == PUT_SEARCH@ {
        Deed::Put(Table::Search)
    } else {
        Deed::Other
    }
}

/// The note that a statement is about: the first of its values.
pub open spec fn subject(s: StatementView) -> Seq<char> {
    match s.values[0] {
        BoundView::Text(id) => id,
        _ => Seq::empty(),
    }
}

/// Whether a note has its row at a path.
pub open spec fn is_at_path(x: Tables, id: Seq<char>, path: BoundView) -> bool {
    exists|i: int|
        0 <= i < x(Table::Notes, id).len() && (#[trigger] x(Table::Notes, id)[i])[4] == path
}

/// The rows after a statement that does not fail.
pub open spec fn after(x: Tables, s: StatementView) -> Tables {
    let id = subject(s);
    match deed_of(s.sql) {
        Deed::Drop(t) => |u: Table, i: Seq<char>|
            if u == t && i == id {
                Seq::empty()
            } else {
                x(u, i)
            },
        Deed::Put(t) => |u: Table, i: Seq<char>|
            if u == t && i == id {
                x(u, i).push(s.values)
            } else {
                x(u, i)
            },
        Deed::Replace => |u: Table, i: Seq<char>|
            if u == Table::Notes && i == id {
                seq![s.values]
            } else if u == Table::Notes && is_at_path(x, i, s.values[4]) {
                Seq::empty()
            } else {
                x(u, i)
            },
        Deed::DropSearch => |u: Table, i: Seq<char>|
            if u == Table::Search && i == id && x(Table::Notes, id).len() > 0 {
                Seq::empty()
            } else {
                x(u, i)
            },
        Deed::Other => x,
    }
}

/// The rows after statements.
pub open spec fn run(x: Tables, ss: Seq<StatementView>) -> Tables
    decreases ss.len(),
{
    if ss.len() == 0 {
        x
    } else {
        after(run(x, ss.drop_last()), ss.last())
    }
}

pub open spec fn rows_put(ss: Seq<StatementView>) -> Seq<Row> {
    Seq::new(ss.len(), |i: int| ss[i].values)
}

/// The rows that a note has in a table.
pub open spec fn rows_in(r: RowsView, now: Seq<char>, t: Table) -> Seq<Row> {
    match t {
        Table::Notes => seq![
            text_values(seq![r.id, r.title, r.date, r.zettel_type, r.path, r.body, now]),
        ],
        Table::Search => seq![text_values(seq![r.id, r.title, r.body, r.tags_text])],
        Table::Tags => rows_put(tag_statements(r.id, r.tags)),
        Table::Fields => rows_put(field_statements(r.id, r.fields)),
        Table::Links => rows_put(link_statements(r.id, r.links)),
        Table::Aliases => rows_put(alias_statements(r.id, r.aliases)),
        Table::Attachments => rows_put(attachment_statements(r.id, r.attachments)),
    }
}

proof fn lemma_deeds()
    ensures
        deed_of(DROP_SEARCH@) == Deed::DropSearch,
        deed_of(PUT_NOTE@) == Deed::Replace,
        deed_of(DROP_NOTE@) == Deed::Drop(Table::Notes),
        deed_of(DROP_TAGS@) == Deed::Drop(Table::Tags),
        deed_of(DROP_FIELDS@) == Deed::Drop(Table::Fields),
        deed_of(DROP_LINKS@) == Deed::Drop(Table::Links),
        deed_of(DROP_ALIASES@) == Deed::Drop(Table::Aliases),
        deed_of(DROP_ATTACHMENTS@) == Deed::Drop(Table::Attachments),
        deed_of(PUT_TAG@) == Deed::Put(Table::Tags),
        deed_of(PUT_FIELD@) == Deed::Put(Table::Fields),
        deed_of(PUT_LINK@) == Deed::Put(Table::Links),
        deed_of(PUT_ALIAS@) == Deed::Put(Table::Aliases),
        deed_of(PUT_ATTACHMENT@) == Deed::Put(Table::Attachments),
        deed_of(PUT_SEARCH@) == Deed::Put(Table::Search),
{
    reveal_strlit(
        "DELETE FROM _zdb_fts WHERE rowid = (SELECT rowid FROM zettels WHERE id = ?1)",
    );
    reveal_strlit(
        "INSERT OR REPLACE INTO zettels (id, title, date, type, path, body, updated_at) VALUES (?1, ?2, ?3, ?4, ?5, ?6, ?7)",
    );
    reveal_strlit("DELETE FROM zettels WHERE id = ?1");
    reveal_strlit("DELETE FROM _zdb_tags WHERE zettel_id = ?1");
    reveal_strlit("DELETE FROM _zdb_fields WHERE zettel_id = ?1");
    reveal_strlit("DELETE FROM _zdb_links WHERE source_id = ?1");
    reveal_strlit("DELETE FROM _zdb_aliases WHERE zettel_id = ?1");
    reveal_strlit("DELETE FROM _zdb_attachments WHERE zettel_id = ?1");
    reveal_strlit("INSERT INTO _zdb_tags (zettel_id, tag) VALUES (?1, ?2)");
    reveal_strlit(
        "INSERT INTO _zdb_fields (zettel_id, key, value, zone) VALUES (?1, ?2, ?3, ?4)",
    );
    reveal_strlit(
        "INSERT INTO _zdb_links (source_id, target_path, display, zone) VALUES (?1, ?2, ?3, ?4)",
    );
    reveal_strlit("INSERT INTO _zdb_aliases (zettel_id, alias) VALUES (?1, ?2)");
    reveal_strlit(
        "INSERT INTO _zdb_attachments (zettel_id, name, mime, size, path) VALUES (?1, ?2, ?3, ?4, ?5)",
    );
    reveal_strlit(
        "INSERT INTO _zdb_fts (rowid, title, body, tags) VALUES ((SELECT rowid FROM zettels WHERE id = ?1), ?2, ?3, ?4)",
    );
    assert(DROP_SEARCH@.len() == 76);
    assert(PUT_NOTE@.len() == 114);
    assert(DROP_NOTE@.len() == 33);
    assert(DROP_TAGS@.len() == 42);
    assert(DROP_FIELDS@.len() == 44);
    assert(DROP_LINKS@.len() == 43);
    assert(DROP_ALIASES@.len() == 45);
    assert(DROP_ATTACHMENTS@.len() == 49);
    assert(PUT_TAG@.len() == 54);
    assert(PUT_FIELD@.len() == 77);
    assert(PUT_LINK@.len() == 86);
    assert(PUT_ALIAS@.len() == 59);
    assert(PUT_ATTACHMENT@.len() == 92);
    assert(PUT_SEARCH@.len() == 110);
}

proof fn lemma_run_more(x: Tables, a: Seq<StatementView>, b: Seq<StatementView>)
    ensures
        run(x, a + b) == run(run(x, a), b),
    decreases b.len(),
{
    if b.len() == 0 {
        assert(a + b =~= a);
    } else {
        lemma_run_more(x, a, b.drop_last());
        assert((a + b).drop_last() =~= a + b.drop_last());
    }
}

proof fn lemma_run_push(x: Tables, a: Seq<StatementView>, s: StatementView)
    ensures
        run(x, a.push(s)) == after(run(x, a), s),
{
    assert(a.push(s).drop_last() =~= a);
}

/// Rows that are put into one table for one note.
proof fn lemma_run_puts(x: Tables, ss: Seq<StatementView>, t: Table, id: Seq<char>)
    requires
        forall|i: int|
            0 <= i < ss.len() ==> deed_of((#[trigger] ss[i]).sql) == Deed::Put(t) && subject(ss[i])
                == id,
    ensures
        run(x, ss)(t, id) == x(t, id) + rows_put(ss),
        forall|u: Table, i: Seq<char>|
            !(u == t && i == id) ==> #[trigger] run(x, ss)(u, i) == x(u, i),
    decreases ss.len(),
{
    if ss.len() == 0 {
        assert(x(t, id) + rows_put(ss) =~= x(t, id));
    } else {
        let d = ss.drop_last();
        assert forall|i: int| 0 <= i < d.len() implies deed_of((#[trigger] d[i]).sql) == Deed::Put(
            t,
        ) && subject(d[i]) == id by {
            assert(d[i] == ss[i]);
        }
        lemma_run_puts(x, d, t, id);
        assert(deed_of(ss[ss.len() - 1].sql) == Deed::Put(t));
        assert(rows_put(ss) =~= rows_put(d).push(ss.last().values));
        assert(x(t, id) + rows_put(ss) =~= (x(t, id) + rows_put(d)).push(ss.last().values));
    }
}

/// What goes with a note is removed.
proof fn lemma_run_cleared(x: Tables, id: Seq<char>)
    ensures
        forall|u: Table, i: Seq<char>| #[trigger]
            run(x, cleared(id))(u, i) == if i == id && (u == Table::Tags || u == Table::Fields || u
                == Table::Links || u == Table::Aliases) {
                Seq::<Row>::empty()
            } else {
                x(u, i)
            },
{
    lemma_deeds();
    let none = Seq::<StatementView>::empty();
    let a = with_texts(DROP_TAGS@, seq![id]);
    let b = with_texts(DROP_FIELDS@, seq![id]);
    let c = with_texts(DROP_LINKS@, seq![id]);
    let d = with_texts(DROP_ALIASES@, seq![id]);
    assert(cleared(id) =~= none.push(a).push(b).push(c).push(d));
    lemma_run_push(x, none, a);
    lemma_run_push(x, none.push(a), b);
    lemma_run_push(x, none.push(a).push(b), c);
    lemma_run_push(x, none.push(a).push(b).push(c), d);
    assert(subject(a) == id && subject(b) == id && subject(c) == id && subject(d) == id);
}

/// Whether the search finds a note only where that has a row.
pub open spec fn is_found_by_row(x: Tables, id: Seq<char>) -> bool {
    x(Table::Notes, id).len() == 0 ==> x(Table::Search, id).len() == 0
}

/// The rows of a table and a note after another note was indexed: those that were
/// there, but for the row of a note at the other one's path.
pub open spec fn left_of(x: Tables, r: RowsView, t: Table, i: Seq<char>) -> Seq<Row> {
    if t == Table::Notes && is_at_path(x, i, BoundView::Text(r.path)) {
        Seq::empty()
    } else {
        x(t, i)
    }
}

/// A note that is indexed has one row of its own, exactly the tags, fields,
/// links, aliases and attachments that it holds, and is found by the search once,
/// whatever the index held of it before. The rows of other notes stay, but for the
/// row of one at the same path, whose place the note takes.
#[verifier::spinoff_prover]
pub proof fn law_indexed_rows(x: Tables, r: RowsView, present: bool, now: Seq<char>)
    requires
        present == (x(Table::Notes, r.id).len() > 0),
        is_found_by_row(x, r.id),
    ensures
        ({
            let y = run(x, note_statements(r, present, now));
            forall|t: Table, i: Seq<char>| #[trigger]
                y(t, i) == if i == r.id {
                    rows_in(r, now, t)
                } else {
                    left_of(x, r, t, i)
                }
        }),
{
    lemma_deeds();
    let id = r.id;
    let none = Seq::<StatementView>::empty();
    let before = if present {
        seq![with_texts(DROP_SEARCH@, seq![id])]
    } else {
        none
    };
    let note = with_texts(
        PUT_NOTE@,
        seq![r.id, r.title, r.date, r.zettel_type, r.path, r.body, now],
    );
    let drop = with_texts(DROP_ATTACHMENTS@, seq![id]);
    let search = with_texts(PUT_SEARCH@, seq![r.id, r.title, r.body, r.tags_text]);
    let tags = tag_statements(id, r.tags);
    let fields = field_statements(id, r.fields);
    let links = link_statements(id, r.links);
    let aliases = alias_statements(id, r.aliases);
    let files = attachment_statements(id, r.attachments);
    let x0 = run(x, before);
    if present {
        let s = with_texts(DROP_SEARCH@, seq![id]);
        assert(before =~= none.push(s));
        lemma_run_push(x, none, s);
        assert(subject(s) == id);
    }
    assert forall|t: Table, i: Seq<char>| #[trigger] x0(t, i) == if t == Table::Search && i == id {
        Seq::<Row>::empty()
    } else {
        x(t, i)
    } by {
        if !present && t == Table::Search && i == id {
            assert(x(t, i) =~= Seq::<Row>::empty());
        }
    }
    let x1 = run(x, before.push(note));
    lemma_run_push(x, before, note);
    assert(subject(note) == id && note.values[4] == BoundView::Text(r.path));
    assert forall|t: Table, i: Seq<char>| #[trigger] x1(t, i) == if t == Table::Notes && i == id {
        rows_in(r, now, t)
    } else if i == id {
        x0(t, i)
    } else {
        left_of(x, r, t, i)
    } by {
        assert(x1 == after(x0, note));
        if t == Table::Notes && i != id {
            lemma_same_path(x0, x, i, BoundView::Text(r.path));
        }
    }
    let x2 = run(x1, cleared(id));
    lemma_run_cleared(x1, id);
    lemma_run_more(x, before.push(note), cleared(id));
    let x3 = run(x2, tags);
    lemma_run_puts(x2, tags, Table::Tags, id);
    lemma_run_more(x, before.push(note) + cleared(id), tags);
    let x4 = run(x3, fields);
    lemma_run_puts(x3, fields, Table::Fields, id);
    lemma_run_more(x, before.push(note) + cleared(id) + tags, fields);
    let x5 = run(x4, links);
    lemma_run_puts(x4, links, Table::Links, id);
    lemma_run_more(x, before.push(note) + cleared(id) + tags + fields, links);
    let p5 = before.push(note) + cleared(id) + tags + fields + links;
    let x6 = run(x5, aliases);
    lemma_run_puts(x5, aliases, Table::Aliases, id);
    let x7 = run(x5, aliases.push(drop));
    lemma_run_push(x5, aliases, drop);
    assert(subject(drop) == id);
    lemma_run_more(x, p5, aliases.push(drop));
    let x8 = run(x7, files);
    lemma_run_puts(x7, files, Table::Attachments, id);
    let x9 = run(x7, files.push(search));
    lemma_run_push(x7, files, search);
    assert(subject(search) == id);
    lemma_run_more(x, p5 + aliases.push(drop), files.push(search));
    let y = run(x, note_statements(r, present, now));
    assert(note_statements(r, present, now) == p5 + aliases.push(drop) + files.push(search));
    assert(y == x9);
    assert forall|t: Table, i: Seq<char>| #[trigger] y(t, i) == if i == r.id {
        rows_in(r, now, t)
    } else {
        left_of(x, r, t, i)
    } by {
        if i == id {
            match t {
                Table::Notes => {},
                Table::Search => {
                    assert(x8(t, i) == Seq::<Row>::empty());
                    assert(y(t, i) =~= rows_in(r, now, t));
                },
                _ => {
                    assert(y(t, i) =~= rows_in(r, now, t));
                },
            }
        }
    }
}

proof fn lemma_same_path(x: Tables, y: Tables, id: Seq<char>, path: BoundView)
    requires
        x(Table::Notes, id) == y(Table::Notes, id),
    ensures
        is_at_path(x, id, path) == is_at_path(y, id, path),
{
    if is_at_path(x, id, path) {
        let j = choose|j: int|
            0 <= j < x(Table::Notes, id).len() && (#[trigger] x(Table::Notes, id)[j])[4] == path;
        assert(y(Table::Notes, id)[j][4] == path);
    }
    if is_at_path(y, id, path) {
        let j = choose|j: int|
            0 <= j < y(Table::Notes, id).len() && (#[trigger] y(Table::Notes, id)[j])[4] == path;
        assert(x(Table::Notes, id)[j][4] == path);
    }
}

/// Indexing a note again at the same time changes no row.
pub proof fn law_indexing_again(x: Tables, r: RowsView, present: bool, now: Seq<char>)
    requires
        present == (x(Table::Notes, r.id).len() > 0),
        is_found_by_row(x, r.id),
    ensures
        ({
            let y = run(x, note_statements(r, present, now));
            let z = run(y, note_statements(r, true, now));
            forall|t: Table, i: Seq<char>| #[trigger] z(t, i) == y(t, i)
        }),
{
    let y = run(x, note_statements(r, present, now));
    let p = BoundView::Text(r.path);
    law_indexed_rows(x, r, present, now);
    assert(y(Table::Notes, r.id) == rows_in(r, now, Table::Notes));
    law_indexed_rows(y, r, true, now);
    let z = run(y, note_statements(r, true, now));
    assert forall|t: Table, i: Seq<char>| #[trigger] z(t, i) == y(t, i) by {
        assert(y(t, i) == if i == r.id {
            rows_in(r, now, t)
        } else {
            left_of(x, r, t, i)
        });
        if t == Table::Notes && i != r.id {
            assert(y(Table::Notes, i) == left_of(x, r, Table::Notes, i));
            if is_at_path(x, i, p) {
                assert(y(Table::Notes, i).len() == 0);
                assert(!is_at_path(y, i, p));
            } else {
                lemma_same_path(x, y, i, p);
            }
        }
    }
}

/// A note that is taken out has no row, is not found, and nothing goes with it;
/// the rows of other notes stay. Its attachments are left to the database, which
/// removes them with the note's row.
pub proof fn law_removed_rows(x: Tables, id: Seq<char>)
    requires
        x(Table::Notes, id).len() == 0 ==> x(Table::Search, id).len() == 0,
    ensures
        ({
            let y = run(x, removal_statements(id));
            forall|t: Table, i: Seq<char>|
                t != Table::Attachments ==> #[trigger] y(t, i) == if i == id {
                    Seq::<Row>::empty()
                } else {
                    x(t, i)
                }
        }),
{
    lemma_deeds();
    let none = Seq::<StatementView>::empty();
    let s = with_texts(DROP_SEARCH@, seq![id]);
    let n = with_texts(DROP_NOTE@, seq![id]);
    let x0 = run(x, seq![s]);
    assert(seq![s] =~= none.push(s));
    lemma_run_push(x, none, s);
    assert(subject(s) == id && subject(n) == id);
    let x1 = run(x0, cleared(id));
    lemma_run_cleared(x0, id);
    lemma_run_more(x, seq![s], cleared(id));
    lemma_run_push(x, seq![s] + cleared(id), n);
    let y = run(x, removal_statements(id));
    assert forall|t: Table, i: Seq<char>| t != Table::Attachments implies #[trigger] y(t, i)
        == if i == id {
        Seq::<Row>::empty()
    } else {
        x(t, i)
    } by {
        if t == Table::Search && i == id {
            assert(x0(t, i) =~= Seq::<Row>::empty());
            assert(x1(t, i) == x0(t, i));
        } else if i == id {
            assert(y(t, i) =~= Seq::<Row>::empty());
        }
    }
}

} // verus!
