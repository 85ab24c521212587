//! What SQL statements do to notes: the rows they insert, and the texts that
//! changes of rows leave.
use crate::error::{ErrorView, ZettelError};
use crate::ids::{ids_view, made_ids, unique_ids};
use crate::rows::Cells;
use crate::sql::{extract_where_id, identifier, unquote_identifier, where_id, Condition, InsertSource};
use crate::sql_engine::{
    check_insert, engine, files_view, first_missing, insert_refusal, insert_rows, lowered_all,
    plan_row, referenced, referenced_ids, rename_in_note, renamed_text, row_cells, row_cells_of,
    row_path_of, row_text, rows_view, source_rows, typedef_content, typedef_text, untype_note,
    untyped_text, update_note, updated_text, PlannedRow, SqlResult,
};
use crate::text::{self, join, texts};
use crate::textmap::{mapped, TextMap};
use crate::types::{SchemaView, TableSchema, ZettelId, Zone};
use vstd::prelude::*;

verus! {

broadcast use vstd::string::group_string_axioms;

// ---------------------------------------------------------------------------
// Insertion
// ---------------------------------------------------------------------------
/// The table that an insertion writes to, unless its form is refused.
pub fn insert_target(replace_into: bool, or_clause: bool, on_clause: bool, table: &str) -> (r:
    Result<String, ZettelError>)
    ensures
        match insert_refusal(replace_into, or_clause, on_clause) {
            Some(m) => r matches Err(e) && e@ == engine(m),
            None => r matches Ok(t) && t@ == identifier(table@),
        },
{
    match check_insert(replace_into, or_clause, on_clause) {
        Ok(_) => Ok(unquote_identifier(table)),
        Err(e) => Err(e),
    }
}

pub struct RowView {
    pub path: Seq<char>,
    pub content: Seq<char>,
    pub cells: Cells,
}

pub open spec fn row_view(p: PlannedRow) -> RowView {
    RowView { path: p.path@, content: p.content@, cells: mapped(p.cells@) }
}

pub open spec fn planned_view(s: Seq<PlannedRow>) -> Seq<RowView> {
    Seq::new(s.len(), |i: int| row_view(s[i]))
}

/// An insertion in its course: the rows so far, the notes that are known, and
/// the error that ended it, if one did.
pub struct InsertState {
    pub rows: Seq<RowView>,
    pub known: Seq<Seq<char>>,
    pub error: Option<ErrorView>,
}

pub open spec fn are_known(ids: Seq<Seq<char>>, known: Seq<Seq<char>>) -> Seq<bool> {
    Seq::new(ids.len(), |i: int| known.contains(ids[i]))
}

/// The insertion after one more row. The row's own note is known from then on.
pub open spec fn after_row(
    st: InsertState,
    s: SchemaView,
    table: Seq<char>,
    names: Seq<Seq<char>>,
    row: Seq<Seq<char>>,
    id: Seq<char>,
) -> InsertState {
    match row_cells_of(s.columns, names, row) {
        Err(e) => InsertState { error: Some(e), ..st },
        Ok(cells) => {
            let ids = referenced(s.columns, cells);
            match first_missing(ids, are_known(ids, st.known)) {
                Some(x) => InsertState {
                    error: Some(engine("referenced zettel not found: "@ + x)),
                    ..st
                },
                None => InsertState {
                    rows: st.rows.push(
                        RowView {
                            path: row_path_of(table, id),
                            content: row_text(id, s, cells),
                            cells,
                        },
                    ),
                    known: st.known.push(id),
                    error: None,
                },
            }
        },
    }
}

/// The insertion after the first `n` rows; nothing is done after an error.
pub open spec fn inserted(
    s: SchemaView,
    table: Seq<char>,
    names: Seq<Seq<char>>,
    rows: Seq<Seq<Seq<char>>>,
    ids: Seq<Seq<char>>,
    known: Seq<Seq<char>>,
    n: int,
) -> InsertState
    decreases n,
{
    if n <= 0 {
        InsertState { rows: Seq::empty(), known, error: None }
    } else {
        let p = inserted(s, table, names, rows, ids, known, n - 1);
        if p.error is Some {
            p
        } else {
            after_row(p, s, table, names, rows[n - 1], ids[n - 1])
        }
    }
}

proof fn lemma_insert_ended(
    s: SchemaView,
    table: Seq<char>,
    names: Seq<Seq<char>>,
    rows: Seq<Seq<Seq<char>>>,
    ids: Seq<Seq<char>>,
    known: Seq<Seq<char>>,
    k: int,
    n: int,
)
    requires
        k <= n,
        inserted(s, table, names, rows, ids, known, k).error is Some,
    ensures
        inserted(s, table, names, rows, ids, known, n) == inserted(
            s,
            table,
            names,
            rows,
            ids,
            known,
            k,
        ),
    decreases n - k,
{
    if k < n {
        lemma_insert_ended(s, table, names, rows, ids, known, k, n - 1);
    }
}

/// What an insertion does: the rows that it indexes, in their order, with their
/// identifiers, and the error that ends it, if one does. It writes its notes
/// where there is no error.
#[derive(Debug)]
pub struct InsertPlan {
    pub rows: Vec<PlannedRow>,
    pub ids: Vec<ZettelId>,
    pub error: Option<ZettelError>,
}

pub open spec fn plan_state(p: InsertPlan, known: Seq<Seq<char>>) -> InsertState {
    InsertState {
        rows: planned_view(p.rows@),
        known,
        error: match p.error {
            Some(e) => Some(e@),
            None => None,
        },
    }
}

fn check_known(ids: &Vec<String>, known: &Vec<String>) -> (r: Vec<bool>)
    ensures
        r@ == are_known(texts(ids@), texts(known@)),
{
    let ghost goal = are_known(texts(ids@), texts(known@));
    let mut out: Vec<bool> = Vec::new();
    let mut i: usize = 0;
    while i < ids.len()
        invariant
            i <= ids@.len(),
            goal == are_known(texts(ids@), texts(known@)),
            out@ == goal.take(i as int),
        decreases ids@.len() - i,
    {
        out.push(text::contains_text(known, ids[i].as_str()));
        proof {
            assert(out@ =~= goal.take(i + 1));
        }
        i = i + 1;
    }
    proof {
        assert(goal.take(i as int) =~= goal);
    }
    out
}

fn lower_all(names: &Vec<String>) -> (r: Vec<String>)
    ensures
        texts(r@) == lowered_all(texts(names@)),
{
    let ghost goal = lowered_all(texts(names@));
    let mut out: Vec<String> = Vec::new();
    let mut i: usize = 0;
    proof {
        assert(texts(out@) =~= goal.take(0));
    }
    while i < names.len()
        invariant
            i <= names@.len(),
            goal == lowered_all(texts(names@)),
            texts(out@) == goal.take(i as int),
        decreases names@.len() - i,
    {
        let s = text::to_lower(names[i].as_str());
        proof {
            text::lemma_texts_push(out@, s);
            assert(goal.take(i + 1) =~= goal.take(i as int).push(goal[i as int]));
        }
        out.push(s);
        i = i + 1;
    }
    proof {
        assert(goal.take(i as int) =~= goal);
    }
    out
}

/// Plans an insertion into a table whose schema was read. `first` is a free
/// identifier, `known` has those of all notes.
pub fn plan_insert(
    schema: &TableSchema,
    table: &str,
    columns: &Vec<String>,
    source: &InsertSource,
    first: &str,
    known: &Vec<String>,
) -> (r: Result<InsertPlan, ZettelError>)
    ensures
        match source_rows(*source) {
            Err(x) => r matches Err(e) && e@ == x,
            Ok(rows) => match made_ids(first@, texts(known@), rows.len() as int) {
                Err(x) => r matches Err(e) && e@ == x,
                Ok(ids) => {
                    let end = inserted(
                        schema@,
                        table@,
                        lowered_all(texts(columns@)),
                        rows,
                        ids,
                        texts(known@),
                        rows.len() as int,
                    );
                    r matches Ok(p) && ids_view(p.ids@) == ids && plan_state(p, end.known) == end
                },
            },
        },
{
    let rows = match insert_rows(source) {
        Ok(v) => v,
        Err(e) => {
            return Err(e);
        },
    };
    let ghost rv = rows_view(rows@);
    let ids = match unique_ids(first, known, rows.len()) {
        Ok(v) => v,
        Err(e) => {
            return Err(e);
        },
    };
    let ghost iv = ids_view(ids@);
    proof {
        crate::ids::lemma_made_len(first@, texts(known@), rows@.len() as int);
    }
    let names = lower_all(columns);
    let ghost nv = texts(names@);
    let ghost sv = schema@;
    let ghost kv = texts(known@);
    let mut now_known = text::copy_all(known);
    let mut out: Vec<PlannedRow> = Vec::new();
    let mut i: usize = 0;
    proof {
        assert(planned_view(out@) =~= Seq::<RowView>::empty());
    }
    while i < rows.len()
        invariant
            i <= rows@.len(),
            rows@.len() <= ids@.len(),
            rv == rows_view(rows@),
            iv == ids_view(ids@),
            nv == texts(names@),
            sv == schema@,
            inserted(sv, table@, nv, rv, iv, kv, i as int) == (InsertState {
                rows: planned_view(out@),
                known: texts(now_known@),
                error: None,
            }),
        decreases rows@.len() - i,
    {
        proof {
            assert(rv[i as int] == texts(rows@[i as int]@));
            assert(iv[i as int] == ids@[i as int].0@);
        }
        let ghost n: int = rows@.len() as int;
        let ghost k: int = i + 1;
        let cells = match row_cells(&schema.columns, &names, &rows[i]) {
            Ok(m) => m,
            Err(e) => {
                proof {
                    lemma_insert_ended(sv, table@, nv, rv, iv, kv, k, n);
                }
                return Ok(InsertPlan { rows: out, ids, error: Some(e) });
            },
        };
        let refs = referenced_ids(&schema.columns, &cells);
        let found = check_known(&refs, &now_known);
        match plan_row(schema, table, &ids[i], cells, &found) {
            Ok(p) => {
                let ghost before = out@;
                let ghost pv = row_view(p);
                out.push(p);
                proof {
                    assert(planned_view(out@) =~= planned_view(before).push(pv));
                }
            },
            Err(e) => {
                proof {
                    lemma_insert_ended(sv, table@, nv, rv, iv, kv, k, n);
                }
                return Ok(InsertPlan { rows: out, ids, error: Some(e) });
            },
        }
        let id = text::copy(ids[i].0.as_str());
        proof {
            text::lemma_texts_push(now_known@, id);
        }
        now_known.push(id);
        i = i + 1;
    }
    Ok(InsertPlan { rows: out, ids, error: None })
}

/// What an insertion gives back: the identifiers of its rows.
pub fn insert_result(ids: &Vec<String>) -> (r: SqlResult)
    ensures
        r matches SqlResult::Done(s) && s@ == join(texts(ids@), ","@),
{
    SqlResult::Done(text::join_all(ids, ","))
}

// ---------------------------------------------------------------------------
// Which rows
// ---------------------------------------------------------------------------
/// The rows that a statement is about.
#[derive(Debug)]
pub enum RowTarget {
    /// The row with an identifier.
    One(String),
    /// The rows that the index finds for the condition.
    Matching,
}

/// Finds out which rows a condition means: a test of `id` for equality means
/// one row, whether it is there or not.
pub fn row_target(selection: &Option<Condition>) -> (r: RowTarget)
    ensures
        match where_id(*selection) {
            Ok(id) => r matches RowTarget::One(s) && s@ == id,
            Err(_) => r is Matching,
        },
{
    match extract_where_id(selection) {
        Ok(id) => RowTarget::One(id),
        Err(_) => RowTarget::Matching,
    }
}

/// The error for a condition that the index refuses.
pub fn where_error(clause: &Option<String>, reason: &str) -> (r: ZettelError)
    ensures
        r@ == engine(
            match *clause {
                Some(c) => "invalid WHERE clause"@ + " ("@ + c@ + ")"@ + ": "@ + reason@,
                None => "invalid WHERE clause"@ + ": "@ + reason@,
            },
        ),
{
    let mut m = text::copy("invalid WHERE clause");
    if let Some(c) = clause {
        m.append(" (");
        m.append(c.as_str());
        m.append(")");
    }
    m.append(": ");
    m.append(reason);
    ZettelError::SqlEngine(m)
}

// ---------------------------------------------------------------------------
// Changing notes
// ---------------------------------------------------------------------------
/// A change that a statement makes to notes.
#[derive(Debug)]
pub enum NoteEdit {
    /// Sets values of a row.
    Update { schema: TableSchema, updates: TextMap<String> },
    /// Renames a column.
    Rename { old_name: String, new_name: String, zone: Zone },
    /// Takes the type away.
    Untype,
}

/// The text of a note after a change.
pub open spec fn edited(content: Seq<char>, path: Seq<char>, e: NoteEdit) -> Result<
    Seq<char>,
    ErrorView,
> {
    match e {
        NoteEdit::Update { schema, updates } => updated_text(
            content,
            path,
            schema@,
            mapped(updates@),
        ),
        NoteEdit::Rename { old_name, new_name, zone } => renamed_text(
            content,
            path,
            old_name@,
            new_name@,
            zone,
        ),
        NoteEdit::Untype => untyped_text(content, path),
    }
}

pub fn edit_note(content: &str, path: &str, edit: &NoteEdit) -> (r: Result<String, ZettelError>)
    ensures
        match r {
            Ok(t) => edited(content@, path@, *edit) == Ok::<Seq<char>, ErrorView>(t@),
            Err(e) => edited(content@, path@, *edit) == Err::<Seq<char>, ErrorView>(e@),
        },
{
    match edit {
        NoteEdit::Update { schema, updates } => update_note(
            content,
            path,
            schema,
            updates,
        ),
        NoteEdit::Rename { old_name, new_name, zone } => rename_in_note(
            content,
            path,
            old_name.as_str(),
            new_name.as_str(),
            *zone,
        ),
        NoteEdit::Untype => untype_note(content, path),
    }
}

/// The files (path and text) after a change of all of them; the first that
/// cannot be read decides the error.
pub open spec fn edited_all(notes: Seq<(Seq<char>, Seq<char>)>, e: NoteEdit) -> Result<
    Seq<(Seq<char>, Seq<char>)>,
    ErrorView,
>
    decreases notes.len(),
{
    if notes.len() == 0 {
        Ok(Seq::empty())
    } else {
        match edited_all(notes.drop_last(), e) {
            Err(x) => Err(x),
            Ok(l) => match edited(notes.last().1, notes.last().0, e) {
                Err(x) => Err(x),
                Ok(t) => Ok(l.push((notes.last().0, t))),
            },
        }
    }
}

proof fn lemma_edited_error(notes: Seq<(Seq<char>, Seq<char>)>, e: NoteEdit, k: int)
    requires
        0 <= k <= notes.len(),
        edited_all(notes.take(k), e) is Err,
    ensures
        edited_all(notes, e) == edited_all(notes.take(k), e),
    decreases notes.len(),
{
    if k < notes.len() {
        assert(notes.drop_last().take(k) =~= notes.take(k));
        lemma_edited_error(notes.drop_last(), e, k);
    } else {
        assert(notes.take(k) =~= notes);
    }
}

/// Changes notes (path and text of each), all of them or none.
pub fn edit_notes(notes: &Vec<(String, String)>, edit: &NoteEdit) -> (r: Result<
    Vec<(String, String)>,
    ZettelError,
>)
    ensures
        match r {
            Ok(v) => edited_all(files_view(notes@), *edit) == Ok::<
                Seq<(Seq<char>, Seq<char>)>,
                ErrorView,
            >(files_view(v@)),
            Err(e) => edited_all(files_view(notes@), *edit) == Err::<
                Seq<(Seq<char>, Seq<char>)>,
                ErrorView,
            >(e@),
        },
{
    let ghost all = files_view(notes@);
    let mut out: Vec<(String, String)> = Vec::new();
    let mut i: usize = 0;
    proof {
        assert(all.take(0) =~= Seq::<(Seq<char>, Seq<char>)>::empty());
        assert(files_view(out@) =~= Seq::<(Seq<char>, Seq<char>)>::empty());
    }
    while i < notes.len()
        invariant
            i <= notes@.len(),
            all == files_view(notes@),
            edited_all(all.take(i as int), *edit) == Ok::<Seq<(Seq<char>, Seq<char>)>, ErrorView>(
                files_view(out@),
            ),
        decreases notes@.len() - i,
    {
        proof {
            let t = all.take(i + 1);
            assert(t.drop_last() =~= all.take(i as int));
            assert(t.last() == (notes@[i as int].0@, notes@[i as int].1@));
        }
        match edit_note(notes[i].1.as_str(), notes[i].0.as_str(), edit) {
            Ok(t) => {
                let f = (text::copy(notes[i].0.as_str()), t);
                let ghost before = out@;
                let ghost fv = (f.0@, f.1@);
                out.push(f);
                proof {
                    assert(files_view(out@) =~= files_view(before).push(fv));
                }
            },
            Err(e) => {
                proof {
                    lemma_edited_error(all, *edit, i + 1);
                }
                return Err(e);
            },
        }
        i = i + 1;
    }
    proof {
        assert(all.take(i as int) =~= all);
    }
    Ok(out)
}

/// The files of a rename of a column: the note of the schema, and the notes of
/// the rows.
pub fn rename_files(
    typedef_id: &ZettelId,
    typedef_path: &str,
    schema: &TableSchema,
    notes: &Vec<(String, String)>,
    edit: &NoteEdit,
) -> (r: Result<Vec<(String, String)>, ZettelError>)
    ensures
        match edited_all(files_view(notes@), *edit) {
            Err(x) => r matches Err(e) && e@ == x,
            Ok(l) => r matches Ok(v) && files_view(v@) == seq![
                (typedef_path@, typedef_text(typedef_id.0@, schema@)),
            ] + l,
        },
{
    let rest = match edit_notes(notes, edit) {
        Ok(v) => v,
        Err(e) => {
            return Err(e);
        },
    };
    let ghost rv = files_view(rest@);
    let mut out = rest;
    let head = (text::copy(typedef_path), typedef_content(typedef_id, schema));
    let ghost hv = (head.0@, head.1@);
    out.insert(0, head);
    proof {
        assert(files_view(out@) =~= seq![hv] + rv);
    }
    Ok(out)
}

// ---------------------------------------------------------------------------
// Laws
// ---------------------------------------------------------------------------
/// An insertion without an error plans a note for each row, at the place that
/// its identifier says.
pub proof fn law_insert_all(
    s: SchemaView,
    table: Seq<char>,
    names: Seq<Seq<char>>,
    rows: Seq<Seq<Seq<char>>>,
    ids: Seq<Seq<char>>,
    known: Seq<Seq<char>>,
    n: int,
)
    requires
        0 <= n,
        inserted(s, table, names, rows, ids, known, n).error is None,
    ensures
        inserted(s, table, names, rows, ids, known, n).rows.len() == n,
        forall|i: int|
            0 <= i < n ==> (#[trigger] inserted(
                s,
                table,
                names,
                rows,
                ids,
                known,
                n,
            ).rows[i]).path == row_path_of(table, ids[i]),
    decreases n,
{
    if n > 0 {
        law_insert_all(s, table, names, rows, ids, known, n - 1);
        let p = inserted(s, table, names, rows, ids, known, n - 1);
        let q = inserted(s, table, names, rows, ids, known, n);
        assert forall|i: int| 0 <= i < n implies (#[trigger] q.rows[i]).path == row_path_of(
            table,
            ids[i],
        ) by {
            if i < n - 1 {
                assert(q.rows[i] == p.rows[i]);
            }
        }
    }
}

} // verus!
