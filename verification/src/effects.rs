//! What carrying out a statement asks of the store and of the index, one thing
//! after the other.
use crate::error::{ErrorView, ZettelError};
use crate::ids::{ids_view, made_ids};
use crate::index_plan::{
    cell_values, create_sql, create_table_sql, delete_row_sql, drop_table_sql, insert_row_sql,
    insert_sql, inserted_values, name_sql, opts_view, update_row_sql, update_statement,
};
use crate::sql::InsertSource;
use crate::sql_engine::{
    buffered_read, files_view, kept_deletes, kept_writes, last_write, lowered_all, plan_commit,
    source_rows, typedef_content, typedef_text, DropPlan, PendingDelete, PendingWrite, SqlResult,
    TransactionBuffer,
};
use crate::sql_plan::{
    edit_note, edit_notes, edited, edited_all, insert_result, inserted, plan_insert, planned_view,
    rename_files, row_view, InsertPlan, NoteEdit, RowView,
};
use crate::text::{self, decimal, join, texts};
use crate::textmap::mapped;
use crate::types::{SchemaView, TableSchema, ZettelId};
use vstd::prelude::*;

verus! {

broadcast use vstd::string::group_string_axioms;

/// One thing that is asked of the store or of the index.
#[derive(Debug)]
pub enum Effect {
    /// Hold a file back until the transaction is committed.
    StageWrite { path: String, content: String },
    /// Hold a deletion back until the transaction is committed.
    StageDelete { path: String, id: String },
    CommitFile { path: String, content: String, message: String },
    CommitFiles { files: Vec<(String, String)>, message: String },
    CommitBatch { files: Vec<(String, String)>, deleted: Vec<String>, message: String },
    DeleteFile { path: String, message: String },
    DeleteFiles { paths: Vec<String>, message: String },
    /// Put a note into the index.
    Index { path: String, content: String },
    /// Put a note into the index as it now reads; `pending` says whether what
    /// the transaction holds back counts.
    Reindex { path: String, pending: bool },
    /// Take a note out of the index.
    Forget { id: String },
    /// Run a statement on the index with values for its places.
    Run { sql: String, values: Vec<Option<String>> },
    /// Make the table of a type anew.
    Rematerialize { table: String },
}

pub enum EffectView {
    StageWrite { path: Seq<char>, content: Seq<char> },
    StageDelete { path: Seq<char>, id: Seq<char> },
    CommitFile { path: Seq<char>, content: Seq<char>, message: Seq<char> },
    CommitFiles { files: Seq<(Seq<char>, Seq<char>)>, message: Seq<char> },
    CommitBatch {
        files: Seq<(Seq<char>, Seq<char>)>,
        deleted: Seq<Seq<char>>,
        message: Seq<char>,
    },
    DeleteFile { path: Seq<char>, message: Seq<char> },
    DeleteFiles { paths: Seq<Seq<char>>, message: Seq<char> },
    Index { path: Seq<char>, content: Seq<char> },
    Reindex { path: Seq<char>, pending: bool },
    Forget { id: Seq<char> },
    Run { sql: Seq<char>, values: Seq<Option<Seq<char>>> },
    Rematerialize { table: Seq<char> },
}

impl View for Effect {
    type V = EffectView;

    open spec fn view(&self) -> EffectView {
        match *self {
            Effect::StageWrite { path, content } => EffectView::StageWrite {
                path: path@,
                content: content@,
            },
            Effect::StageDelete { path, id } => EffectView::StageDelete { path: path@, id: id@ },
            Effect::CommitFile { path, content, message } => EffectView::CommitFile {
                path: path@,
                content: content@,
                message: message@,
            },
            Effect::CommitFiles { files, message } => EffectView::CommitFiles {
                files: files_view(files@),
                message: message@,
            },
            Effect::CommitBatch { files, deleted, message } => EffectView::CommitBatch {
                files: files_view(files@),
                deleted: texts(deleted@),
                message: message@,
            },
            Effect::DeleteFile { path, message } => EffectView::DeleteFile {
                path: path@,
                message: message@,
            },
            Effect::DeleteFiles { paths, message } => EffectView::DeleteFiles {
                paths: texts(paths@),
                message: message@,
            },
            Effect::Index { path, content } => EffectView::Index {
                path: path@,
                content: content@,
            },
            Effect::Reindex { path, pending } => EffectView::Reindex { path: path@, pending },
            Effect::Forget { id } => EffectView::Forget { id: id@ },
            Effect::Run { sql, values } => EffectView::Run {
                sql: sql@,
                values: opts_view(values@),
            },
            Effect::Rematerialize { table } => EffectView::Rematerialize { table: table@ },
        }
    }
}

pub open spec fn effects_view(s: Seq<Effect>) -> Seq<EffectView> {
    Seq::new(s.len(), |i: int| s[i]@)
}

/// What a statement does, and what it gives once all of that is done.
#[derive(Debug)]
pub struct Outcome {
    pub effects: Vec<Effect>,
    pub result: Result<SqlResult, ZettelError>,
}

fn add_effect(out: &mut Vec<Effect>, e: Effect)
    ensures
        effects_view(final(out)@) == effects_view(old(out)@).push(e@),
{
    let ghost before = out@;
    out.push(e);
    proof {
        assert(effects_view(out@) =~= effects_view(before).push(e@));
    }
}

fn no_effects() -> (r: Vec<Effect>)
    ensures
        effects_view(r@) == Seq::<EffectView>::empty(),
{
    let r: Vec<Effect> = Vec::new();
    proof {
        assert(effects_view(r@) =~= Seq::<EffectView>::empty());
    }
    r
}

// ---------------------------------------------------------------------------
// Insertion
// ---------------------------------------------------------------------------
/// What inserting a row does: its note is indexed, its row goes into the table,
/// and within a transaction its file is held back.
pub open spec fn row_effects(s: SchemaView, r: RowView, id: Seq<char>, in_txn: bool) -> Seq<
    EffectView,
> {
    let done = seq![
        EffectView::Index { path: r.path, content: r.content },
        EffectView::Run {
            sql: insert_sql(s, false),
            values: cell_values(id, r.cells, s.columns),
        },
    ];
    if in_txn {
        done.push(EffectView::StageWrite { path: r.path, content: r.content })
    } else {
        done
    }
}

pub open spec fn rows_effects(
    s: SchemaView,
    rows: Seq<RowView>,
    ids: Seq<Seq<char>>,
    in_txn: bool,
) -> Seq<EffectView>
    decreases rows.len(),
{
    if rows.len() == 0 {
        Seq::empty()
    } else {
        rows_effects(s, rows.drop_last(), ids, in_txn) + row_effects(
            s,
            rows.last(),
            ids[rows.len() - 1],
            in_txn,
        )
    }
}

pub open spec fn row_files(rows: Seq<RowView>) -> Seq<(Seq<char>, Seq<char>)> {
    Seq::new(rows.len(), |i: int| (rows[i].path, rows[i].content))
}

pub open spec fn insert_message(n: nat, table: Seq<char>) -> Seq<char> {
    "insert "@ + decimal(n) + " row(s) into "@ + table
}

/// What an insertion does: its rows one by one, and one commit at the end,
/// where nothing failed and no transaction is active.
pub open spec fn insert_effects(
    s: SchemaView,
    table: Seq<char>,
    rows: Seq<RowView>,
    ids: Seq<Seq<char>>,
    failed: bool,
    in_txn: bool,
) -> Seq<EffectView> {
    let done = rows_effects(s, rows, ids, in_txn);
    if failed || in_txn || rows.len() == 0 {
        done
    } else {
        done.push(
            EffectView::CommitFiles {
                files: row_files(rows),
                message: insert_message(rows.len(), table),
            },
        )
    }
}

fn carry_insert(schema: &TableSchema, table: &str, plan: &InsertPlan, in_txn: bool) -> (r: Vec<
    Effect,
>)
    requires
        plan.rows@.len() <= plan.ids@.len(),
    ensures
        effects_view(r@) == insert_effects(
            schema@,
            table@,
            planned_view(plan.rows@),
            ids_view(plan.ids@),
            plan.error is Some,
            in_txn,
        ),
{
    let ghost rv = planned_view(plan.rows@);
    let ghost iv = ids_view(plan.ids@);
    let mut out = no_effects();
    let mut files: Vec<(String, String)> = Vec::new();
    let mut i: usize = 0;
    proof {
        assert(rv.take(0) =~= Seq::<RowView>::empty());
        assert(files_view(files@) =~= row_files(rv.take(0)));
    }
    while i < plan.rows.len()
        invariant
            i <= plan.rows@.len() <= plan.ids@.len(),
            rv == planned_view(plan.rows@),
            iv == ids_view(plan.ids@),
            effects_view(out@) == rows_effects(schema@, rv.take(i as int), iv, in_txn),
            files_view(files@) == row_files(rv.take(i as int)),
        decreases plan.rows@.len() - i,
    {
        let row = &plan.rows[i];
        let id = plan.ids[i].0.as_str();
        let ghost before = effects_view(out@);
        let ghost old_files = files@;
        let ghost t = rv.take(i + 1);
        proof {
            assert(t.drop_last() =~= rv.take(i as int));
            assert(t.last() == row_view(plan.rows@[i as int]));
            assert(iv[i as int] == id@);
        }
        add_effect(
            &mut out,
            Effect::Index {
                path: text::copy(row.path.as_str()),
                content: text::copy(row.content.as_str()),
            },
        );
        add_effect(
            &mut out,
            Effect::Run {
                sql: insert_row_sql(schema, false),
                values: inserted_values(schema, id, &row.cells),
            },
        );
        if in_txn {
            add_effect(
                &mut out,
                Effect::StageWrite {
                    path: text::copy(row.path.as_str()),
                    content: text::copy(row.content.as_str()),
                },
            );
        }
        let file = (text::copy(row.path.as_str()), text::copy(row.content.as_str()));
        files.push(file);
        proof {
            assert(effects_view(out@) =~= before + row_effects(schema@, t.last(), id@, in_txn));
            assert(files_view(files@) =~= row_files(t)) by {
                assert(files_view(old_files).len() == i);
                assert forall|k: int| 0 <= k < t.len() implies files_view(files@)[k] == row_files(
                    t,
                )[k] by {
                    if k < i {
                        assert(files_view(old_files)[k] == row_files(rv.take(i as int))[k]);
                    }
                }
            }
        }
        i = i + 1;
    }
    proof {
        assert(rv.take(i as int) =~= rv);
    }
    if plan.error.is_none() && !in_txn && plan.rows.len() > 0 {
        let n = text::to_decimal(plan.rows.len() as u64);
        let head = text::cat3("insert ", n.as_str(), " row(s) into ");
        let message = text::cat(head.as_str(), table);
        add_effect(&mut out, Effect::CommitFiles { files, message });
    }
    out
}

fn id_texts(ids: &Vec<ZettelId>, n: usize) -> (r: Vec<String>)
    requires
        n <= ids@.len(),
    ensures
        texts(r@) == ids_view(ids@).take(n as int),
{
    let ghost all = ids_view(ids@);
    let mut out: Vec<String> = Vec::new();
    let mut i: usize = 0;
    proof {
        assert(texts(out@) =~= all.take(0));
    }
    while i < n
        invariant
            i <= n <= ids@.len(),
            all == ids_view(ids@),
            texts(out@) == all.take(i as int),
        decreases n - i,
    {
        let s = text::copy(ids[i].0.as_str());
        proof {
            text::lemma_texts_push(out@, s);
            assert(all.take(i + 1) =~= all.take(i as int).push(all[i as int]));
        }
        out.push(s);
        i = i + 1;
    }
    out
}

/// Carries out an insertion into a table whose schema was read. `first` is a
/// free identifier, `known` has those of all notes. It gives the identifiers of
/// the new rows. A row that is refused ends it, and what was done for the rows
/// before stands.
pub fn handle_insert(
    schema: &TableSchema,
    table: &str,
    columns: &Vec<String>,
    source: &InsertSource,
    first: &str,
    known: &Vec<String>,
    in_txn: bool,
) -> (r: Result<Outcome, ZettelError>)
    ensures
        match source_rows(*source) {
            Err(x) => r matches Err(e) && e@ == x,
            Ok(rows) => match made_ids(first@, texts(known@), rows.len() as int) {
                Err(x) => r matches Err(e) && e@ == x,
                Ok(ids) => {
                    let end = inserted(
                        schema@,
                        table@,
                        lowered_all(texts(columns@)),
                        rows,
                        ids,
                        texts(known@),
                        rows.len() as int,
                    );
                    r matches Ok(o) && effects_view(o.effects@) == insert_effects(
                        schema@,
                        table@,
                        end.rows,
                        ids,
                        end.error is Some,
                        in_txn,
                    ) && match end.error {
                        Some(x) => o.result matches Err(e) && e@ == x,
                        None => o.result matches Ok(SqlResult::Done(s)) && s@ == join(
                            ids.take(rows.len() as int),
                            ","@,
                        ),
                    }
                },
            },
        },
{
    let plan = match plan_insert(schema, table, columns, source, first, known) {
        Ok(p) => p,
        Err(e) => {
            return Err(e);
        },
    };
    proof {
        let rows = source_rows(*source)->Ok_0;
        let ids = made_ids(first@, texts(known@), rows.len() as int)->Ok_0;
        let names = lowered_all(texts(columns@));
        crate::ids::lemma_made_len(first@, texts(known@), rows.len() as int);
        lemma_inserted_len(schema@, table@, names, rows, ids, texts(known@), rows.len() as int);
    }
    let effects = carry_insert(schema, table, &plan, in_txn);
    let InsertPlan { rows, ids, error } = plan;
    match error {
        Some(e) => Ok(Outcome { effects, result: Err(e) }),
        None => {
            let done = id_texts(&ids, rows.len());
            Ok(Outcome { effects, result: Ok(insert_result(&done)) })
        },
    }
}

proof fn lemma_inserted_len(
    s: SchemaView,
    table: Seq<char>,
    names: Seq<Seq<char>>,
    rows: Seq<Seq<Seq<char>>>,
    ids: Seq<Seq<char>>,
    known: Seq<Seq<char>>,
    n: int,
)
    requires
        0 <= n,
    ensures
        inserted(s, table, names, rows, ids, known, n).rows.len() <= n,
        inserted(s, table, names, rows, ids, known, n).error is None ==> inserted(
            s,
            table,
            names,
            rows,
            ids,
            known,
            n,
        ).rows.len() == n,
    decreases n,
{
    if n > 0 {
        lemma_inserted_len(s, table, names, rows, ids, known, n - 1);
    }
}

// ---------------------------------------------------------------------------
// Update
// ---------------------------------------------------------------------------
pub open spec fn all_given(v: Seq<Seq<char>>) -> Seq<Option<Seq<char>>> {
    Seq::new(v.len(), |i: int| Some(v[i]))
}

fn give_all(v: Vec<String>) -> (r: Vec<Option<String>>)
    ensures
        opts_view(r@) == all_given(texts(v@)),
{
    let ghost goal = all_given(texts(v@));
    let mut out: Vec<Option<String>> = Vec::new();
    let mut i: usize = 0;
    proof {
        assert(opts_view(out@) =~= goal.take(0));
    }
    while i < v.len()
        invariant
            i <= v@.len(),
            goal == all_given(texts(v@)),
            opts_view(out@) == goal.take(i as int),
        decreases v@.len() - i,
    {
        let s = Some(text::copy(v[i].as_str()));
        let ghost before = out@;
        let ghost sv = text::opt_text(s);
        out.push(s);
        proof {
            assert(opts_view(out@) =~= opts_view(before).push(sv));
            assert(goal.take(i + 1) =~= goal.take(i as int).push(goal[i as int]));
        }
        i = i + 1;
    }
    proof {
        assert(goal.take(i as int) =~= goal);
    }
    out
}

/// What a change of a note does to its row: the updated values are set.
pub open spec fn table_effects(e: NoteEdit, id: Seq<char>) -> Seq<EffectView> {
    match e {
        NoteEdit::Update { schema, updates } => match update_statement(
            schema@,
            id,
            mapped(updates@),
        ) {
            Some((sql, vals)) => seq![EffectView::Run { sql, values: all_given(vals) }],
            None => Seq::empty(),
        },
        _ => Seq::empty(),
    }
}

fn add_table_effects(out: &mut Vec<Effect>, edit: &NoteEdit, id: &str)
    ensures
        effects_view(final(out)@) == effects_view(old(out)@) + table_effects(*edit, id@),
{
    let ghost before = effects_view(out@);
    if let NoteEdit::Update { schema, updates } = edit {
        if let Some((sql, vals)) = update_row_sql(schema, id, updates) {
            add_effect(out, Effect::Run { sql, values: give_all(vals) });
        }
    }
    proof {
        assert(effects_view(out@) =~= before + table_effects(*edit, id@));
    }
}

/// What updating one row does: its new text is committed, or held back within a
/// transaction, and then indexed.
pub open spec fn one_updated(
    table: Seq<char>,
    id: Seq<char>,
    path: Seq<char>,
    content: Seq<char>,
    e: NoteEdit,
    in_txn: bool,
) -> Seq<EffectView> {
    let write = if in_txn {
        EffectView::StageWrite { path, content }
    } else {
        EffectView::CommitFile { path, content, message: "update "@ + table + " "@ + id }
    };
    seq![write, EffectView::Index { path, content }] + table_effects(e, id)
}

fn sentence(a: &str, b: &str, c: &str, d: &str) -> (r: String)
    ensures
        r@ == a@ + b@ + c@ + d@,
{
    let head = text::cat3(a, b, c);
    text::cat(head.as_str(), d)
}

/// Updates the row with an identifier, whose note has a path and a text.
pub fn update_row(
    table: &str,
    id: &str,
    path: &str,
    content: &str,
    edit: &NoteEdit,
    in_txn: bool,
) -> (r: Result<Outcome, ZettelError>)
    ensures
        match edited(content@, path@, *edit) {
            Err(x) => r matches Err(e) && e@ == x,
            Ok(t) => r matches Ok(o) && effects_view(o.effects@) == one_updated(
                table@,
                id@,
                path@,
                t,
                *edit,
                in_txn,
            ) && o.result == Ok::<SqlResult, ZettelError>(SqlResult::Affected(1)),
        },
{
    let t = match edit_note(content, path, edit) {
        Ok(t) => t,
        Err(e) => {
            return Err(e);
        },
    };
    let mut out = no_effects();
    if in_txn {
        add_effect(
            &mut out,
            Effect::StageWrite { path: text::copy(path), content: text::copy(t.as_str()) },
        );
    } else {
        let message = sentence("update ", table, " ", id);
        add_effect(
            &mut out,
            Effect::CommitFile { path: text::copy(path), content: text::copy(t.as_str()), message },
        );
    }
    let ghost tv = t@;
    add_effect(&mut out, Effect::Index { path: text::copy(path), content: t });
    proof {
        assert(effects_view(out@) + table_effects(*edit, id@) =~= one_updated(
            table@,
            id@,
            path@,
            tv,
            *edit,
            in_txn,
        ));
    }
    add_table_effects(&mut out, edit, id);
    Ok(Outcome { effects: out, result: Ok(SqlResult::Affected(1)) })
}

pub open spec fn staged(files: Seq<(Seq<char>, Seq<char>)>) -> Seq<EffectView> {
    Seq::new(
        files.len(),
        |i: int| EffectView::StageWrite { path: files[i].0, content: files[i].1 },
    )
}

fn add_staged(out: &mut Vec<Effect>, files: Vec<(String, String)>)
    ensures
        effects_view(final(out)@) == effects_view(old(out)@) + staged(files_view(files@)),
{
    let ghost before = effects_view(out@);
    let ghost all = staged(files_view(files@));
    let mut i: usize = 0;
    proof {
        assert(effects_view(out@) =~= before + all.take(0));
    }
    while i < files.len()
        invariant
            i <= files@.len(),
            all == staged(files_view(files@)),
            effects_view(out@) == before + all.take(i as int),
        decreases files@.len() - i,
    {
        add_effect(
            out,
            Effect::StageWrite {
                path: text::copy(files[i].0.as_str()),
                content: text::copy(files[i].1.as_str()),
            },
        );
        proof {
            assert(before + all.take(i + 1) =~= (before + all.take(i as int)).push(
                all[i as int],
            ));
        }
        i = i + 1;
    }
    proof {
        assert(all.take(i as int) =~= all);
    }
}

/// The rows that a condition finds: the identifier of each, and the path and
/// the text of its note.
#[derive(Debug)]
pub struct FoundRows {
    pub ids: Vec<String>,
    pub notes: Vec<(String, String)>,
}

/// What follows the writing of changed rows: each is indexed as it now reads,
/// and its values are set.
pub open spec fn refreshed(
    ids: Seq<Seq<char>>,
    notes: Seq<(Seq<char>, Seq<char>)>,
    e: NoteEdit,
) -> Seq<EffectView>
    decreases ids.len(),
{
    if ids.len() == 0 {
        Seq::empty()
    } else {
        let i = ids.len() - 1;
        refreshed(ids.drop_last(), notes, e).push(
            EffectView::Reindex { path: notes[i].0, pending: true },
        ) + table_effects(e, ids[i])
    }
}

/// What updating all rows that were found does: their new texts are committed
/// together, or held back within a transaction, and then indexed.
pub open spec fn many_updated(
    table: Seq<char>,
    ids: Seq<Seq<char>>,
    notes: Seq<(Seq<char>, Seq<char>)>,
    files: Seq<(Seq<char>, Seq<char>)>,
    e: NoteEdit,
    in_txn: bool,
) -> Seq<EffectView> {
    let writes = if in_txn {
        staged(files)
    } else {
        seq![EffectView::CommitFiles { files, message: "bulk update "@ + table }]
    };
    if ids.len() == 0 {
        Seq::empty()
    } else {
        writes + refreshed(ids, notes, e)
    }
}

/// Updates the rows that a condition found, all of them or, where the note of
/// one cannot be read, none.
pub fn update_rows(table: &str, rows: &FoundRows, edit: &NoteEdit, in_txn: bool) -> (r: Result<
    Outcome,
    ZettelError,
>)
    requires
        rows.ids@.len() == rows.notes@.len(),
    ensures
        match edited_all(files_view(rows.notes@), *edit) {
            Err(x) => r matches Err(e) && e@ == x,
            Ok(files) => r matches Ok(o) && effects_view(o.effects@) == many_updated(
                table@,
                texts(rows.ids@),
                files_view(rows.notes@),
                files,
                *edit,
                in_txn,
            ) && o.result == Ok::<SqlResult, ZettelError>(
                SqlResult::Affected(rows.ids@.len() as usize),
            ),
        },
{
    let ghost iv = texts(rows.ids@);
    let ghost nv = files_view(rows.notes@);
    let files = match edit_notes(&rows.notes, edit) {
        Ok(v) => v,
        Err(e) => {
            return Err(e);
        },
    };
    let ghost fv = files_view(files@);
    let mut out = no_effects();
    if rows.ids.len() == 0 {
        return Ok(Outcome { effects: out, result: Ok(SqlResult::Affected(0)) });
    }
    if in_txn {
        add_staged(&mut out, files);
        proof {
            assert(Seq::<EffectView>::empty() + staged(fv) =~= staged(fv));
        }
    } else {
        let message = text::cat("bulk update ", table);
        add_effect(&mut out, Effect::CommitFiles { files, message });
        proof {
            assert(Seq::<EffectView>::empty().push(
                EffectView::CommitFiles { files: fv, message: message@ },
            ) =~= seq![EffectView::CommitFiles { files: fv, message: message@ }]);
        }
    }
    let ghost writes = effects_view(out@);
    let mut i: usize = 0;
    proof {
        assert(iv.take(0) =~= Seq::<Seq<char>>::empty());
        assert(writes + refreshed(iv.take(0), nv, *edit) =~= writes);
    }
    while i < rows.ids.len()
        invariant
            i <= rows.ids@.len(),
            rows.ids@.len() == rows.notes@.len(),
            iv == texts(rows.ids@),
            nv == files_view(rows.notes@),
            effects_view(out@) == writes + refreshed(iv.take(i as int), nv, *edit),
        decreases rows.ids@.len() - i,
    {
        let ghost done = refreshed(iv.take(i as int), nv, *edit);
        let ghost one = EffectView::Reindex { path: nv[i as int].0, pending: true };
        let path = text::copy(rows.notes[i].0.as_str());
        add_effect(&mut out, Effect::Reindex { path, pending: true });
        add_table_effects(&mut out, edit, rows.ids[i].as_str());
        proof {
            let t = iv.take(i + 1);
            assert(t.drop_last() =~= iv.take(i as int));
            assert(t[i as int] == rows.ids@[i as int]@);
            let more = table_effects(*edit, iv[i as int]);
            assert((writes + done).push(one) + more =~= writes + (done.push(one) + more));
        }
        i = i + 1;
    }
    proof {
        assert(iv.take(i as int) =~= iv);
    }
    Ok(Outcome { effects: out, result: Ok(SqlResult::Affected(rows.ids.len())) })
}

// ---------------------------------------------------------------------------
// Deletion
// ---------------------------------------------------------------------------
/// What follows the deletion of a row's note: the index and the table lose it.
pub open spec fn forgotten(table: Seq<char>, id: Seq<char>) -> Seq<EffectView> {
    seq![
        EffectView::Forget { id },
        EffectView::Run {
            sql: "DELETE FROM "@ + name_sql(table) + " WHERE id = ?1"@,
            values: seq![Some(id)],
        },
    ]
}

fn add_forgotten(out: &mut Vec<Effect>, table: &str, id: &str)
    ensures
        effects_view(final(out)@) == effects_view(old(out)@) + forgotten(table@, id@),
{
    let ghost before = effects_view(out@);
    add_effect(out, Effect::Forget { id: text::copy(id) });
    let mut values: Vec<Option<String>> = Vec::new();
    values.push(Some(text::copy(id)));
    proof {
        assert(opts_view(values@) =~= seq![Some(id@)]);
    }
    add_effect(out, Effect::Run { sql: delete_row_sql(table), values });
    proof {
        assert(effects_view(out@) =~= before + forgotten(table@, id@));
    }
}

/// What deleting one row does: its note is deleted, or the deletion held back
/// within a transaction, and then forgotten.
pub open spec fn one_deleted(
    table: Seq<char>,
    id: Seq<char>,
    path: Seq<char>,
    in_txn: bool,
) -> Seq<EffectView> {
    let delete = if in_txn {
        EffectView::StageDelete { path, id }
    } else {
        EffectView::DeleteFile { path, message: "delete from "@ + table + " "@ + id }
    };
    seq![delete] + forgotten(table, id)
}

/// Deletes the row with an identifier, whose note has a path.
pub fn delete_row(table: &str, id: &str, path: &str, in_txn: bool) -> (r: Outcome)
    ensures
        effects_view(r.effects@) == one_deleted(table@, id@, path@, in_txn),
        r.result == Ok::<SqlResult, ZettelError>(SqlResult::Affected(1)),
{
    let mut out = no_effects();
    if in_txn {
        add_effect(&mut out, Effect::StageDelete { path: text::copy(path), id: text::copy(id) });
    } else {
        let message = sentence("delete from ", table, " ", id);
        add_effect(&mut out, Effect::DeleteFile { path: text::copy(path), message });
    }
    proof {
        assert(effects_view(out@) + forgotten(table@, id@) =~= one_deleted(
            table@,
            id@,
            path@,
            in_txn,
        ));
    }
    add_forgotten(&mut out, table, id);
    Outcome { effects: out, result: Ok(SqlResult::Affected(1)) }
}

/// The deletions of rows (identifier and path of each) that are held back.
pub open spec fn staged_deletes(rows: Seq<(Seq<char>, Seq<char>)>) -> Seq<EffectView> {
    Seq::new(rows.len(), |i: int| EffectView::StageDelete { path: rows[i].1, id: rows[i].0 })
}

pub open spec fn second_parts(rows: Seq<(Seq<char>, Seq<char>)>) -> Seq<Seq<char>> {
    Seq::new(rows.len(), |i: int| rows[i].1)
}

pub open spec fn all_forgotten(table: Seq<char>, rows: Seq<(Seq<char>, Seq<char>)>) -> Seq<
    EffectView,
>
    decreases rows.len(),
{
    if rows.len() == 0 {
        Seq::empty()
    } else {
        all_forgotten(table, rows.drop_last()) + forgotten(table, rows.last().0)
    }
}

/// What deleting all rows that were found does.
pub open spec fn many_deleted(
    table: Seq<char>,
    rows: Seq<(Seq<char>, Seq<char>)>,
    in_txn: bool,
) -> Seq<EffectView> {
    let deletes = if in_txn {
        staged_deletes(rows)
    } else {
        seq![
            EffectView::DeleteFiles {
                paths: second_parts(rows),
                message: "bulk delete from "@ + table,
            },
        ]
    };
    if rows.len() == 0 {
        Seq::empty()
    } else {
        deletes + all_forgotten(table, rows)
    }
}

fn paths_of(rows: &Vec<(String, String)>) -> (r: Vec<String>)
    ensures
        texts(r@) == second_parts(files_view(rows@)),
{
    let ghost goal = second_parts(files_view(rows@));
    let mut out: Vec<String> = Vec::new();
    let mut i: usize = 0;
    proof {
        assert(texts(out@) =~= goal.take(0));
    }
    while i < rows.len()
        invariant
            i <= rows@.len(),
            goal == second_parts(files_view(rows@)),
            texts(out@) == goal.take(i as int),
        decreases rows@.len() - i,
    {
        let s = text::copy(rows[i].1.as_str());
        proof {
            text::lemma_texts_push(out@, s);
            assert(goal.take(i + 1) =~= goal.take(i as int).push(goal[i as int]));
        }
        out.push(s);
        i = i + 1;
    }
    proof {
        assert(goal.take(i as int) =~= goal);
    }
    out
}

fn stage_all_deletes(rows: &Vec<(String, String)>) -> (r: Vec<Effect>)
    ensures
        effects_view(r@) == staged_deletes(files_view(rows@)),
{
    let ghost all = staged_deletes(files_view(rows@));
    let mut out = no_effects();
    let mut i: usize = 0;
    proof {
        assert(effects_view(out@) =~= all.take(0));
    }
    while i < rows.len()
        invariant
            i <= rows@.len(),
            all == staged_deletes(files_view(rows@)),
            effects_view(out@) == all.take(i as int),
        decreases rows@.len() - i,
    {
        add_effect(
            &mut out,
            Effect::StageDelete {
                path: text::copy(rows[i].1.as_str()),
                id: text::copy(rows[i].0.as_str()),
            },
        );
        proof {
            assert(all.take(i + 1) =~= all.take(i as int).push(all[i as int]));
        }
        i = i + 1;
    }
    proof {
        assert(all.take(i as int) =~= all);
    }
    out
}

/// Deletes the rows (identifier and path of each) that a condition found.
pub fn delete_rows(table: &str, rows: &Vec<(String, String)>, in_txn: bool) -> (r: Outcome)
    ensures
        effects_view(r.effects@) == many_deleted(table@, files_view(rows@), in_txn),
        r.result == Ok::<SqlResult, ZettelError>(SqlResult::Affected(rows@.len() as usize)),
{
    let ghost rv = files_view(rows@);
    if rows.len() == 0 {
        return Outcome { effects: no_effects(), result: Ok(SqlResult::Affected(0)) };
    }
    let mut out: Vec<Effect>;
    if in_txn {
        out = stage_all_deletes(rows);
    } else {
        out = no_effects();
        let message = text::cat("bulk delete from ", table);
        add_effect(&mut out, Effect::DeleteFiles { paths: paths_of(rows), message });
        proof {
            assert(effects_view(out@) =~= seq![
                EffectView::DeleteFiles { paths: second_parts(rv), message: message@ },
            ]);
        }
    }
    let ghost deletes = effects_view(out@);
    let mut i: usize = 0;
    proof {
        assert(rv.take(0) =~= Seq::<(Seq<char>, Seq<char>)>::empty());
        assert(deletes + all_forgotten(table@, rv.take(0)) =~= deletes);
    }
    while i < rows.len()
        invariant
            i <= rows@.len(),
            rv == files_view(rows@),
            effects_view(out@) == deletes + all_forgotten(table@, rv.take(i as int)),
        decreases rows@.len() - i,
    {
        proof {
            let t = rv.take(i + 1);
            assert(t.drop_last() =~= rv.take(i as int));
            assert(t.last().0 == rows@[i as int].0@);
            let done = all_forgotten(table@, rv.take(i as int));
            let more = forgotten(table@, t.last().0);
            assert((deletes + done) + more =~= deletes + (done + more));
        }
        add_forgotten(&mut out, table, rows[i].0.as_str());
        i = i + 1;
    }
    proof {
        assert(rv.take(i as int) =~= rv);
    }
    Outcome { effects: out, result: Ok(SqlResult::Affected(rows.len())) }
}

// ---------------------------------------------------------------------------
// Tables
// ---------------------------------------------------------------------------
/// What creating a table does: the note of its schema is committed and indexed,
/// and its table made.
pub open spec fn table_created(id: Seq<char>, s: SchemaView) -> Seq<EffectView> {
    let path = "zettelkasten/_typedef/"@ + id + ".md"@;
    let content = typedef_text(id, s);
    seq![
        EffectView::CommitFile { path, content, message: "create table "@ + s.table_name },
        EffectView::Index { path, content },
        EffectView::Run { sql: create_sql(s, true), values: Seq::empty() },
    ]
}

fn no_values() -> (r: Vec<Option<String>>)
    ensures
        opts_view(r@) == Seq::<Option<Seq<char>>>::empty(),
{
    let r: Vec<Option<String>> = Vec::new();
    proof {
        assert(opts_view(r@) =~= Seq::<Option<Seq<char>>>::empty());
    }
    r
}

/// Creates the table of a schema, whose note gets an identifier.
pub fn handle_create_table(id: &ZettelId, schema: &TableSchema) -> (r: Outcome)
    ensures
        effects_view(r.effects@) == table_created(id.0@, schema@),
        r.result matches Ok(SqlResult::Done(s)) && s@ == "table "@ + schema@.table_name
            + " created"@,
{
    let table = schema.table_name.as_str();
    let path = text::cat3("zettelkasten/_typedef/", id.0.as_str(), ".md");
    let content = typedef_content(id, schema);
    let mut out = no_effects();
    add_effect(
        &mut out,
        Effect::CommitFile {
            path: text::copy(path.as_str()),
            content: text::copy(content.as_str()),
            message: text::cat("create table ", table),
        },
    );
    add_effect(&mut out, Effect::Index { path, content });
    add_effect(&mut out, Effect::Run { sql: create_table_sql(schema, true), values: no_values() });
    proof {
        assert(effects_view(out@) =~= table_created(id.0@, schema@));
    }
    Outcome { effects: out, result: Ok(SqlResult::Done(text::cat3("table ", table, " created"))) }
}

/// What changing a schema does: its note is committed and indexed, and the
/// table made anew.
pub open spec fn table_altered(
    table: Seq<char>,
    id: Seq<char>,
    path: Seq<char>,
    s: SchemaView,
) -> Seq<EffectView> {
    let content = typedef_text(id, s);
    seq![
        EffectView::CommitFile { path, content, message: "alter table "@ + table },
        EffectView::Index { path, content },
        EffectView::Rematerialize { table },
    ]
}

/// Writes a changed schema, whose note has an identifier and a path.
pub fn handle_alter_table(table: &str, id: &ZettelId, path: &str, schema: &TableSchema) -> (r:
    Outcome)
    ensures
        effects_view(r.effects@) == table_altered(table@, id.0@, path@, schema@),
        r.result matches Ok(SqlResult::Done(s)) && s@ == "table "@ + table@ + " altered"@,
{
    let content = typedef_content(id, schema);
    let mut out = no_effects();
    add_effect(
        &mut out,
        Effect::CommitFile {
            path: text::copy(path),
            content: text::copy(content.as_str()),
            message: text::cat("alter table ", table),
        },
    );
    add_effect(&mut out, Effect::Index { path: text::copy(path), content });
    add_effect(&mut out, Effect::Rematerialize { table: text::copy(table) });
    proof {
        assert(effects_view(out@) =~= table_altered(table@, id.0@, path@, schema@));
    }
    Outcome { effects: out, result: Ok(SqlResult::Done(text::cat3("table ", table, " altered"))) }
}

pub open spec fn reindexed(notes: Seq<(Seq<char>, Seq<char>)>) -> Seq<EffectView> {
    Seq::new(notes.len(), |i: int| EffectView::Reindex { path: notes[i].0, pending: false })
}

fn add_reindexed(out: &mut Vec<Effect>, notes: &Vec<(String, String)>)
    ensures
        effects_view(final(out)@) == effects_view(old(out)@) + reindexed(files_view(notes@)),
{
    let ghost before = effects_view(out@);
    let ghost all = reindexed(files_view(notes@));
    let mut i: usize = 0;
    proof {
        assert(effects_view(out@) =~= before + all.take(0));
    }
    while i < notes.len()
        invariant
            i <= notes@.len(),
            all == reindexed(files_view(notes@)),
            effects_view(out@) == before + all.take(i as int),
        decreases notes@.len() - i,
    {
        let path = text::copy(notes[i].0.as_str());
        add_effect(out, Effect::Reindex { path, pending: false });
        proof {
            assert(before + all.take(i + 1) =~= (before + all.take(i as int)).push(
                all[i as int],
            ));
        }
        i = i + 1;
    }
    proof {
        assert(all.take(i as int) =~= all);
    }
}

/// What renaming a column does: the note of the schema and those of the rows
/// are committed together and indexed, and the table is made anew.
pub open spec fn column_renamed(
    table: Seq<char>,
    id: Seq<char>,
    path: Seq<char>,
    s: SchemaView,
    notes: Seq<(Seq<char>, Seq<char>)>,
    files: Seq<(Seq<char>, Seq<char>)>,
    old_name: Seq<char>,
    new_name: Seq<char>,
) -> Seq<EffectView> {
    let content = typedef_text(id, s);
    seq![
        EffectView::CommitFiles {
            files: seq![(path, content)] + files,
            message: "alter table "@ + table + " rename "@ + old_name + " to "@ + new_name,
        },
        EffectView::Index { path, content },
    ] + reindexed(notes).push(EffectView::Rematerialize { table })
}

/// Renames a column in the notes of a table: that of the schema, which is
/// renamed already, and those of the rows.
pub fn handle_rename_column(
    table: &str,
    id: &ZettelId,
    path: &str,
    schema: &TableSchema,
    notes: &Vec<(String, String)>,
    edit: &NoteEdit,
) -> (r: Result<Outcome, ZettelError>)
    requires
        *edit is Rename,
    ensures
        match edited_all(files_view(notes@), *edit) {
            Err(x) => r matches Err(e) && e@ == x,
            Ok(files) => r matches Ok(o) && effects_view(o.effects@) == column_renamed(
                table@,
                id.0@,
                path@,
                schema@,
                files_view(notes@),
                files,
                edit->old_name@,
                edit->new_name@,
            ) && (o.result matches Ok(SqlResult::Done(s)) && s@ == "renamed "@ + edit->old_name@
                + " to "@ + edit->new_name@ + " in "@ + table@),
        },
{
    let (old_name, new_name) = match edit {
        NoteEdit::Rename { old_name, new_name, .. } => (old_name.as_str(), new_name.as_str()),
        _ => ("", ""),
    };
    let files = match rename_files(id, path, schema, notes, edit) {
        Ok(v) => v,
        Err(e) => {
            return Err(e);
        },
    };
    let mut message = sentence("alter table ", table, " rename ", old_name);
    message.append(" to ");
    message.append(new_name);
    let mut out = no_effects();
    let ghost fv = files_view(files@);
    let ghost mv = message@;
    add_effect(&mut out, Effect::CommitFiles { files, message });
    let content = typedef_content(id, schema);
    add_effect(&mut out, Effect::Index { path: text::copy(path), content });
    let ghost head = effects_view(out@);
    add_reindexed(&mut out, notes);
    add_effect(&mut out, Effect::Rematerialize { table: text::copy(table) });
    proof {
        let files = edited_all(files_view(notes@), *edit)->Ok_0;
        let goal = column_renamed(
            table@,
            id.0@,
            path@,
            schema@,
            files_view(notes@),
            files,
            old_name@,
            new_name@,
        );
        assert(head =~= seq![
            EffectView::CommitFiles { files: fv, message: mv },
            EffectView::Index { path: path@, content: typedef_text(id.0@, schema@) },
        ]);
        assert(effects_view(out@) =~= goal);
    }
    let mut said = sentence("renamed ", old_name, " to ", new_name);
    said.append(" in ");
    said.append(table);
    Ok(Outcome { effects: out, result: Ok(SqlResult::Done(said)) })
}

pub open spec fn all_gone(ids: Seq<Seq<char>>) -> Seq<EffectView> {
    Seq::new(ids.len(), |i: int| EffectView::Forget { id: ids[i] })
}

/// What dropping a table does, from the plan for it and the notes of its rows
/// after they lost their type.
pub open spec fn table_dropped(
    table: Seq<char>,
    plan: DropPlan,
    notes: Seq<(Seq<char>, Seq<char>)>,
    files: Seq<(Seq<char>, Seq<char>)>,
) -> Seq<EffectView> {
    let drop = EffectView::Run {
        sql: "DROP TABLE IF EXISTS "@ + name_sql(table),
        values: Seq::empty(),
    };
    match plan {
        DropPlan::Skip => Seq::empty(),
        DropPlan::DeleteAll { paths, ids } => (seq![
            EffectView::DeleteFiles {
                paths: texts(paths@),
                message: "drop table "@ + table + " cascade"@,
            },
        ] + all_gone(texts(ids@))).push(drop),
        DropPlan::Untype { typedef, typedef_id, paths } => (seq![
            EffectView::CommitBatch {
                files,
                deleted: seq![typedef@],
                message: "drop table "@ + table,
            },
        ] + reindexed(notes)).push(EffectView::Forget { id: typedef_id@ }).push(drop),
    }
}

fn add_gone(out: &mut Vec<Effect>, ids: &Vec<String>)
    ensures
        effects_view(final(out)@) == effects_view(old(out)@) + all_gone(texts(ids@)),
{
    let ghost before = effects_view(out@);
    let ghost all = all_gone(texts(ids@));
    let mut i: usize = 0;
    proof {
        assert(effects_view(out@) =~= before + all.take(0));
    }
    while i < ids.len()
        invariant
            i <= ids@.len(),
            all == all_gone(texts(ids@)),
            effects_view(out@) == before + all.take(i as int),
        decreases ids@.len() - i,
    {
        add_effect(out, Effect::Forget { id: text::copy(ids[i].as_str()) });
        proof {
            assert(before + all.take(i + 1) =~= (before + all.take(i as int)).push(
                all[i as int],
            ));
        }
        i = i + 1;
    }
    proof {
        assert(all.take(i as int) =~= all);
    }
}

/// Drops a table by a plan. `notes` are those of its rows, which lose their type
/// where they are not deleted.
pub fn handle_drop_table(table: &str, plan: &DropPlan, notes: &Vec<(String, String)>) -> (r: Result<
    Vec<Effect>,
    ZettelError,
>)
    ensures
        match edited_all(files_view(notes@), NoteEdit::Untype) {
            Err(x) => if plan is Untype {
                r matches Err(e) && e@ == x
            } else {
                r matches Ok(v) && effects_view(v@) == table_dropped(
                    table@,
                    *plan,
                    files_view(notes@),
                    Seq::empty(),
                )
            },
            Ok(files) => r matches Ok(v) && effects_view(v@) == table_dropped(
                table@,
                *plan,
                files_view(notes@),
                files,
            ),
        },
{
    let mut out = no_effects();
    match plan {
        DropPlan::Skip => {
            return Ok(out);
        },
        DropPlan::DeleteAll { paths, ids } => {
            let message = text::cat3("drop table ", table, " cascade");
            let ghost mv = message@;
            add_effect(&mut out, Effect::DeleteFiles { paths: text::copy_all(paths), message });
            proof {
                assert(effects_view(out@) =~= seq![
                    EffectView::DeleteFiles { paths: texts(paths@), message: mv },
                ]);
            }
            add_gone(&mut out, ids);
        },
        DropPlan::Untype { typedef, typedef_id, .. } => {
            let files = match edit_notes(notes, &NoteEdit::Untype) {
                Ok(v) => v,
                Err(e) => {
                    return Err(e);
                },
            };
            let message = text::cat("drop table ", table);
            let mut deleted: Vec<String> = Vec::new();
            deleted.push(text::copy(typedef.as_str()));
            let ghost fv = files_view(files@);
            let ghost mv = message@;
            proof {
                assert(texts(deleted@) =~= seq![typedef@]);
            }
            add_effect(&mut out, Effect::CommitBatch { files, deleted, message });
            proof {
                assert(effects_view(out@) =~= seq![
                    EffectView::CommitBatch { files: fv, deleted: seq![typedef@], message: mv },
                ]);
            }
            add_reindexed(&mut out, notes);
            add_effect(&mut out, Effect::Forget { id: text::copy(typedef_id.as_str()) });
        },
    }
    add_effect(&mut out, Effect::Run { sql: drop_table_sql(table), values: no_values() });
    Ok(out)
}

/// What dropping tables gives.
pub fn dropped_result(count: usize) -> (r: SqlResult)
    ensures
        r matches SqlResult::Done(s) && s@ == "dropped "@ + decimal(count as nat) + " table(s)"@,
{
    let n = text::to_decimal(count as u64);
    SqlResult::Done(text::cat3("dropped ", n.as_str(), " table(s)"))
}

/// What creating a table that is there already gives, where that is allowed.
pub fn skipped_result(table: &str) -> (r: SqlResult)
    ensures
        r matches SqlResult::Done(s) && s@ == "table already exists, skipped: "@ + table@,
{
    SqlResult::Done(text::cat("table already exists, skipped: ", table))
}

// ---------------------------------------------------------------------------
// The end of a transaction
// ---------------------------------------------------------------------------
/// What committing a transaction does: one commit of all it held back, if that
/// is anything.
pub open spec fn committed(b: TransactionBuffer, stored: Seq<bool>) -> Seq<EffectView> {
    let files = kept_writes(b.writes@, b.deletes@);
    let deleted = kept_deletes(b.deletes@, stored);
    if files.len() == 0 && deleted.len() == 0 {
        Seq::empty()
    } else {
        seq![EffectView::CommitBatch { files, deleted, message: "transaction"@ }]
    }
}

/// Commits what a transaction held back. `stored` says of each deletion whether
/// the store has the file.
pub fn handle_commit(buf: &TransactionBuffer, stored: &Vec<bool>) -> (r: Vec<Effect>)
    requires
        stored@.len() == buf.deletes@.len(),
    ensures
        effects_view(r@) == committed(*buf, stored@),
{
    let (files, deleted) = plan_commit(buf, stored);
    let mut out = no_effects();
    proof {
        assert(files_view(files@).len() == files@.len());
        assert(texts(deleted@).len() == deleted@.len());
    }
    if files.len() > 0 || deleted.len() > 0 {
        add_effect(
            &mut out,
            Effect::CommitBatch { files, deleted, message: text::copy("transaction") },
        );
        proof {
            assert(effects_view(out@) =~= committed(*buf, stored@));
        }
    }
    out
}

// ---------------------------------------------------------------------------
// What a transaction holds back
// ---------------------------------------------------------------------------
pub open spec fn writes_view(s: Seq<PendingWrite>) -> Seq<(Seq<char>, Seq<char>)> {
    Seq::new(s.len(), |i: int| (s[i].path@, s[i].content@))
}

pub open spec fn deletes_view(s: Seq<PendingDelete>) -> Seq<(Seq<char>, Seq<char>)> {
    Seq::new(s.len(), |i: int| (s[i].zettel_id@, s[i].path@))
}

/// Takes what is to be held back into a transaction, and hands everything else
/// back.
pub fn hold_back(buf: &mut TransactionBuffer, effect: Effect) -> (r: Option<Effect>)
    ensures
        match effect@ {
            EffectView::StageWrite { path, content } => r is None && writes_view(
                final(buf).writes@,
            ) == writes_view(old(buf).writes@).push((path, content)) && final(buf).deletes@ == old(
                buf,
            ).deletes@,
            EffectView::StageDelete { path, id } => r is None && deletes_view(final(buf).deletes@)
                == deletes_view(old(buf).deletes@).push((id, path)) && final(buf).writes@ == old(
                buf,
            ).writes@,
            _ => r == Some(effect) && *final(buf) == *old(buf),
        },
{
    match effect {
        Effect::StageWrite { path, content } => {
            let ghost before = buf.writes@;
            let ghost e = (path@, content@);
            buf.write(path, content);
            proof {
                assert(writes_view(buf.writes@) =~= writes_view(before).push(e));
            }
            None
        },
        Effect::StageDelete { path, id } => {
            let ghost before = buf.deletes@;
            let ghost e = (id@, path@);
            buf.delete(path, id);
            proof {
                assert(deletes_view(buf.deletes@) =~= deletes_view(before).push(e));
            }
            None
        },
        other => Some(other),
    }
}

// ---------------------------------------------------------------------------
// Laws
// ---------------------------------------------------------------------------
/// Whether the store changes at once.
pub open spec fn is_commit(e: EffectView) -> bool {
    match e {
        EffectView::CommitFile { .. } => true,
        EffectView::CommitFiles { .. } => true,
        EffectView::CommitBatch { .. } => true,
        EffectView::DeleteFile { .. } => true,
        EffectView::DeleteFiles { .. } => true,
        _ => false,
    }
}

pub open spec fn no_commit(s: Seq<EffectView>) -> bool {
    forall|i: int| 0 <= i < s.len() ==> !is_commit(#[trigger] s[i])
}

pub open spec fn one_commit_at_most(s: Seq<EffectView>) -> bool {
    forall|i: int, j: int|
        0 <= i < j < s.len() ==> !(is_commit(#[trigger] s[i]) && is_commit(#[trigger] s[j]))
}

proof fn lemma_no_commit_both(a: Seq<EffectView>, b: Seq<EffectView>)
    requires
        no_commit(a),
        no_commit(b),
    ensures
        no_commit(a + b),
{
    let s = a + b;
    assert forall|i: int| 0 <= i < s.len() implies !is_commit(#[trigger] s[i]) by {
        if i < a.len() {
            assert(s[i] == a[i]);
        } else {
            assert(s[i] == b[i - a.len()]);
        }
    }
}

proof fn lemma_rows_no_commit(
    s: SchemaView,
    rows: Seq<RowView>,
    ids: Seq<Seq<char>>,
    in_txn: bool,
)
    ensures
        no_commit(rows_effects(s, rows, ids, in_txn)),
    decreases rows.len(),
{
    if rows.len() > 0 {
        lemma_rows_no_commit(s, rows.drop_last(), ids, in_txn);
        let one = row_effects(s, rows.last(), ids[rows.len() - 1], in_txn);
        assert(no_commit(one));
        lemma_no_commit_both(rows_effects(s, rows.drop_last(), ids, in_txn), one);
    }
}

proof fn lemma_refreshed_no_commit(
    ids: Seq<Seq<char>>,
    notes: Seq<(Seq<char>, Seq<char>)>,
    e: NoteEdit,
)
    ensures
        no_commit(refreshed(ids, notes, e)),
    decreases ids.len(),
{
    if ids.len() > 0 {
        let i = ids.len() - 1;
        lemma_refreshed_no_commit(ids.drop_last(), notes, e);
        let a = refreshed(ids.drop_last(), notes, e);
        let b = a.push(EffectView::Reindex { path: notes[i].0, pending: true });
        assert forall|k: int| 0 <= k < b.len() implies !is_commit(#[trigger] b[k]) by {
            if k < a.len() {
                assert(b[k] == a[k]);
            }
        }
        assert(no_commit(table_effects(e, ids[i])));
        lemma_no_commit_both(b, table_effects(e, ids[i]));
    }
}

proof fn lemma_forgotten_no_commit(table: Seq<char>, rows: Seq<(Seq<char>, Seq<char>)>)
    ensures
        no_commit(all_forgotten(table, rows)),
    decreases rows.len(),
{
    if rows.len() > 0 {
        lemma_forgotten_no_commit(table, rows.drop_last());
        assert(no_commit(forgotten(table, rows.last().0)));
        lemma_no_commit_both(
            all_forgotten(table, rows.drop_last()),
            forgotten(table, rows.last().0),
        );
    }
}

/// Within a transaction no change of rows reaches the store: what statements
/// write and delete is held back until the commit.
pub proof fn law_transaction_holds_back(
    s: SchemaView,
    table: Seq<char>,
    inserted_rows: Seq<RowView>,
    ids: Seq<Seq<char>>,
    failed: bool,
    id: Seq<char>,
    path: Seq<char>,
    content: Seq<char>,
    e: NoteEdit,
    notes: Seq<(Seq<char>, Seq<char>)>,
    files: Seq<(Seq<char>, Seq<char>)>,
    rows: Seq<(Seq<char>, Seq<char>)>,
)
    ensures
        no_commit(insert_effects(s, table, inserted_rows, ids, failed, true)),
        no_commit(one_updated(table, id, path, content, e, true)),
        no_commit(many_updated(table, ids, notes, files, e, true)),
        no_commit(one_deleted(table, id, path, true)),
        no_commit(many_deleted(table, rows, true)),
{
    lemma_rows_no_commit(s, inserted_rows, ids, true);
    assert(no_commit(table_effects(e, id)));
    let write = seq![
        EffectView::StageWrite { path, content },
        EffectView::Index { path, content },
    ];
    assert(no_commit(write));
    lemma_no_commit_both(write, table_effects(e, id));
    lemma_refreshed_no_commit(ids, notes, e);
    assert(no_commit(staged(files)));
    lemma_no_commit_both(staged(files), refreshed(ids, notes, e));
    let delete = seq![EffectView::StageDelete { path, id }];
    assert(no_commit(delete));
    assert(no_commit(forgotten(table, id)));
    lemma_no_commit_both(delete, forgotten(table, id));
    lemma_forgotten_no_commit(table, rows);
    assert(no_commit(staged_deletes(rows)));
    lemma_no_commit_both(staged_deletes(rows), all_forgotten(table, rows));
}

proof fn lemma_commit_then_none(a: EffectView, b: Seq<EffectView>)
    requires
        no_commit(b),
    ensures
        one_commit_at_most(seq![a] + b),
{
    let s = seq![a] + b;
    assert forall|i: int, j: int| 0 <= i < j < s.len() implies !(is_commit(#[trigger] s[i])
        && is_commit(#[trigger] s[j])) by {
        assert(s[j] == b[j - 1]);
    }
}

/// Outside a transaction a statement makes at most one commit, of however many
/// rows; and so does the end of a transaction.
pub proof fn law_one_commit(
    s: SchemaView,
    table: Seq<char>,
    inserted_rows: Seq<RowView>,
    ids: Seq<Seq<char>>,
    failed: bool,
    e: NoteEdit,
    notes: Seq<(Seq<char>, Seq<char>)>,
    files: Seq<(Seq<char>, Seq<char>)>,
    rows: Seq<(Seq<char>, Seq<char>)>,
    plan: DropPlan,
    b: TransactionBuffer,
    stored: Seq<bool>,
    id: Seq<char>,
    path: Seq<char>,
    content: Seq<char>,
    old_name: Seq<char>,
    new_name: Seq<char>,
)
    ensures
        one_commit_at_most(one_updated(table, id, path, content, e, false)),
        one_commit_at_most(one_deleted(table, id, path, false)),
        one_commit_at_most(table_created(id, s)),
        one_commit_at_most(table_altered(table, id, path, s)),
        one_commit_at_most(column_renamed(table, id, path, s, notes, files, old_name, new_name)),
        one_commit_at_most(insert_effects(s, table, inserted_rows, ids, failed, false)),
        one_commit_at_most(many_updated(table, ids, notes, files, e, false)),
        one_commit_at_most(many_deleted(table, rows, false)),
        one_commit_at_most(table_dropped(table, plan, notes, files)),
        one_commit_at_most(committed(b, stored)),
{
    lemma_rows_no_commit(s, inserted_rows, ids, false);
    let ins = insert_effects(s, table, inserted_rows, ids, failed, false);
    let done = rows_effects(s, inserted_rows, ids, false);
    assert forall|i: int, j: int| 0 <= i < j < ins.len() implies !(is_commit(#[trigger] ins[i])
        && is_commit(#[trigger] ins[j])) by {
        assert(ins[i] == done[i]);
    }
    lemma_refreshed_no_commit(ids, notes, e);
    lemma_commit_then_none(
        EffectView::CommitFiles { files, message: "bulk update "@ + table },
        refreshed(ids, notes, e),
    );
    lemma_forgotten_no_commit(table, rows);
    lemma_commit_then_none(
        EffectView::DeleteFiles {
            paths: second_parts(rows),
            message: "bulk delete from "@ + table,
        },
        all_forgotten(table, rows),
    );
    let u = one_updated(table, id, path, content, e, false);
    assert forall|i: int, j: int| 0 <= i < j < u.len() implies !(is_commit(#[trigger] u[i])
        && is_commit(#[trigger] u[j])) by {
        assert(!is_commit(u[j]));
    }
    let r = column_renamed(table, id, path, s, notes, files, old_name, new_name);
    assert forall|i: int, j: int| 0 <= i < j < r.len() implies !(is_commit(#[trigger] r[i])
        && is_commit(#[trigger] r[j])) by {
        assert(!is_commit(r[j]));
    }
    let d = table_dropped(table, plan, notes, files);
    assert forall|i: int, j: int| 0 <= i < j < d.len() implies !(is_commit(#[trigger] d[i])
        && is_commit(#[trigger] d[j])) by {
        assert(!is_commit(d[j]));
    }
}

/// The files that effects hold back, in order.
pub open spec fn held_writes(s: Seq<EffectView>) -> Seq<(Seq<char>, Seq<char>)>
    decreases s.len(),
{
    if s.len() == 0 {
        Seq::empty()
    } else {
        match s.last() {
            EffectView::StageWrite { path, content } => held_writes(s.drop_last()).push(
                (path, content),
            ),
            _ => held_writes(s.drop_last()),
        }
    }
}

proof fn lemma_held_both(a: Seq<EffectView>, b: Seq<EffectView>)
    ensures
        held_writes(a + b) == held_writes(a) + held_writes(b),
    decreases b.len(),
{
    if b.len() == 0 {
        assert(a + b =~= a);
        assert(held_writes(a) + held_writes(b) =~= held_writes(a));
    } else {
        let s = a + b;
        assert(s.last() == b.last());
        assert(s.drop_last() =~= a + b.drop_last());
        lemma_held_both(a, b.drop_last());
        assert(held_writes(s) =~= held_writes(a) + held_writes(b));
    }
}

proof fn lemma_held_staged(files: Seq<(Seq<char>, Seq<char>)>)
    ensures
        held_writes(staged(files)) == files,
    decreases files.len(),
{
    if files.len() > 0 {
        lemma_held_staged(files.drop_last());
        assert(staged(files).drop_last() =~= staged(files.drop_last()));
        assert(files =~= files.drop_last().push(files.last()));
        assert(staged(files).last() == (EffectView::StageWrite {
            path: files.last().0,
            content: files.last().1,
        }));
        assert(held_writes(staged(files)) =~= files);
    } else {
        assert(held_writes(staged(files)) =~= files);
    }
}

proof fn lemma_held_table(e: NoteEdit, id: Seq<char>)
    ensures
        held_writes(table_effects(e, id)) == Seq::<(Seq<char>, Seq<char>)>::empty(),
{
    reveal_with_fuel(held_writes, 2);
}

proof fn lemma_held_refreshed(
    ids: Seq<Seq<char>>,
    notes: Seq<(Seq<char>, Seq<char>)>,
    e: NoteEdit,
)
    ensures
        held_writes(refreshed(ids, notes, e)) == Seq::<(Seq<char>, Seq<char>)>::empty(),
    decreases ids.len(),
{
    if ids.len() > 0 {
        let i = ids.len() - 1;
        lemma_held_refreshed(ids.drop_last(), notes, e);
        lemma_held_table(e, ids[i]);
        let a = refreshed(ids.drop_last(), notes, e);
        let b = a.push(EffectView::Reindex { path: notes[i].0, pending: true });
        assert(b.drop_last() =~= a);
        lemma_held_both(b, table_effects(e, ids[i]));
        assert(held_writes(b) + Seq::<(Seq<char>, Seq<char>)>::empty() =~= held_writes(b));
    }
}

proof fn lemma_held_row(s: SchemaView, r: RowView, id: Seq<char>)
    ensures
        held_writes(row_effects(s, r, id, true)) == seq![(r.path, r.content)],
{
    let all = row_effects(s, r, id, true);
    let two = all.drop_last();
    let one = two.drop_last();
    assert(one.drop_last() =~= Seq::<EffectView>::empty());
    assert(held_writes(one.drop_last()) =~= Seq::<(Seq<char>, Seq<char>)>::empty());
    assert(one.last() is Index);
    assert(held_writes(one) =~= Seq::<(Seq<char>, Seq<char>)>::empty());
    assert(two.last() is Run);
    assert(held_writes(two) == held_writes(one));
    assert(all.last() == (EffectView::StageWrite { path: r.path, content: r.content }));
    assert(held_writes(all) == held_writes(two).push((r.path, r.content)));
    assert(held_writes(all) =~= seq![(r.path, r.content)]);
}

proof fn lemma_held_rows(s: SchemaView, rows: Seq<RowView>, ids: Seq<Seq<char>>)
    ensures
        held_writes(rows_effects(s, rows, ids, true)) == row_files(rows),
    decreases rows.len(),
{
    if rows.len() > 0 {
        let before = rows_effects(s, rows.drop_last(), ids, true);
        let one = row_effects(s, rows.last(), ids[rows.len() - 1], true);
        lemma_held_rows(s, rows.drop_last(), ids);
        lemma_held_row(s, rows.last(), ids[rows.len() - 1]);
        lemma_held_both(before, one);
        assert(row_files(rows) =~= row_files(rows.drop_last()) + seq![
            (rows.last().path, rows.last().content),
        ]);
    } else {
        assert(row_files(rows) =~= Seq::<(Seq<char>, Seq<char>)>::empty());
    }
}

proof fn lemma_last_write(ws: Seq<PendingWrite>, k: int)
    requires
        0 <= k < ws.len(),
        forall|j: int| k < j < ws.len() ==> (#[trigger] ws[j]).path@ != ws[k].path@,
    ensures
        last_write(ws, ws[k].path@) == Some(ws[k].content@),
    decreases ws.len(),
{
    if k < ws.len() - 1 {
        let d = ws.drop_last();
        assert(ws[ws.len() - 1].path@ != ws[k].path@);
        assert(d[k] == ws[k]);
        assert forall|j: int| k < j < d.len() implies (#[trigger] d[j]).path@ != d[k].path@ by {
            assert(d[j] == ws[j]);
        }
        lemma_last_write(d, k);
    }
}

proof fn lemma_staged_is_read(
    before: TransactionBuffer,
    files: Seq<(Seq<char>, Seq<char>)>,
    after: TransactionBuffer,
    i: int,
)
    requires
        writes_view(after.writes@) == writes_view(before.writes@) + files,
        0 <= i < files.len(),
        forall|j: int| i < j < files.len() ==> (#[trigger] files[j]).0 != files[i].0,
    ensures
        buffered_read(Some(after), files[i].0) == Ok::<Option<Seq<char>>, ErrorView>(
            Some(files[i].1),
        ),
{
    let ws = after.writes@;
    let n: int = before.writes@.len() as int;
    assert(writes_view(ws).len() == ws.len());
    assert forall|j: int| n <= j < ws.len() implies (#[trigger] ws[j]).path@ == files[j - n].0
        && ws[j].content@ == files[j - n].1 by {
        assert(writes_view(ws)[j] == files[j - n]);
    }
    assert forall|j: int| n + i < j < ws.len() implies (#[trigger] ws[j]).path@ != ws[n + i].path@ by {
        assert(files[j - n].0 != files[i].0);
    }
    lemma_last_write(ws, n + i);
}

/// What an insertion wrote within a transaction is what later statements of the
/// transaction read, where no later row has the same path.
pub proof fn law_inserted_is_read(
    before: TransactionBuffer,
    after: TransactionBuffer,
    s: SchemaView,
    table: Seq<char>,
    rows: Seq<RowView>,
    ids: Seq<Seq<char>>,
    failed: bool,
    i: int,
)
    requires
        writes_view(after.writes@) == writes_view(before.writes@) + held_writes(
            insert_effects(s, table, rows, ids, failed, true),
        ),
        0 <= i < rows.len(),
        forall|j: int| i < j < rows.len() ==> (#[trigger] rows[j]).path != rows[i].path,
    ensures
        buffered_read(Some(after), rows[i].path) == Ok::<Option<Seq<char>>, ErrorView>(
            Some(rows[i].content),
        ),
{
    lemma_held_rows(s, rows, ids);
    let files = row_files(rows);
    assert forall|j: int| i < j < files.len() implies (#[trigger] files[j]).0 != files[i].0 by {
        assert(rows[j].path != rows[i].path);
    }
    lemma_staged_is_read(before, files, after, i);
}

/// What an update wrote within a transaction is what later statements of the
/// transaction read, where no later row has the same path.
pub proof fn law_updated_is_read(
    before: TransactionBuffer,
    after: TransactionBuffer,
    table: Seq<char>,
    ids: Seq<Seq<char>>,
    notes: Seq<(Seq<char>, Seq<char>)>,
    files: Seq<(Seq<char>, Seq<char>)>,
    e: NoteEdit,
    i: int,
)
    requires
        writes_view(after.writes@) == writes_view(before.writes@) + held_writes(
            many_updated(table, ids, notes, files, e, true),
        ),
        ids.len() > 0,
        0 <= i < files.len(),
        forall|j: int| i < j < files.len() ==> (#[trigger] files[j]).0 != files[i].0,
    ensures
        buffered_read(Some(after), files[i].0) == Ok::<Option<Seq<char>>, ErrorView>(
            Some(files[i].1),
        ),
{
    lemma_held_staged(files);
    lemma_held_refreshed(ids, notes, e);
    lemma_held_both(staged(files), refreshed(ids, notes, e));
    assert(files + Seq::<(Seq<char>, Seq<char>)>::empty() =~= files);
    lemma_staged_is_read(before, files, after, i);
}

} // verus!
