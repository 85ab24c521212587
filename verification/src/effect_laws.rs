//! What the effects of a statement reach: every row that it is about, and nothing else.
use crate::effects::{
    all_forgotten, all_gone, column_renamed, committed, forgotten, insert_effects, many_deleted,
    many_updated, one_deleted, one_updated, refreshed, reindexed, row_effects, row_files,
    rows_effects, second_parts, staged, staged_deletes, table_altered, table_created, table_dropped,
    table_effects, EffectView,
};
use crate::index_plan::{cell_values, create_sql, insert_sql, name_sql};
use crate::sql_engine::{kept_deletes, kept_writes, typedef_text, DropPlan, TransactionBuffer};
use crate::sql_plan::{NoteEdit, RowView};
use crate::text::texts;
use crate::types::SchemaView;
use vstd::prelude::*;

verus! {

/// Whether effects store a file with a content.
pub open spec fn stores(s: Seq<EffectView>, path: Seq<char>, content: Seq<char>) -> bool {
    exists|i: int| 0 <= i < s.len() && writes_file(#[trigger] s[i], path, content)
}

pub open spec fn writes_file(e: EffectView, path: Seq<char>, content: Seq<char>) -> bool {
    match e {
        EffectView::CommitFile { path: p, content: c, message } => p == path && c == content,
        EffectView::CommitFiles { files, message } => files.contains((path, content)),
        EffectView::CommitBatch { files, deleted, message } => files.contains((path, content)),
        _ => false,
    }
}

/// Whether effects delete a stored file.
pub open spec fn deletes(s: Seq<EffectView>, path: Seq<char>) -> bool {
    exists|i: int| 0 <= i < s.len() && deletes_file(#[trigger] s[i], path)
}

pub open spec fn deletes_file(e: EffectView, path: Seq<char>) -> bool {
    match e {
        EffectView::CommitBatch { files, deleted, message } => deleted.contains(path),
        EffectView::DeleteFile { path: p, message } => p == path,
        EffectView::DeleteFiles { paths, message } => paths.contains(path),
        _ => false,
    }
}

/// Whether effects neither store nor delete a file.
pub open spec fn is_quiet(s: Seq<EffectView>) -> bool {
    forall|i: int| 0 <= i < s.len() ==> !changes_files(#[trigger] s[i])
}

pub open spec fn changes_files(e: EffectView) -> bool {
    e is CommitFile || e is CommitFiles || e is CommitBatch || e is DeleteFile || e is DeleteFiles
}

/// Whether effects hold nothing back.
pub open spec fn holds_nothing(s: Seq<EffectView>) -> bool {
    forall|i: int|
        0 <= i < s.len() ==> !((#[trigger] s[i]) is StageWrite) && !(s[i] is StageDelete)
}

proof fn lemma_in_both(a: Seq<EffectView>, b: Seq<EffectView>)
    ensures
        forall|e: EffectView| #[trigger]
            (a + b).contains(e) == (a.contains(e) || b.contains(e)),
        forall|p: Seq<char>, c: Seq<char>| #[trigger]
            stores(a + b, p, c) == (stores(a, p, c) || stores(b, p, c)),
        forall|p: Seq<char>| #[trigger] deletes(a + b, p) == (deletes(a, p) || deletes(b, p)),
        is_quiet(a + b) == (is_quiet(a) && is_quiet(b)),
        holds_nothing(a + b) == (holds_nothing(a) && holds_nothing(b)),
{
    let s = a + b;
    assert forall|i: int| 0 <= i < a.len() implies #[trigger] a[i] == s[i] by {}
    assert forall|i: int| 0 <= i < b.len() implies #[trigger] b[i] == s[a.len() + i] by {}
    assert forall|i: int| 0 <= i < s.len() implies #[trigger] s[i] == (if i < a.len() {
        a[i]
    } else {
        b[i - a.len()]
    }) by {}
    assert forall|e: EffectView| #[trigger] s.contains(e) == (a.contains(e) || b.contains(e)) by {
        if a.contains(e) {
            assert(s[a.index_of(e)] == e);
        }
        if b.contains(e) {
            assert(s[a.len() + b.index_of(e)] == e);
        }
        if s.contains(e) {
            let i = s.index_of(e);
            if i < a.len() {
                assert(a[i] == e);
            } else {
                assert(b[i - a.len()] == e);
            }
        }
    }
    assert forall|p: Seq<char>, c: Seq<char>| #[trigger] stores(s, p, c) == (stores(a, p, c)
        || stores(b, p, c)) by {
        if stores(a, p, c) {
            let i = choose|i: int| 0 <= i < a.len() && writes_file(#[trigger] a[i], p, c);
            assert(writes_file(s[i], p, c));
        }
        if stores(b, p, c) {
            let i = choose|i: int| 0 <= i < b.len() && writes_file(#[trigger] b[i], p, c);
            assert(writes_file(s[a.len() + i], p, c));
        }
        if stores(s, p, c) {
            let i = choose|i: int| 0 <= i < s.len() && writes_file(#[trigger] s[i], p, c);
            if i < a.len() {
                assert(writes_file(a[i], p, c));
            } else {
                assert(writes_file(b[i - a.len()], p, c));
            }
        }
    }
    assert forall|p: Seq<char>| #[trigger] deletes(s, p) == (deletes(a, p) || deletes(b, p)) by {
        if deletes(a, p) {
            let i = choose|i: int| 0 <= i < a.len() && deletes_file(#[trigger] a[i], p);
            assert(deletes_file(s[i], p));
        }
        if deletes(b, p) {
            let i = choose|i: int| 0 <= i < b.len() && deletes_file(#[trigger] b[i], p);
            assert(deletes_file(s[a.len() + i], p));
        }
        if deletes(s, p) {
            let i = choose|i: int| 0 <= i < s.len() && deletes_file(#[trigger] s[i], p);
            if i < a.len() {
                assert(deletes_file(a[i], p));
            } else {
                assert(deletes_file(b[i - a.len()], p));
            }
        }
    }
}

proof fn lemma_one(e: EffectView)
    ensures
        forall|x: EffectView| #[trigger] seq![e].contains(x) == (x == e),
        forall|p: Seq<char>, c: Seq<char>| #[trigger]
            stores(seq![e], p, c) == writes_file(e, p, c),
        forall|p: Seq<char>| #[trigger] deletes(seq![e], p) == deletes_file(e, p),
        is_quiet(seq![e]) == !changes_files(e),
        holds_nothing(seq![e]) == (!(e is StageWrite) && !(e is StageDelete)),
{
    let s = seq![e];
    assert(s[0] == e);
    assert forall|x: EffectView| #[trigger] s.contains(x) == (x == e) by {
        assert(s[0] == e);
    }
    assert forall|p: Seq<char>, c: Seq<char>| #[trigger] stores(s, p, c) == writes_file(e, p, c) by {
        if writes_file(e, p, c) {
            assert(writes_file(s[0], p, c));
        }
    }
    assert forall|p: Seq<char>| #[trigger] deletes(s, p) == deletes_file(e, p) by {
        if deletes_file(e, p) {
            assert(deletes_file(s[0], p));
        }
    }
}

proof fn lemma_quiet(s: Seq<EffectView>)
    requires
        is_quiet(s),
    ensures
        forall|p: Seq<char>, c: Seq<char>| !#[trigger] stores(s, p, c),
        forall|p: Seq<char>| !#[trigger] deletes(s, p),
{
    assert forall|p: Seq<char>, c: Seq<char>| !#[trigger] stores(s, p, c) by {
        if stores(s, p, c) {
            let i = choose|i: int| 0 <= i < s.len() && writes_file(#[trigger] s[i], p, c);
            assert(!changes_files(s[i]));
        }
    }
    assert forall|p: Seq<char>| !#[trigger] deletes(s, p) by {
        if deletes(s, p) {
            let i = choose|i: int| 0 <= i < s.len() && deletes_file(#[trigger] s[i], p);
            assert(!changes_files(s[i]));
        }
    }
}

proof fn lemma_table_effects(e: NoteEdit, id: Seq<char>)
    ensures
        is_quiet(table_effects(e, id)),
        holds_nothing(table_effects(e, id)),
{
}

// ---------------------------------------------------------------------------
// Inserting
// ---------------------------------------------------------------------------
proof fn lemma_rows_effects(s: SchemaView, rows: Seq<RowView>, ids: Seq<Seq<char>>, in_txn: bool)
    ensures
        forall|e: EffectView| #[trigger]
            rows_effects(s, rows, ids, in_txn).contains(e) == exists|i: int|
                0 <= i < rows.len() && row_effects(s, #[trigger] rows[i], ids[i], in_txn).contains(
                    e,
                ),
        is_quiet(rows_effects(s, rows, ids, in_txn)),
    decreases rows.len(),
{
    let all = rows_effects(s, rows, ids, in_txn);
    if rows.len() == 0 {
        assert(all.len() == 0);
    } else {
        let d = rows.drop_last();
        let n = rows.len() - 1;
        let p = rows_effects(s, d, ids, in_txn);
        let q = row_effects(s, rows.last(), ids[n], in_txn);
        lemma_rows_effects(s, d, ids, in_txn);
        assert(is_quiet(q));
        lemma_in_both(p, q);
        assert forall|e: EffectView| #[trigger] all.contains(e) == exists|i: int|
            0 <= i < rows.len() && row_effects(s, #[trigger] rows[i], ids[i], in_txn).contains(
                e,
            ) by {
            if p.contains(e) {
                let i = choose|i: int|
                    0 <= i < d.len() && row_effects(s, #[trigger] d[i], ids[i], in_txn).contains(e);
                assert(rows[i] == d[i]);
            }
            if q.contains(e) {
                assert(rows[n] == rows.last());
            }
            if exists|i: int|
                0 <= i < rows.len() && row_effects(s, #[trigger] rows[i], ids[i], in_txn).contains(
                    e,
                ) {
                let i = choose|i: int|
                    0 <= i < rows.len() && row_effects(
                        s,
                        #[trigger] rows[i],
                        ids[i],
                        in_txn,
                    ).contains(e);
                if i < n {
                    assert(d[i] == rows[i]);
                    assert(p.contains(e));
                }
            }
        }
    }
}

/// An insertion indexes each of its rows and puts it into its table.
pub proof fn law_insert_indexes_rows(
    s: SchemaView,
    table: Seq<char>,
    rows: Seq<RowView>,
    ids: Seq<Seq<char>>,
    failed: bool,
    in_txn: bool,
    i: int,
)
    requires
        0 <= i < rows.len(),
    ensures
        insert_effects(s, table, rows, ids, failed, in_txn).contains(
            EffectView::Index { path: rows[i].path, content: rows[i].content },
        ),
        insert_effects(s, table, rows, ids, failed, in_txn).contains(
            EffectView::Run {
                sql: insert_sql(s, false),
                values: cell_values(ids[i], rows[i].cells, s.columns),
            },
        ),
{
    let done = rows_effects(s, rows, ids, in_txn);
    let all = insert_effects(s, table, rows, ids, failed, in_txn);
    lemma_rows_effects(s, rows, ids, in_txn);
    let one = row_effects(s, rows[i], ids[i], in_txn);
    let a = EffectView::Index { path: rows[i].path, content: rows[i].content };
    let b = EffectView::Run {
        sql: insert_sql(s, false),
        values: cell_values(ids[i], rows[i].cells, s.columns),
    };
    assert(one[0] == a);
    assert(one[1] == b);
    assert(one.contains(a) && one.contains(b));
    assert(done.contains(a) && done.contains(b));
    assert(all[done.index_of(a)] == a);
    assert(all[done.index_of(b)] == b);
}

/// An insertion stores the notes of all its rows and no other file. Within a transaction it
/// holds them back, and stores none; a failed one stores none.
pub proof fn law_insert_stores_rows(
    s: SchemaView,
    table: Seq<char>,
    rows: Seq<RowView>,
    ids: Seq<Seq<char>>,
    failed: bool,
    path: Seq<char>,
    content: Seq<char>,
)
    ensures
        ({
            let given = exists|i: int|
                0 <= i < rows.len() && (#[trigger] rows[i]).path == path && rows[i].content
                    == content;
            let done = insert_effects(s, table, rows, ids, failed, false);
            let held = insert_effects(s, table, rows, ids, failed, true);
            &&& stores(done, path, content) == (!failed && given)
            &&& !stores(held, path, content)
            &&& held.contains(EffectView::StageWrite { path, content }) == given
            &&& !deletes(done, path) && !deletes(held, path)
        }),
{
    let done = insert_effects(s, table, rows, ids, failed, false);
    let held = insert_effects(s, table, rows, ids, failed, true);
    let p = rows_effects(s, rows, ids, false);
    lemma_rows_effects(s, rows, ids, false);
    lemma_rows_effects(s, rows, ids, true);
    lemma_quiet(p);
    lemma_quiet(held);
    let w = EffectView::StageWrite { path, content };
    if held.contains(w) {
        let i = choose|i: int|
            0 <= i < rows.len() && row_effects(s, #[trigger] rows[i], ids[i], true).contains(w);
        let one = row_effects(s, rows[i], ids[i], true);
        let k = one.index_of(w);
        assert(one[k] == w);
        assert(rows[i].path == path && rows[i].content == content);
    }
    if exists|i: int|
        0 <= i < rows.len() && (#[trigger] rows[i]).path == path && rows[i].content == content {
        let i = choose|i: int|
            0 <= i < rows.len() && (#[trigger] rows[i]).path == path && rows[i].content == content;
        let one = row_effects(s, rows[i], ids[i], true);
        assert(one[2] == w);
        assert(one.contains(w));
        assert(row_files(rows)[i] == (path, content));
    }
    if !failed && rows.len() > 0 {
        let c = EffectView::CommitFiles {
            files: row_files(rows),
            message: crate::effects::insert_message(rows.len(), table),
        };
        assert(done =~= p + seq![c]);
        lemma_in_both(p, seq![c]);
        lemma_one(c);
        if row_files(rows).contains((path, content)) {
            let i = row_files(rows).index_of((path, content));
            assert(rows[i].path == path);
        }
    }
}

// ---------------------------------------------------------------------------
// Updating
// ---------------------------------------------------------------------------
/// An update of one row stores its note and no other file, or holds it back within a
/// transaction, and indexes it.
pub proof fn law_update_stores_row(
    table: Seq<char>,
    id: Seq<char>,
    path: Seq<char>,
    content: Seq<char>,
    e: NoteEdit,
    p: Seq<char>,
    c: Seq<char>,
)
    ensures
        ({
            let done = one_updated(table, id, path, content, e, false);
            let held = one_updated(table, id, path, content, e, true);
            &&& stores(done, p, c) == (p == path && c == content)
            &&& !stores(held, p, c)
            &&& held.contains(EffectView::StageWrite { path: p, content: c }) == (p == path && c
                == content)
            &&& !deletes(done, p) && !deletes(held, p)
            &&& done.contains(EffectView::Index { path, content })
            &&& held.contains(EffectView::Index { path, content })
        }),
{
    lemma_table_effects(e, id);
    let t = table_effects(e, id);
    lemma_quiet(t);
    let a = EffectView::CommitFile { path, content, message: "update "@ + table + " "@ + id };
    let b = EffectView::StageWrite { path, content };
    let x = EffectView::Index { path, content };
    assert(seq![a, x] =~= seq![a] + seq![x]);
    assert(seq![b, x] =~= seq![b] + seq![x]);
    lemma_one(a);
    lemma_one(b);
    lemma_one(x);
    lemma_in_both(seq![a], seq![x]);
    lemma_in_both(seq![b], seq![x]);
    lemma_in_both(seq![a, x], t);
    lemma_in_both(seq![b, x], t);
    let w = EffectView::StageWrite { path: p, content: c };
    if t.contains(w) {
        assert(t[t.index_of(w)] is StageWrite);
    }
}

proof fn lemma_refreshed(ids: Seq<Seq<char>>, notes: Seq<(Seq<char>, Seq<char>)>, e: NoteEdit)
    ensures
        forall|i: int|
            0 <= i < ids.len() ==> refreshed(ids, notes, e).contains(
                EffectView::Reindex { path: (#[trigger] notes[i]).0, pending: true },
            ),
        forall|i: int, x: EffectView|
            0 <= i < ids.len() && #[trigger] table_effects(e, ids[i]).contains(x) ==> refreshed(
                ids,
                notes,
                e,
            ).contains(x),
        is_quiet(refreshed(ids, notes, e)),
        holds_nothing(refreshed(ids, notes, e)),
    decreases ids.len(),
{
    if ids.len() > 0 {
        let d = ids.drop_last();
        let n = ids.len() - 1;
        lemma_refreshed(d, notes, e);
        let p = refreshed(d, notes, e);
        let r = EffectView::Reindex { path: notes[n].0, pending: true };
        let t = table_effects(e, ids[n]);
        assert(p.push(r) =~= p + seq![r]);
        lemma_one(r);
        lemma_in_both(p, seq![r]);
        lemma_table_effects(e, ids[n]);
        lemma_in_both(p + seq![r], t);
        let all = refreshed(ids, notes, e);
        assert(all == p + seq![r] + t);
        assert forall|i: int| 0 <= i < ids.len() implies all.contains(
            EffectView::Reindex { path: (#[trigger] notes[i]).0, pending: true },
        ) by {
            if i < n {
                assert(p.contains(EffectView::Reindex { path: notes[i].0, pending: true }));
            }
        }
        assert forall|i: int, x: EffectView|
            0 <= i < ids.len() && #[trigger] table_effects(e, ids[i]).contains(x) implies all.contains(
            x,
        ) by {
            if i < n {
                assert(d[i] == ids[i]);
                assert(table_effects(e, d[i]).contains(x));
                assert(p.contains(x));
            }
        }
    }
}

/// An update of many rows stores all their notes in one commit and no other file, or holds
/// them back within a transaction; and each note is indexed again and its row updated.
pub proof fn law_update_stores_rows(
    table: Seq<char>,
    ids: Seq<Seq<char>>,
    notes: Seq<(Seq<char>, Seq<char>)>,
    files: Seq<(Seq<char>, Seq<char>)>,
    e: NoteEdit,
    p: Seq<char>,
    c: Seq<char>,
    i: int,
    x: EffectView,
)
    requires
        0 <= i < ids.len(),
    ensures
        ({
            let done = many_updated(table, ids, notes, files, e, false);
            let held = many_updated(table, ids, notes, files, e, true);
            &&& stores(done, p, c) == files.contains((p, c))
            &&& !stores(held, p, c)
            &&& held.contains(EffectView::StageWrite { path: p, content: c }) == files.contains(
                (p, c),
            )
            &&& !deletes(done, p) && !deletes(held, p)
            &&& done.contains(EffectView::Reindex { path: notes[i].0, pending: true })
            &&& held.contains(EffectView::Reindex { path: notes[i].0, pending: true })
            &&& table_effects(e, ids[i]).contains(x) ==> done.contains(x) && held.contains(x)
        }),
{
    let r = refreshed(ids, notes, e);
    lemma_refreshed(ids, notes, e);
    lemma_quiet(r);
    let a = EffectView::CommitFiles { files, message: "bulk update "@ + table };
    lemma_one(a);
    lemma_in_both(seq![a], r);
    let st = staged(files);
    assert(is_quiet(st));
    lemma_quiet(st);
    lemma_in_both(st, r);
    let w = EffectView::StageWrite { path: p, content: c };
    if r.contains(w) {
        assert(r[r.index_of(w)] is StageWrite);
    }
    if st.contains(w) {
        let k = st.index_of(w);
        assert(files[k] == (p, c));
    }
    if files.contains((p, c)) {
        assert(st[files.index_of((p, c))] == w);
    }
    assert(r.contains(EffectView::Reindex { path: notes[i].0, pending: true }));
}

// ---------------------------------------------------------------------------
// Deleting
// ---------------------------------------------------------------------------
/// Whether effects take a row out of the index and out of its table.
pub open spec fn takes_row(s: Seq<EffectView>, table: Seq<char>, id: Seq<char>) -> bool {
    &&& s.contains(EffectView::Forget { id })
    &&& s.contains(
        EffectView::Run {
            sql: "DELETE FROM "@ + name_sql(table) + " WHERE id = ?1"@,
            values: seq![Some(id)],
        },
    )
}

proof fn lemma_forgotten(table: Seq<char>, id: Seq<char>)
    ensures
        takes_row(forgotten(table, id), table, id),
        is_quiet(forgotten(table, id)),
        holds_nothing(forgotten(table, id)),
        forall|x: Seq<char>| #[trigger]
            forgotten(table, id).contains(EffectView::Forget { id: x }) ==> x == id,
{
    let s = forgotten(table, id);
    assert(s[0] == EffectView::Forget { id });
    assert(s[1] == (EffectView::Run {
        sql: "DELETE FROM "@ + name_sql(table) + " WHERE id = ?1"@,
        values: seq![Some(id)],
    }));
}

/// A deletion of one row deletes its note and no other file, or holds that back within a
/// transaction, and takes the row out of the index and the table.
pub proof fn law_delete_takes_row(
    table: Seq<char>,
    id: Seq<char>,
    path: Seq<char>,
    p: Seq<char>,
    c: Seq<char>,
)
    ensures
        ({
            let done = one_deleted(table, id, path, false);
            let held = one_deleted(table, id, path, true);
            &&& deletes(done, p) == (p == path)
            &&& !deletes(held, p)
            &&& held.contains(EffectView::StageDelete { path, id })
            &&& !stores(done, p, c) && !stores(held, p, c)
            &&& takes_row(done, table, id) && takes_row(held, table, id)
        }),
{
    let f = forgotten(table, id);
    lemma_forgotten(table, id);
    lemma_quiet(f);
    let a = EffectView::DeleteFile { path, message: "delete from "@ + table + " "@ + id };
    let b = EffectView::StageDelete { path, id };
    lemma_one(a);
    lemma_one(b);
    lemma_in_both(seq![a], f);
    lemma_in_both(seq![b], f);
}

proof fn lemma_all_forgotten(table: Seq<char>, rows: Seq<(Seq<char>, Seq<char>)>)
    ensures
        forall|i: int|
            0 <= i < rows.len() ==> takes_row(
                all_forgotten(table, rows),
                table,
                (#[trigger] rows[i]).0,
            ),
        forall|x: Seq<char>| #[trigger]
            all_forgotten(table, rows).contains(EffectView::Forget { id: x }) ==> exists|i: int|
                0 <= i < rows.len() && (#[trigger] rows[i]).0 == x,
        is_quiet(all_forgotten(table, rows)),
        holds_nothing(all_forgotten(table, rows)),
    decreases rows.len(),
{
    if rows.len() > 0 {
        let d = rows.drop_last();
        let n = rows.len() - 1;
        let p = all_forgotten(table, d);
        let q = forgotten(table, rows.last().0);
        lemma_all_forgotten(table, d);
        lemma_forgotten(table, rows.last().0);
        lemma_in_both(p, q);
        let all = all_forgotten(table, rows);
        assert forall|i: int| 0 <= i < rows.len() implies takes_row(
            all,
            table,
            (#[trigger] rows[i]).0,
        ) by {
            if i < n {
                assert(d[i] == rows[i]);
                assert(takes_row(p, table, d[i].0));
            } else {
                assert(takes_row(q, table, rows[i].0));
            }
        }
        assert forall|x: Seq<char>| #[trigger]
            all.contains(EffectView::Forget { id: x }) implies exists|i: int|
            0 <= i < rows.len() && (#[trigger] rows[i]).0 == x by {
            if p.contains(EffectView::Forget { id: x }) {
                let i = choose|i: int| 0 <= i < d.len() && (#[trigger] d[i]).0 == x;
                assert(rows[i] == d[i]);
            } else {
                assert(q.contains(EffectView::Forget { id: x }));
                assert(rows[n].0 == x);
            }
        }
    }
}

/// A deletion of many rows deletes the note of each of them and no other file, or holds that
/// back within a transaction, and takes each row out of the index and the table.
pub proof fn law_delete_takes_rows(
    table: Seq<char>,
    rows: Seq<(Seq<char>, Seq<char>)>,
    i: int,
    p: Seq<char>,
    c: Seq<char>,
)
    requires
        0 <= i < rows.len(),
    ensures
        ({
            let done = many_deleted(table, rows, false);
            let held = many_deleted(table, rows, true);
            &&& takes_row(done, table, rows[i].0) && takes_row(held, table, rows[i].0)
            &&& deletes(done, p) == exists|j: int|
                0 <= j < rows.len() && (#[trigger] rows[j]).1 == p
            &&& !deletes(held, p)
            &&& held.contains(EffectView::StageDelete { path: rows[i].1, id: rows[i].0 })
            &&& !stores(done, p, c) && !stores(held, p, c)
        }),
{
    let f = all_forgotten(table, rows);
    lemma_all_forgotten(table, rows);
    lemma_quiet(f);
    let a = EffectView::DeleteFiles {
        paths: second_parts(rows),
        message: "bulk delete from "@ + table,
    };
    lemma_one(a);
    lemma_in_both(seq![a], f);
    let st = staged_deletes(rows);
    assert(is_quiet(st));
    lemma_quiet(st);
    lemma_in_both(st, f);
    assert(st[i] == (EffectView::StageDelete { path: rows[i].1, id: rows[i].0 }));
    assert(st.contains(EffectView::StageDelete { path: rows[i].1, id: rows[i].0 }));
    assert(takes_row(f, table, rows[i].0));
    if second_parts(rows).contains(p) {
        let j = second_parts(rows).index_of(p);
        assert(rows[j].1 == p);
    }
    if exists|j: int| 0 <= j < rows.len() && (#[trigger] rows[j]).1 == p {
        let j = choose|j: int| 0 <= j < rows.len() && (#[trigger] rows[j]).1 == p;
        assert(second_parts(rows)[j] == p);
    }
}

// ---------------------------------------------------------------------------
// Tables
// ---------------------------------------------------------------------------
/// A new table has its schema stored and indexed, and is made in the index.
pub proof fn law_create_stores_schema(id: Seq<char>, s: SchemaView, p: Seq<char>, c: Seq<char>)
    ensures
        ({
            let path = "zettelkasten/_typedef/"@ + id + ".md"@;
            let r = table_created(id, s);
            &&& stores(r, p, c) == (p == path && c == typedef_text(id, s))
            &&& !deletes(r, p)
            &&& r.contains(EffectView::Index { path, content: typedef_text(id, s) })
            &&& r.contains(EffectView::Run { sql: create_sql(s, true), values: Seq::empty() })
        }),
{
    let path = "zettelkasten/_typedef/"@ + id + ".md"@;
    let content = typedef_text(id, s);
    let r = table_created(id, s);
    let a = EffectView::CommitFile { path, content, message: "create table "@ + s.table_name };
    let b = seq![
        EffectView::Index { path, content },
        EffectView::Run { sql: create_sql(s, true), values: Seq::empty() },
    ];
    assert(r =~= seq![a] + b);
    lemma_one(a);
    lemma_in_both(seq![a], b);
    assert(is_quiet(b));
    lemma_quiet(b);
    assert(b[0] is Index && b[1] is Run);
    assert(b.contains(b[0]) && b.contains(b[1]));
}

/// A table that is altered has its new schema stored and indexed, and is filled anew.
pub proof fn law_alter_stores_schema(
    table: Seq<char>,
    id: Seq<char>,
    path: Seq<char>,
    s: SchemaView,
    p: Seq<char>,
    c: Seq<char>,
)
    ensures
        ({
            let r = table_altered(table, id, path, s);
            &&& stores(r, p, c) == (p == path && c == typedef_text(id, s))
            &&& !deletes(r, p)
            &&& r.contains(EffectView::Index { path, content: typedef_text(id, s) })
            &&& r.contains(EffectView::Rematerialize { table })
        }),
{
    let content = typedef_text(id, s);
    let r = table_altered(table, id, path, s);
    let a = EffectView::CommitFile { path, content, message: "alter table "@ + table };
    let b = seq![EffectView::Index { path, content }, EffectView::Rematerialize { table }];
    assert(r =~= seq![a] + b);
    lemma_one(a);
    lemma_in_both(seq![a], b);
    assert(is_quiet(b));
    lemma_quiet(b);
    assert(b.contains(b[0]) && b.contains(b[1]));
}

/// Renaming a column stores the new schema and the notes of all rows, and no other file, and
/// indexes each of them.
pub proof fn law_rename_stores_notes(
    table: Seq<char>,
    id: Seq<char>,
    path: Seq<char>,
    s: SchemaView,
    notes: Seq<(Seq<char>, Seq<char>)>,
    files: Seq<(Seq<char>, Seq<char>)>,
    old_name: Seq<char>,
    new_name: Seq<char>,
    p: Seq<char>,
    c: Seq<char>,
    i: int,
)
    ensures
        ({
            let r = column_renamed(table, id, path, s, notes, files, old_name, new_name);
            &&& stores(r, p, c) == ((p == path && c == typedef_text(id, s)) || files.contains(
                (p, c),
            ))
            &&& !deletes(r, p)
            &&& r.contains(EffectView::Index { path, content: typedef_text(id, s) })
            &&& 0 <= i < notes.len() ==> r.contains(
                EffectView::Reindex { path: notes[i].0, pending: false },
            )
            &&& r.contains(EffectView::Rematerialize { table })
        }),
{
    let content = typedef_text(id, s);
    let r = column_renamed(table, id, path, s, notes, files, old_name, new_name);
    let all = seq![(path, content)] + files;
    let a = EffectView::CommitFiles {
        files: all,
        message: "alter table "@ + table + " rename "@ + old_name + " to "@ + new_name,
    };
    let x = EffectView::Index { path, content };
    let m = EffectView::Rematerialize { table };
    let g = reindexed(notes);
    let rest = seq![x] + g + seq![m];
    assert(r =~= seq![a] + rest);
    lemma_one(a);
    lemma_one(x);
    lemma_one(m);
    lemma_in_both(seq![x], g);
    lemma_in_both(seq![x] + g, seq![m]);
    lemma_in_both(seq![a], rest);
    assert(is_quiet(g));
    lemma_quiet(rest);
    if 0 <= i < notes.len() {
        let e = EffectView::Reindex { path: notes[i].0, pending: false };
        assert(g[i] == e);
        assert(g.contains(e));
    }
    if all.contains((p, c)) {
        let k = all.index_of((p, c));
        if k > 0 {
            assert(files[k - 1] == (p, c));
        }
    }
    if p == path && c == content {
        assert(all[0] == (p, c));
    }
    if files.contains((p, c)) {
        assert(all[1 + files.index_of((p, c))] == (p, c));
    }
}

/// Dropping a table with its rows deletes the files that are to go, all of them and no other,
/// and forgets each note. Dropping it alone stores the notes that lost their type, deletes the
/// schema alone and indexes each note anew. Either way the table is taken out of the index.
pub proof fn law_drop_takes_table(
    table: Seq<char>,
    plan: DropPlan,
    notes: Seq<(Seq<char>, Seq<char>)>,
    files: Seq<(Seq<char>, Seq<char>)>,
    p: Seq<char>,
    c: Seq<char>,
    i: int,
)
    ensures
        ({
            let r = table_dropped(table, plan, notes, files);
            let drop = EffectView::Run {
                sql: "DROP TABLE IF EXISTS "@ + name_sql(table),
                values: Seq::empty(),
            };
            match plan {
                DropPlan::Skip => r.len() == 0,
                DropPlan::DeleteAll { paths, ids } => {
                    &&& deletes(r, p) == texts(paths@).contains(p)
                    &&& !stores(r, p, c)
                    &&& 0 <= i < ids@.len() ==> r.contains(EffectView::Forget { id: ids@[i]@ })
                    &&& r.contains(drop)
                },
                DropPlan::Untype { typedef, typedef_id, paths } => {
                    &&& deletes(r, p) == (p == typedef@)
                    &&& stores(r, p, c) == files.contains((p, c))
                    &&& r.contains(EffectView::Forget { id: typedef_id@ })
                    &&& 0 <= i < notes.len() ==> r.contains(
                        EffectView::Reindex { path: notes[i].0, pending: false },
                    )
                    &&& r.contains(drop)
                },
            }
        }),
{
    let r = table_dropped(table, plan, notes, files);
    let drop = EffectView::Run {
        sql: "DROP TABLE IF EXISTS "@ + name_sql(table),
        values: Seq::empty(),
    };
    lemma_one(drop);
    match plan {
        DropPlan::Skip => {},
        DropPlan::DeleteAll { paths, ids } => {
            let a = EffectView::DeleteFiles {
                paths: texts(paths@),
                message: "drop table "@ + table + " cascade"@,
            };
            let g = all_gone(texts(ids@));
            assert(r =~= seq![a] + (g + seq![drop]));
            lemma_one(a);
            lemma_in_both(g, seq![drop]);
            lemma_in_both(seq![a], g + seq![drop]);
            assert(is_quiet(g));
            lemma_quiet(g + seq![drop]);
            if 0 <= i < ids@.len() {
                assert(g[i] == EffectView::Forget { id: ids@[i]@ });
                assert(g.contains(g[i]));
            }
        },
        DropPlan::Untype { typedef, typedef_id, paths } => {
            let a = EffectView::CommitBatch {
                files,
                deleted: seq![typedef@],
                message: "drop table "@ + table,
            };
            let f = EffectView::Forget { id: typedef_id@ };
            let g = reindexed(notes);
            let rest = g + (seq![f] + seq![drop]);
            assert(r =~= seq![a] + rest);
            lemma_one(a);
            lemma_one(f);
            lemma_in_both(seq![f], seq![drop]);
            lemma_in_both(g, seq![f] + seq![drop]);
            lemma_in_both(seq![a], rest);
            assert(is_quiet(g));
            lemma_quiet(rest);
            assert(seq![typedef@].contains(p) == (p == typedef@)) by {
                assert(seq![typedef@][0] == typedef@);
            }
            if 0 <= i < notes.len() {
                let e = EffectView::Reindex { path: notes[i].0, pending: false };
                assert(g[i] == e);
                assert(g.contains(e));
            }
        },
    }
}

/// The end of a transaction stores each write that is kept and deletes each file that is to
/// go, in one commit, and no other file.
pub proof fn law_commit_stores(
    b: TransactionBuffer,
    stored: Seq<bool>,
    p: Seq<char>,
    c: Seq<char>,
)
    ensures
        stores(committed(b, stored), p, c) == kept_writes(b.writes@, b.deletes@).contains((p, c)),
        deletes(committed(b, stored), p) == kept_deletes(b.deletes@, stored).contains(p),
        committed(b, stored).len() <= 1,
{
    let files = kept_writes(b.writes@, b.deletes@);
    let deleted = kept_deletes(b.deletes@, stored);
    let a = EffectView::CommitBatch { files, deleted, message: "transaction"@ };
    lemma_one(a);
    if files.len() == 0 && deleted.len() == 0 {
        lemma_quiet(committed(b, stored));
    }
}

} // verus!
