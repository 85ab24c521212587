//! What SQL statements mean for notes: which are refused, what a row becomes,
//! how a schema changes, and what a transaction holds back.
use crate::error::{ErrorView, ZettelError};
use crate::parser::{self, is_text, is_writing, parsed_zettel, serialized};
use crate::rows::{
    apply_updates_to_zettel, build_data_zettel, find_column, renamed, rename_key_in_zettel,
    row_note, seek_column, with_updates, Cells,
};
use crate::schema::{
    build_typedef_zettel, effective_zone, numeric, is_numeric_type, typedef_meta, zone_of_column,
};
use crate::sql::{
    data_type_to_string, expr_to_string, identifier, literal, type_name_of, unquote_identifier,
    extract_references, foreign_table, AlterOperation, DropKind, InsertSource, SqlColumn, SqlExpr,
    SqlStatement,
};
use crate::text::{self, join, opt_text, texts};
use crate::textmap::{self, lookup, mapped, put, TextMap};
use crate::types::{
    columns_view, ColumnDef, ColumnView, MetaView, SchemaView, TableSchema, ZettelId, ZettelView,
    Zone,
};
use vstd::prelude::*;

verus! {

broadcast use vstd::string::group_string_axioms;

/// What a statement gives back.
#[derive(Debug, Clone)]
pub enum SqlResult {
    Rows { columns: Vec<String>, rows: Vec<Vec<String>> },
    Affected(usize),
    Done(String),
}

pub open spec fn engine(s: Seq<char>) -> ErrorView {
    ErrorView::SqlEngine(s)
}

fn refuse(msg: &str) -> (e: ZettelError)
    ensures
        e@ == engine(msg@),
{
    ZettelError::SqlEngine(text::copy(msg))
}

fn refuse2(a: &str, b: &str) -> (e: ZettelError)
    ensures
        e@ == engine(a@ + b@),
{
    ZettelError::SqlEngine(text::cat(a, b))
}

/// The result of a batch that has to be one statement.
pub fn single_result(results: Vec<SqlResult>) -> (r: Result<SqlResult, ZettelError>)
    ensures
        match r {
            Ok(x) => results@.len() == 1 && x == results@[0],
            Err(e) => results@.len() != 1 && e@ == engine("expected exactly one SQL statement"@),
        },
{
    let mut list = results;
    if list.len() != 1 {
        return Err(refuse("expected exactly one SQL statement"));
    }
    Ok(list.remove(0))
}

// ---------------------------------------------------------------------------
// Which statements are carried out
// ---------------------------------------------------------------------------
/// What is to be done about a statement.
#[derive(Debug, Clone, Copy, PartialEq, Eq, Structural)]
pub enum Action {
    CreateTable,
    Insert,
    Update,
    Delete,
    AlterTable,
    DropTables,
    Begin,
    Commit,
    Rollback,
    Query,
}

/// Why a statement is refused, if it is.
pub open spec fn refusal(s: SqlStatement) -> Option<Seq<char>> {
    match s {
        SqlStatement::Update { table, from_clause, assignments, selection } => if from_clause {
            Some(
                "UPDATE...FROM not supported: ambiguous join-to-document mapping; decompose into SELECT + individual UPDATEs"@,
            )
        } else {
            None
        },
        SqlStatement::Drop { kind, if_exists, names, cascade } => match kind {
            DropKind::Table => None,
            DropKind::Index => Some(
                "DROP INDEX not supported: indexes are managed automatically and rebuilt on reindex"@,
            ),
            DropKind::View => Some("DROP VIEW not supported: views cannot be created"@),
            DropKind::Other(k) => Some("DROP "@ + k@ + " not supported, only DROP TABLE"@),
        },
        SqlStatement::CreateIndex => Some(
            "CREATE INDEX not supported: indexes on the materialized cache are rebuilt from zettel data on reindex"@,
        ),
        SqlStatement::CreateView => Some(
            "CREATE VIEW not supported: views are not stored as zettels and are lost on reindex"@,
        ),
        SqlStatement::CreateVirtualTable => Some(
            "CREATE VIRTUAL TABLE not supported: virtual tables have no zettel representation"@,
        ),
        SqlStatement::CreateTrigger => Some(
            "CREATE TRIGGER not supported: triggers fire on cache mutations, not git commits"@,
        ),
        SqlStatement::AlterIndex => Some(
            "ALTER INDEX not supported: indexes are managed automatically and rebuilt on reindex"@,
        ),
        _ => None,
    }
}

pub open spec fn action_of(s: SqlStatement) -> Action {
    match s {
        SqlStatement::CreateTable { name, if_not_exists, columns } => Action::CreateTable,
        SqlStatement::Insert {
            replace_into,
            or_clause,
            on_clause,
            table,
            columns,
            source,
        } => Action::Insert,
        SqlStatement::Update { table, from_clause, assignments, selection } => Action::Update,
        SqlStatement::Delete { .. } => Action::Delete,
        SqlStatement::AlterTable { name, operations } => Action::AlterTable,
        SqlStatement::Drop { kind, if_exists, names, cascade } => Action::DropTables,
        SqlStatement::Begin => Action::Begin,
        SqlStatement::Commit => Action::Commit,
        SqlStatement::Rollback => Action::Rollback,
        _ => Action::Query,
    }
}

/// Decides what is to be done about a statement. What would bypass the notes is
/// refused; what is not known goes to the index as a query.
pub fn dispatch(stmt: &SqlStatement) -> (r: Result<Action, ZettelError>)
    ensures
        match refusal(*stmt) {
            Some(m) => r matches Err(e) && e@ == engine(m),
            None => r == Ok::<Action, ZettelError>(action_of(*stmt)),
        },
{
    match stmt {
        SqlStatement::CreateTable { .. } => Ok(Action::CreateTable),
        SqlStatement::Insert { .. } => Ok(Action::Insert),
        SqlStatement::Update { from_clause, .. } => {
            if *from_clause {
                return Err(
                    refuse(
                        "UPDATE...FROM not supported: ambiguous join-to-document mapping; decompose into SELECT + individual UPDATEs",
                    ),
                );
            }
            Ok(Action::Update)
        },
        SqlStatement::Delete { .. } => Ok(Action::Delete),
        SqlStatement::AlterTable { .. } => Ok(Action::AlterTable),
        SqlStatement::Drop { kind, .. } => match kind {
            DropKind::Table => Ok(Action::DropTables),
            DropKind::Index => Err(
                refuse(
                    "DROP INDEX not supported: indexes are managed automatically and rebuilt on reindex",
                ),
            ),
            DropKind::View => Err(refuse("DROP VIEW not supported: views cannot be created")),
            DropKind::Other(k) => Err(
                ZettelError::SqlEngine(
                    text::cat3("DROP ", k.as_str(), " not supported, only DROP TABLE"),
                ),
            ),
        },
        SqlStatement::CreateIndex => Err(
            refuse(
                "CREATE INDEX not supported: indexes on the materialized cache are rebuilt from zettel data on reindex",
            ),
        ),
        SqlStatement::CreateView => Err(
            refuse(
                "CREATE VIEW not supported: views are not stored as zettels and are lost on reindex",
            ),
        ),
        SqlStatement::CreateVirtualTable => Err(
            refuse(
                "CREATE VIRTUAL TABLE not supported: virtual tables have no zettel representation",
            ),
        ),
        SqlStatement::CreateTrigger => Err(
            refuse(
                "CREATE TRIGGER not supported: triggers fire on cache mutations, not git commits",
            ),
        ),
        SqlStatement::AlterIndex => Err(
            refuse(
                "ALTER INDEX not supported: indexes are managed automatically and rebuilt on reindex",
            ),
        ),
        SqlStatement::Begin => Ok(Action::Begin),
        SqlStatement::Commit => Ok(Action::Commit),
        SqlStatement::Rollback => Ok(Action::Rollback),
        SqlStatement::Other(_) => Ok(Action::Query),
    }
}

// ---------------------------------------------------------------------------
// Transactions
// ---------------------------------------------------------------------------
#[derive(Debug, Clone)]
pub struct PendingWrite {
    pub path: String,
    pub content: String,
}

#[derive(Debug, Clone)]
pub struct PendingDelete {
    pub path: String,
    pub zettel_id: String,
}

/// The writes and deletions that a transaction holds back.
#[derive(Debug, Clone)]
pub struct TransactionBuffer {
    pub writes: Vec<PendingWrite>,
    pub deletes: Vec<PendingDelete>,
}

impl Default for TransactionBuffer {
    fn default() -> (b: TransactionBuffer)
        ensures
            b.writes@.len() == 0,
            b.deletes@.len() == 0,
    {
        TransactionBuffer { writes: Vec::new(), deletes: Vec::new() }
    }
}

/// What the last write to a path wrote.
pub open spec fn last_write(ws: Seq<PendingWrite>, path: Seq<char>) -> Option<Seq<char>>
    decreases ws.len(),
{
    if ws.len() == 0 {
        None
    } else if ws.last().path@ == path {
        Some(ws.last().content@)
    } else {
        last_write(ws.drop_last(), path)
    }
}

pub open spec fn is_deleted(ds: Seq<PendingDelete>, path: Seq<char>) -> bool {
    exists|i: int| 0 <= i < ds.len() && (#[trigger] ds[i]).path@ == path
}

/// What a read of a path gives within a transaction: what was written last;
/// nothing where it was deleted; else the store is asked.
pub open spec fn buffered_read(b: Option<TransactionBuffer>, path: Seq<char>) -> Result<
    Option<Seq<char>>,
    ErrorView,
> {
    match b {
        None => Ok(None),
        Some(t) => match last_write(t.writes@, path) {
            Some(c) => Ok(Some(c)),
            None => if is_deleted(t.deletes@, path) {
                Err(ErrorView::NotFound("deleted in transaction: "@ + path))
            } else {
                Ok(None)
            },
        },
    }
}

impl TransactionBuffer {
    fn deletes_path(&self, path: &str) -> (r: bool)
        ensures
            r == is_deleted(self.deletes@, path@),
    {
        let mut i: usize = 0;
        while i < self.deletes.len()
            invariant
                i <= self.deletes@.len(),
                forall|j: int| 0 <= j < i ==> (#[trigger] self.deletes@[j]).path@ != path@,
            decreases self.deletes@.len() - i,
        {
            if text::same(self.deletes[i].path.as_str(), path) {
                return true;
            }
            i = i + 1;
        }
        false
    }

    /// Holds a write back.
    pub fn write(&mut self, path: String, content: String)
        ensures
            final(self).writes@ == old(self).writes@.push((PendingWrite { path, content })),
            final(self).deletes@ == old(self).deletes@,
    {
        self.writes.push(PendingWrite { path, content });
    }

    /// Holds a deletion back.
    pub fn delete(&mut self, path: String, zettel_id: String)
        ensures
            final(self).writes@ == old(self).writes@,
            final(self).deletes@ == old(self).deletes@.push((PendingDelete { path, zettel_id })),
    {
        self.deletes.push(PendingDelete { path, zettel_id });
    }
}

/// Reads a path through a transaction; `None` where the store has to be asked.
pub fn read_buffered(txn: &Option<TransactionBuffer>, path: &str) -> (r: Result<
    Option<String>,
    ZettelError,
>)
    ensures
        match r {
            Ok(o) => buffered_read(*txn, path@) == Ok::<Option<Seq<char>>, ErrorView>(opt_text(o)),
            Err(e) => buffered_read(*txn, path@) == Err::<Option<Seq<char>>, ErrorView>(e@),
        },
{
    if let Some(buf) = txn {
        let ghost ws = buf.writes@;
        let mut i: usize = buf.writes.len();
        proof {
            assert(ws.take(i as int) =~= ws);
        }
        while i > 0
            invariant
                i <= buf.writes@.len(),
                ws == buf.writes@,
                last_write(ws.take(i as int), path@) == last_write(ws, path@),
            decreases i,
        {
            proof {
                assert(ws.take(i as int).last() == ws[i - 1]);
                assert(ws.take(i as int).drop_last() =~= ws.take(i - 1));
            }
            if text::same(buf.writes[i - 1].path.as_str(), path) {
                return Ok(Some(text::copy(buf.writes[i - 1].content.as_str())));
            }
            i = i - 1;
        }
        if buf.deletes_path(path) {
            return Err(ZettelError::NotFound(text::cat("deleted in transaction: ", path)));
        }
    }
    Ok(None)
}

/// Begins a transaction, unless one is active.
pub fn begin(txn: &mut Option<TransactionBuffer>) -> (r: Result<(), ZettelError>)
    ensures
        match r {
            Ok(_) => *old(txn) is None && (*final(txn) matches Some(b) && b.writes@.len() == 0
                && b.deletes@.len() == 0),
            Err(e) => *old(txn) is Some && *final(txn) == *old(txn) && e@ == engine(
                "transaction already active"@,
            ),
        },
{
    if txn.is_some() {
        return Err(refuse("transaction already active"));
    }
    *txn = Some(TransactionBuffer::default());
    Ok(())
}

/// Refuses to end a transaction where none is active.
pub fn check_active(txn: &Option<TransactionBuffer>) -> (r: Result<(), ZettelError>)
    ensures
        match r {
            Ok(_) => *txn is Some,
            Err(e) => *txn is None && e@ == engine("no active transaction"@),
        },
{
    if txn.is_none() {
        return Err(refuse("no active transaction"));
    }
    Ok(())
}

/// The writes of a transaction that are carried out: those to paths that it
/// does not delete.
pub open spec fn kept_writes(ws: Seq<PendingWrite>, ds: Seq<PendingDelete>) -> Seq<
    (Seq<char>, Seq<char>),
>
    decreases ws.len(),
{
    if ws.len() == 0 {
        Seq::empty()
    } else if is_deleted(ds, ws.last().path@) {
        kept_writes(ws.drop_last(), ds)
    } else {
        kept_writes(ws.drop_last(), ds).push((ws.last().path@, ws.last().content@))
    }
}

/// The deletions that are carried out: those of files that the store has.
pub open spec fn kept_deletes(ds: Seq<PendingDelete>, stored: Seq<bool>) -> Seq<Seq<char>>
    decreases ds.len(),
{
    if ds.len() == 0 {
        Seq::empty()
    } else if stored[ds.len() - 1] {
        kept_deletes(ds.drop_last(), stored).push(ds.last().path@)
    } else {
        kept_deletes(ds.drop_last(), stored)
    }
}

pub open spec fn files_view(s: Seq<(String, String)>) -> Seq<(Seq<char>, Seq<char>)> {
    Seq::new(s.len(), |i: int| (s[i].0@, s[i].1@))
}

/// What a commit writes and deletes. `stored` says of each deletion whether the
/// store has the file.
pub fn plan_commit(buf: &TransactionBuffer, stored: &Vec<bool>) -> (r: (
    Vec<(String, String)>,
    Vec<String>,
))
    requires
        stored@.len() == buf.deletes@.len(),
    ensures
        files_view(r.0@) == kept_writes(buf.writes@, buf.deletes@),
        texts(r.1@) == kept_deletes(buf.deletes@, stored@),
{
    let ghost ws = buf.writes@;
    let ghost ds = buf.deletes@;
    let mut writes: Vec<(String, String)> = Vec::new();
    let mut i: usize = 0;
    proof {
        assert(ws.take(0) =~= Seq::<PendingWrite>::empty());
        assert(files_view(writes@) =~= Seq::<(Seq<char>, Seq<char>)>::empty());
    }
    while i < buf.writes.len()
        invariant
            i <= buf.writes@.len(),
            ws == buf.writes@,
            ds == buf.deletes@,
            files_view(writes@) == kept_writes(ws.take(i as int), ds),
        decreases buf.writes@.len() - i,
    {
        proof {
            let t = ws.take(i + 1);
            assert(t.drop_last() =~= ws.take(i as int));
            assert(t.last() == ws[i as int]);
        }
        let w = &buf.writes[i];
        if !buf.deletes_path(w.path.as_str()) {
            let f = (text::copy(w.path.as_str()), text::copy(w.content.as_str()));
            let ghost before = writes@;
            writes.push(f);
            proof {
                assert(files_view(writes@) =~= files_view(before).push((f.0@, f.1@)));
            }
        }
        i = i + 1;
    }
    let mut deletes: Vec<String> = Vec::new();
    let mut k: usize = 0;
    proof {
        assert(ws.take(i as int) =~= ws);
        assert(ds.take(0) =~= Seq::<PendingDelete>::empty());
        assert(texts(deletes@) =~= Seq::<Seq<char>>::empty());
    }
    while k < buf.deletes.len()
        invariant
            k <= buf.deletes@.len() == stored@.len(),
            ds == buf.deletes@,
            texts(deletes@) == kept_deletes(ds.take(k as int), stored@),
        decreases buf.deletes@.len() - k,
    {
        proof {
            let t = ds.take(k + 1);
            assert(t.drop_last() =~= ds.take(k as int));
            assert(t.last() == ds[k as int]);
        }
        if stored[k] {
            let p = text::copy(buf.deletes[k].path.as_str());
            proof {
                text::lemma_texts_push(deletes@, p);
            }
            deletes.push(p);
        }
        k = k + 1;
    }
    proof {
        assert(ds.take(k as int) =~= ds);
    }
    (writes, deletes)
}

// ---------------------------------------------------------------------------
// Creating a table
// ---------------------------------------------------------------------------
/// Whether a name is kept for the index itself.
pub open spec fn is_reserved(name: Seq<char>) -> bool {
    name == "zettels"@ || text::has_prefix(name, "_zdb_"@) || text::has_prefix(name, "sqlite_"@)
}

pub fn is_reserved_table(name: &str) -> (r: bool)
    ensures
        r == is_reserved(name@),
{
    text::same(name, "zettels") || text::starts_with(name, "_zdb_") || text::starts_with(
        name,
        "sqlite_",
    )
}

/// Whether a column is there without being declared.
pub open spec fn is_implicit(name: Seq<char>) -> bool {
    name == "id"@ || name == "type"@ || name == "title"@
}

/// The column of a schema that a declaration makes.
pub open spec fn declared_column(c: SqlColumn) -> ColumnView {
    let references = foreign_table(c.options@, 0);
    let data_type = type_name_of(c.data_type);
    ColumnView {
        name: text::lowered(c.name@),
        data_type,
        references,
        zone: Some(
            if references is Some {
                Zone::Reference
            } else if numeric(data_type) {
                Zone::Frontmatter
            } else {
                Zone::Body
            },
        ),
        required: false,
        search_boost: None,
        allowed_values: None,
        default_value: None,
    }
}

/// The columns of a schema that declarations make.
pub open spec fn declared_columns(cols: Seq<SqlColumn>) -> Seq<ColumnView>
    decreases cols.len(),
{
    if cols.len() == 0 {
        Seq::empty()
    } else if is_implicit(text::lowered(cols.last().name@)) {
        declared_columns(cols.drop_last())
    } else {
        declared_columns(cols.drop_last()).push(declared_column(cols.last()))
    }
}

/// The columns of a schema from their declarations.
pub fn extract_columns(cols: &Vec<SqlColumn>) -> (r: Vec<ColumnDef>)
    ensures
        columns_view(r@) == declared_columns(cols@),
{
    let mut out: Vec<ColumnDef> = Vec::new();
    let mut i: usize = 0;
    proof {
        assert(cols@.take(0) =~= Seq::<SqlColumn>::empty());
        assert(columns_view(out@) =~= Seq::<ColumnView>::empty());
    }
    while i < cols.len()
        invariant
            i <= cols@.len(),
            columns_view(out@) == declared_columns(cols@.take(i as int)),
        decreases cols@.len() - i,
    {
        let col = &cols[i];
        proof {
            let t = cols@.take(i + 1);
            assert(t.drop_last() =~= cols@.take(i as int));
            assert(t.last() == cols@[i as int]);
        }
        let name = text::to_lower(col.name.as_str());
        if !text::same(name.as_str(), "id") && !text::same(name.as_str(), "type") && !text::same(
            name.as_str(),
            "title",
        ) {
            let data_type = data_type_to_string(col.data_type);
            let references = extract_references(&col.options);
            let zone = if references.is_some() {
                Zone::Reference
            } else if is_numeric_type(data_type.as_str()) {
                Zone::Frontmatter
            } else {
                Zone::Body
            };
            let c = ColumnDef {
                name,
                data_type,
                references,
                zone: Some(zone),
                required: false,
                search_boost: None,
                allowed_values: None,
                default_value: None,
            };
            let ghost before = out@;
            out.push(c);
            proof {
                assert(columns_view(out@) =~= columns_view(before).push(c@));
            }
        }
        i = i + 1;
    }
    proof {
        assert(cols@.take(i as int) =~= cols@);
    }
    out
}

/// What comes of the creation of a table.
#[derive(Debug)]
pub enum CreatePlan {
    /// The table is there already, and that is allowed.
    Skip,
    Create(TableSchema),
}

pub open spec fn created_schema(name: Seq<char>, cols: Seq<SqlColumn>) -> SchemaView {
    SchemaView {
        table_name: identifier(name),
        columns: declared_columns(cols),
        crdt_strategy: None,
        template_sections: Seq::empty(),
    }
}

/// Decides about the creation of a table. `present` says whether there is one of
/// that name.
pub fn plan_create_table(
    name: &str,
    present: bool,
    if_not_exists: bool,
    columns: &Vec<SqlColumn>,
) -> (r: Result<CreatePlan, ZettelError>)
    ensures
        if is_reserved(identifier(name@)) {
            r matches Err(e) && e@ == engine("reserved table name: "@ + identifier(name@))
        } else if present && if_not_exists {
            r == Ok::<CreatePlan, ZettelError>(CreatePlan::Skip)
        } else if present {
            r matches Err(e) && e@ == engine("table already exists: "@ + identifier(name@))
        } else {
            r matches Ok(CreatePlan::Create(s)) && s@ == created_schema(name@, columns@)
        },
{
    let table_name = unquote_identifier(name);
    if is_reserved_table(table_name.as_str()) {
        return Err(refuse2("reserved table name: ", table_name.as_str()));
    }
    if present {
        if if_not_exists {
            return Ok(CreatePlan::Skip);
        }
        return Err(refuse2("table already exists: ", table_name.as_str()));
    }
    let s = TableSchema {
        table_name,
        columns: extract_columns(columns),
        crdt_strategy: None,
        template_sections: Vec::new(),
    };
    proof {
        assert(s@.template_sections =~= Seq::<Seq<char>>::empty());
    }
    Ok(CreatePlan::Create(s))
}

/// The text of the note that holds a schema.
pub open spec fn typedef_text(id: Seq<char>, s: SchemaView) -> Seq<char> {
    serialized(typedef_meta(id, s), Seq::empty(), Seq::empty())
}

pub fn typedef_content(id: &ZettelId, schema: &TableSchema) -> (r: String)
    ensures
        r@ == typedef_text(id.0@, schema@),
        is_text(typedef_meta(id.0@, schema@), Seq::empty(), Seq::empty(), r@),
{
    let z = build_typedef_zettel(id, schema);
    proof {
        assert(z@.body =~= Seq::<char>::empty());
        assert(z@.reference =~= Seq::<char>::empty());
    }
    parser::serialize(&z)
}

// ---------------------------------------------------------------------------
// Inserting rows
// ---------------------------------------------------------------------------
/// Why an insertion is refused by its form, if it is.
pub open spec fn insert_refusal(replace_into: bool, or_clause: bool, on_clause: bool) -> Option<
    Seq<char>,
> {
    if replace_into {
        Some(
            "REPLACE INTO not supported: bypasses git storage; use explicit DELETE + INSERT instead"@,
        )
    } else if or_clause {
        Some(
            "INSERT OR REPLACE/UPSERT not supported: bypasses git storage; use explicit INSERT + UPDATE instead"@,
        )
    } else if on_clause {
        Some(
            "INSERT...ON CONFLICT not supported: bypasses git storage; use explicit INSERT + UPDATE instead"@,
        )
    } else {
        None
    }
}

/// Refuses insertions that would replace what is there.
pub fn check_insert(replace_into: bool, or_clause: bool, on_clause: bool) -> (r: Result<
    (),
    ZettelError,
>)
    ensures
        match insert_refusal(replace_into, or_clause, on_clause) {
            Some(m) => r matches Err(e) && e@ == engine(m),
            None => r is Ok,
        },
{
    if replace_into {
        return Err(
            refuse(
                "REPLACE INTO not supported: bypasses git storage; use explicit DELETE + INSERT instead",
            ),
        );
    }
    if or_clause {
        return Err(
            refuse(
                "INSERT OR REPLACE/UPSERT not supported: bypasses git storage; use explicit INSERT + UPDATE instead",
            ),
        );
    }
    if on_clause {
        return Err(
            refuse(
                "INSERT...ON CONFLICT not supported: bypasses git storage; use explicit INSERT + UPDATE instead",
            ),
        );
    }
    Ok(())
}

pub open spec fn literals(row: Seq<SqlExpr>) -> Result<Seq<Seq<char>>, ErrorView>
    decreases row.len(),
{
    if row.len() == 0 {
        Ok(Seq::empty())
    } else {
        match literals(row.drop_last()) {
            Err(e) => Err(e),
            Ok(l) => match literal(row.last()) {
                Err(e) => Err(e),
                Ok(s) => Ok(l.push(s)),
            },
        }
    }
}

proof fn lemma_literals_error(row: Seq<SqlExpr>, k: int)
    requires
        0 <= k <= row.len(),
        literals(row.take(k)) is Err,
    ensures
        literals(row) == literals(row.take(k)),
    decreases row.len(),
{
    if k < row.len() {
        assert(row.drop_last().take(k) =~= row.take(k));
        lemma_literals_error(row.drop_last(), k);
    } else {
        assert(row.take(k) =~= row);
    }
}

/// The texts of a row of literals.
pub fn extract_values(exprs: &Vec<SqlExpr>) -> (r: Result<Vec<String>, ZettelError>)
    ensures
        match r {
            Ok(v) => literals(exprs@) == Ok::<Seq<Seq<char>>, ErrorView>(texts(v@)),
            Err(e) => literals(exprs@) == Err::<Seq<Seq<char>>, ErrorView>(e@),
        },
{
    let mut out: Vec<String> = Vec::new();
    let mut i: usize = 0;
    proof {
        assert(exprs@.take(0) =~= Seq::<SqlExpr>::empty());
        assert(texts(out@) =~= Seq::<Seq<char>>::empty());
    }
    while i < exprs.len()
        invariant
            i <= exprs@.len(),
            literals(exprs@.take(i as int)) == Ok::<Seq<Seq<char>>, ErrorView>(texts(out@)),
        decreases exprs@.len() - i,
    {
        proof {
            let t = exprs@.take(i + 1);
            assert(t.drop_last() =~= exprs@.take(i as int));
            assert(t.last() == exprs@[i as int]);
        }
        match expr_to_string(&exprs[i]) {
            Ok(s) => {
                proof {
                    text::lemma_texts_push(out@, s);
                }
                out.push(s);
            },
            Err(e) => {
                proof {
                    lemma_literals_error(exprs@, i + 1);
                }
                return Err(e);
            },
        }
        i = i + 1;
    }
    proof {
        assert(exprs@.take(i as int) =~= exprs@);
    }
    Ok(out)
}

pub open spec fn rows_view(s: Seq<Vec<String>>) -> Seq<Seq<Seq<char>>> {
    Seq::new(s.len(), |i: int| texts(s[i]@))
}

pub open spec fn literal_rows(rows: Seq<Vec<SqlExpr>>) -> Result<Seq<Seq<Seq<char>>>, ErrorView>
    decreases rows.len(),
{
    if rows.len() == 0 {
        Ok(Seq::empty())
    } else {
        match literal_rows(rows.drop_last()) {
            Err(e) => Err(e),
            Ok(l) => match literals(rows.last()@) {
                Err(e) => Err(e),
                Ok(r) => Ok(l.push(r)),
            },
        }
    }
}

proof fn lemma_rows_error(rows: Seq<Vec<SqlExpr>>, k: int)
    requires
        0 <= k <= rows.len(),
        literal_rows(rows.take(k)) is Err,
    ensures
        literal_rows(rows) == literal_rows(rows.take(k)),
    decreases rows.len(),
{
    if k < rows.len() {
        assert(rows.drop_last().take(k) =~= rows.take(k));
        lemma_rows_error(rows.drop_last(), k);
    } else {
        assert(rows.take(k) =~= rows);
    }
}

/// The rows that an insertion gives.
pub open spec fn source_rows(source: InsertSource) -> Result<Seq<Seq<Seq<char>>>, ErrorView> {
    match source {
        InsertSource::Values(rows) => literal_rows(rows@),
        InsertSource::Query => Err(engine("only VALUES clause supported"@)),
        InsertSource::Missing => Err(engine("missing VALUES clause"@)),
    }
}

/// The rows of an insertion, which have to be literals.
pub fn insert_rows(source: &InsertSource) -> (r: Result<Vec<Vec<String>>, ZettelError>)
    ensures
        match r {
            Ok(v) => source_rows(*source) == Ok::<Seq<Seq<Seq<char>>>, ErrorView>(rows_view(v@)),
            Err(e) => source_rows(*source) == Err::<Seq<Seq<Seq<char>>>, ErrorView>(e@),
        },
{
    let rows = match source {
        InsertSource::Values(rows) => rows,
        InsertSource::Query => {
            return Err(refuse("only VALUES clause supported"));
        },
        InsertSource::Missing => {
            return Err(refuse("missing VALUES clause"));
        },
    };
    let mut out: Vec<Vec<String>> = Vec::new();
    let mut i: usize = 0;
    proof {
        assert(rows@.take(0) =~= Seq::<Vec<SqlExpr>>::empty());
        assert(rows_view(out@) =~= Seq::<Seq<Seq<char>>>::empty());
    }
    while i < rows.len()
        invariant
            i <= rows@.len(),
            literal_rows(rows@.take(i as int)) == Ok::<Seq<Seq<Seq<char>>>, ErrorView>(
                rows_view(out@),
            ),
        decreases rows@.len() - i,
    {
        proof {
            let t = rows@.take(i + 1);
            assert(t.drop_last() =~= rows@.take(i as int));
            assert(t.last() == rows@[i as int]);
        }
        match extract_values(&rows[i]) {
            Ok(v) => {
                let ghost before = out@;
                out.push(v);
                proof {
                    assert(rows_view(out@) =~= rows_view(before).push(texts(v@)));
                }
            },
            Err(e) => {
                proof {
                    lemma_rows_error(rows@, i + 1);
                }
                return Err(e);
            },
        }
        i = i + 1;
    }
    proof {
        assert(rows@.take(i as int) =~= rows@);
    }
    Ok(out)
}

/// Names and values, paired; of a name twice the last value counts.
pub open spec fn paired(names: Seq<Seq<char>>, vals: Seq<Seq<char>>, n: int) -> Cells
    decreases n,
{
    if n <= 0 {
        Seq::empty()
    } else {
        put(paired(names, vals, n - 1), names[n - 1], vals[n - 1])
    }
}

/// The values with the defaults of columns that have none.
pub open spec fn with_defaults(cs: Seq<ColumnView>, cells: Cells) -> Cells
    decreases cs.len(),
{
    if cs.len() == 0 {
        cells
    } else {
        let p = with_defaults(cs.drop_last(), cells);
        match (lookup(p, cs.last().name), cs.last().default_value) {
            (None, Some(d)) => put(p, cs.last().name, d),
            _ => p,
        }
    }
}

pub open spec fn value_refused(c: ColumnView, val: Seq<char>) -> bool {
    match c.allowed_values {
        Some(l) => val.len() > 0 && !l.contains(val),
        None => false,
    }
}

pub open spec fn refused_value(c: ColumnView, val: Seq<char>) -> ErrorView {
    ErrorView::Validation(
        "column '"@ + c.name + "': value '"@ + val + "' not in allowed values "@ + text::debugged(
            c.allowed_values->0,
        ),
    )
}

/// The first column whose value is not allowed, as an error.
pub open spec fn allowed_error(cs: Seq<ColumnView>, cells: Cells) -> Option<ErrorView>
    decreases cs.len(),
{
    if cs.len() == 0 {
        None
    } else {
        match allowed_error(cs.drop_last(), cells) {
            Some(e) => Some(e),
            None => match lookup(cells, cs.last().name) {
                Some(v) => if value_refused(cs.last(), v) {
                    Some(refused_value(cs.last(), v))
                } else {
                    None
                },
                None => None,
            },
        }
    }
}

proof fn lemma_allowed_error(cs: Seq<ColumnView>, cells: Cells, k: int)
    requires
        0 <= k <= cs.len(),
        allowed_error(cs.take(k), cells) is Some,
    ensures
        allowed_error(cs, cells) == allowed_error(cs.take(k), cells),
    decreases cs.len(),
{
    if k < cs.len() {
        assert(cs.drop_last().take(k) =~= cs.take(k));
        lemma_allowed_error(cs.drop_last(), cells, k);
    } else {
        assert(cs.take(k) =~= cs);
    }
}

/// Refuses values that their column does not allow; an empty value always is.
pub fn check_allowed(columns: &Vec<ColumnDef>, cells: &TextMap<String>) -> (r: Result<
    (),
    ZettelError,
>)
    ensures
        match allowed_error(columns_view(columns@), mapped(cells@)) {
            Some(x) => r matches Err(e) && e@ == x,
            None => r is Ok,
        },
{
    let ghost cs = columns_view(columns@);
    let ghost cv = mapped(cells@);
    let mut i: usize = 0;
    proof {
        assert(cs.take(0) =~= Seq::<ColumnView>::empty());
    }
    while i < columns.len()
        invariant
            i <= columns@.len(),
            cs == columns_view(columns@),
            cv == mapped(cells@),
            allowed_error(cs.take(i as int), cv) is None,
        decreases columns@.len() - i,
    {
        let c = &columns[i];
        proof {
            let t = cs.take(i + 1);
            assert(t.drop_last() =~= cs.take(i as int));
            assert(t.last() == c@);
            textmap::lemma_mapped(cells@, c@.name);
        }
        if let Some(allowed) = &c.allowed_values {
            if let Some(v) = cells.get(c.name.as_str()) {
                if !v.as_str().is_empty() && !text::contains_text(allowed, v.as_str()) {
                    let d = text::debug_list(allowed);
                    let mut m = text::cat3("column '", c.name.as_str(), "': value '");
                    m.append(v.as_str());
                    m.append("' not in allowed values ");
                    m.append(d.as_str());
                    proof {
                        lemma_allowed_error(cs, cv, i + 1);
                    }
                    return Err(ZettelError::Validation(m));
                }
            }
        }
        i = i + 1;
    }
    proof {
        assert(cs.take(i as int) =~= cs);
    }
    Ok(())
}

/// The column values of a row: as many as there are names, with defaults, and
/// all of them allowed.
pub open spec fn row_cells_of(
    cs: Seq<ColumnView>,
    names: Seq<Seq<char>>,
    row: Seq<Seq<char>>,
) -> Result<Cells, ErrorView> {
    if names.len() != row.len() {
        Err(engine("column count doesn't match value count"@))
    } else {
        let cells = with_defaults(cs, paired(names, row, names.len() as int));
        match allowed_error(cs, cells) {
            Some(e) => Err(e),
            None => Ok(cells),
        }
    }
}

pub fn row_cells(columns: &Vec<ColumnDef>, names: &Vec<String>, row: &Vec<String>) -> (r: Result<
    TextMap<String>,
    ZettelError,
>)
    ensures
        match r {
            Ok(m) => row_cells_of(columns_view(columns@), texts(names@), texts(row@)) == Ok::<
                Cells,
                ErrorView,
            >(mapped(m@)) && m.sorted(),
            Err(e) => row_cells_of(columns_view(columns@), texts(names@), texts(row@)) == Err::<
                Cells,
                ErrorView,
            >(e@),
        },
{
    let ghost cs = columns_view(columns@);
    let ghost nv = texts(names@);
    let ghost rv = texts(row@);
    if names.len() != row.len() {
        return Err(refuse("column count doesn't match value count"));
    }
    let mut cells: TextMap<String> = TextMap::new();
    let mut i: usize = 0;
    proof {
        assert(mapped(cells@) =~= Seq::<(Seq<char>, Seq<char>)>::empty());
    }
    while i < names.len()
        invariant
            i <= names@.len() == row@.len(),
            nv == texts(names@),
            rv == texts(row@),
            mapped(cells@) == paired(nv, rv, i as int),
            cells.sorted(),
        decreases names@.len() - i,
    {
        let v = text::copy(row[i].as_str());
        proof {
            assert(nv[i as int] == names@[i as int]@);
            assert(rv[i as int] == row@[i as int]@);
            textmap::lemma_mapped_put(cells@, names@[i as int]@, v);
        }
        cells.insert(text::copy(names[i].as_str()), v);
        i = i + 1;
    }
    let ghost base = mapped(cells@);
    let mut k: usize = 0;
    proof {
        assert(cs.take(0) =~= Seq::<ColumnView>::empty());
    }
    while k < columns.len()
        invariant
            k <= columns@.len(),
            cs == columns_view(columns@),
            mapped(cells@) == with_defaults(cs.take(k as int), base),
            cells.sorted(),
        decreases columns@.len() - k,
    {
        let c = &columns[k];
        proof {
            let t = cs.take(k + 1);
            assert(t.drop_last() =~= cs.take(k as int));
            assert(t.last() == c@);
            textmap::lemma_mapped(cells@, c@.name);
        }
        if !cells.contains_key(c.name.as_str()) {
            if let Some(d) = &c.default_value {
                let v = text::copy(d.as_str());
                proof {
                    textmap::lemma_mapped_put(cells@, c@.name, v);
                }
                cells.insert(text::copy(c.name.as_str()), v);
            }
        }
        k = k + 1;
    }
    proof {
        assert(cs.take(k as int) =~= cs);
    }
    match check_allowed(columns, &cells) {
        Ok(_) => Ok(cells),
        Err(e) => Err(e),
    }
}

/// The notes that a row refers to: the values of its reference columns.
pub open spec fn referenced(cs: Seq<ColumnView>, cells: Cells) -> Seq<Seq<char>>
    decreases cs.len(),
{
    if cs.len() == 0 {
        Seq::empty()
    } else {
        let p = referenced(cs.drop_last(), cells);
        match (cs.last().references, lookup(cells, cs.last().name)) {
            (Some(_), Some(v)) => if v.len() > 0 {
                p.push(v)
            } else {
                p
            },
            _ => p,
        }
    }
}

pub fn referenced_ids(columns: &Vec<ColumnDef>, cells: &TextMap<String>) -> (r: Vec<String>)
    ensures
        texts(r@) == referenced(columns_view(columns@), mapped(cells@)),
{
    let ghost cs = columns_view(columns@);
    let ghost cv = mapped(cells@);
    let mut out: Vec<String> = Vec::new();
    let mut i: usize = 0;
    proof {
        assert(cs.take(0) =~= Seq::<ColumnView>::empty());
        assert(texts(out@) =~= Seq::<Seq<char>>::empty());
    }
    while i < columns.len()
        invariant
            i <= columns@.len(),
            cs == columns_view(columns@),
            cv == mapped(cells@),
            texts(out@) == referenced(cs.take(i as int), cv),
        decreases columns@.len() - i,
    {
        let c = &columns[i];
        proof {
            let t = cs.take(i + 1);
            assert(t.drop_last() =~= cs.take(i as int));
            assert(t.last() == c@);
            textmap::lemma_mapped(cells@, c@.name);
        }
        if c.references.is_some() {
            if let Some(v) = cells.get(c.name.as_str()) {
                if !v.as_str().is_empty() {
                    let s = text::copy(v.as_str());
                    proof {
                        text::lemma_texts_push(out@, s);
                    }
                    out.push(s);
                }
            }
        }
        i = i + 1;
    }
    proof {
        assert(cs.take(i as int) =~= cs);
    }
    out
}

/// The first of some notes that was not found.
pub open spec fn first_missing(ids: Seq<Seq<char>>, found: Seq<bool>) -> Option<Seq<char>>
    decreases ids.len(),
{
    if ids.len() == 0 {
        None
    } else {
        match first_missing(ids.drop_last(), found) {
            Some(x) => Some(x),
            None => if found[ids.len() - 1] {
                None
            } else {
                Some(ids.last())
            },
        }
    }
}

proof fn lemma_missing_stays(ids: Seq<Seq<char>>, found: Seq<bool>, k: int)
    requires
        0 <= k <= ids.len(),
        first_missing(ids.take(k), found) is Some,
    ensures
        first_missing(ids, found) == first_missing(ids.take(k), found),
    decreases ids.len(),
{
    if k < ids.len() {
        assert(ids.drop_last().take(k) =~= ids.take(k));
        lemma_missing_stays(ids.drop_last(), found, k);
    } else {
        assert(ids.take(k) =~= ids);
    }
}

/// Refuses a row that refers to a note that is not there. `found` says of each
/// note whether it is.
pub fn check_references(ids: &Vec<String>, found: &Vec<bool>) -> (r: Result<(), ZettelError>)
    requires
        ids@.len() == found@.len(),
    ensures
        match first_missing(texts(ids@), found@) {
            Some(x) => r matches Err(e) && e@ == engine("referenced zettel not found: "@ + x),
            None => r is Ok,
        },
{
    let ghost all = texts(ids@);
    let mut i: usize = 0;
    proof {
        assert(all.take(0) =~= Seq::<Seq<char>>::empty());
    }
    while i < ids.len()
        invariant
            i <= ids@.len() == found@.len(),
            all == texts(ids@),
            first_missing(all.take(i as int), found@) is None,
        decreases ids@.len() - i,
    {
        proof {
            let t = all.take(i + 1);
            assert(t.drop_last() =~= all.take(i as int));
            assert(t.last() == ids@[i as int]@);
        }
        if !found[i] {
            proof {
                lemma_missing_stays(all, found@, i + 1);
            }
            return Err(refuse2("referenced zettel not found: ", ids[i].as_str()));
        }
        i = i + 1;
    }
    proof {
        assert(all.take(i as int) =~= all);
    }
    Ok(())
}

/// The path of a row's note.
pub open spec fn row_path_of(table: Seq<char>, id: Seq<char>) -> Seq<char> {
    if table == "zettels"@ {
        "zettelkasten/"@ + id + ".md"@
    } else {
        "zettelkasten/"@ + table + "/"@ + id + ".md"@
    }
}

/// A row that is to be written: its note and its values.
#[derive(Debug)]
pub struct PlannedRow {
    pub path: String,
    pub content: String,
    pub cells: TextMap<String>,
}

pub open spec fn row_text(id: Seq<char>, s: SchemaView, cells: Cells) -> Seq<char> {
    let z = row_note(id, s, cells);
    serialized(z.meta, z.body, z.reference)
}

/// Plans the note of a row from its values. `found` says of each note that the
/// row refers to, in the order of `referenced_ids`, whether it is there.
pub fn plan_row(
    schema: &TableSchema,
    table: &str,
    id: &ZettelId,
    cells: TextMap<String>,
    found: &Vec<bool>,
) -> (r: Result<PlannedRow, ZettelError>)
    requires
        found@.len() == referenced(schema@.columns, mapped(cells@)).len(),
    ensures
        match first_missing(referenced(schema@.columns, mapped(cells@)), found@) {
            Some(x) => r matches Err(e) && e@ == engine("referenced zettel not found: "@ + x),
            None => r matches Ok(p) && p.path@ == row_path_of(table@, id.0@) && p.content@
                == row_text(id.0@, schema@, mapped(cells@)) && is_writing(
                row_note(id.0@, schema@, mapped(cells@)),
                p.content@,
            ) && p.cells == cells,
        },
{
    let ids = referenced_ids(&schema.columns, &cells);
    proof {
        assert(texts(ids@).len() == ids@.len());
    }
    match check_references(&ids, found) {
        Ok(_) => {},
        Err(e) => {
            return Err(e);
        },
    }
    let z = build_data_zettel(id, schema, &cells);
    let content = parser::serialize(&z);
    let path = if text::same(table, "zettels") {
        text::cat3("zettelkasten/", id.0.as_str(), ".md")
    } else {
        let mut p = text::cat3("zettelkasten/", table, "/");
        p.append(id.0.as_str());
        p.append(".md");
        p
    };
    Ok(PlannedRow { path, content, cells })
}

// ---------------------------------------------------------------------------
// Updating rows
// ---------------------------------------------------------------------------
pub open spec fn lowered_all(l: Seq<Seq<char>>) -> Seq<Seq<char>> {
    Seq::new(l.len(), |i: int| text::lowered(l[i]))
}

/// The name that an assignment sets: its target in lower case, a tuple joined.
pub open spec fn target_name(names: Seq<Seq<char>>) -> Seq<char> {
    join(lowered_all(names), "."@)
}

pub open spec fn assigned(l: Seq<(Vec<String>, SqlExpr)>) -> Result<Cells, ErrorView>
    decreases l.len(),
{
    if l.len() == 0 {
        Ok(Seq::empty())
    } else {
        match assigned(l.drop_last()) {
            Err(e) => Err(e),
            Ok(m) => match literal(l.last().1) {
                Err(e) => Err(e),
                Ok(v) => Ok(put(m, target_name(texts(l.last().0@)), v)),
            },
        }
    }
}

proof fn lemma_assigned_error(l: Seq<(Vec<String>, SqlExpr)>, k: int)
    requires
        0 <= k <= l.len(),
        assigned(l.take(k)) is Err,
    ensures
        assigned(l) == assigned(l.take(k)),
    decreases l.len(),
{
    if k < l.len() {
        assert(l.drop_last().take(k) =~= l.take(k));
        lemma_assigned_error(l.drop_last(), k);
    } else {
        assert(l.take(k) =~= l);
    }
}

fn target(names: &Vec<String>) -> (r: String)
    ensures
        r@ == target_name(texts(names@)),
{
    let mut out: Vec<String> = Vec::new();
    let ghost goal = lowered_all(texts(names@));
    let mut i: usize = 0;
    proof {
        assert(texts(out@) =~= goal.take(0));
    }
    while i < names.len()
        invariant
            i <= names@.len(),
            goal == lowered_all(texts(names@)),
            texts(out@) == goal.take(i as int),
        decreases names@.len() - i,
    {
        let s = text::to_lower(names[i].as_str());
        proof {
            text::lemma_texts_push(out@, s);
            assert(goal.take(i + 1) =~= goal.take(i as int).push(goal[i as int]));
        }
        out.push(s);
        i = i + 1;
    }
    proof {
        assert(goal.take(i as int) =~= goal);
    }
    text::join_all(&out, ".")
}

/// What the assignments of an update set: literals that their columns allow.
pub open spec fn updates_of(cs: Seq<ColumnView>, l: Seq<(Vec<String>, SqlExpr)>) -> Result<
    Cells,
    ErrorView,
> {
    match assigned(l) {
        Err(e) => Err(e),
        Ok(m) => match allowed_error(cs, m) {
            Some(e) => Err(e),
            None => Ok(m),
        },
    }
}

/// Reads the assignments of an update.
pub fn plan_updates(columns: &Vec<ColumnDef>, assignments: &Vec<(Vec<String>, SqlExpr)>) -> (r:
    Result<TextMap<String>, ZettelError>)
    ensures
        match r {
            Ok(m) => updates_of(columns_view(columns@), assignments@) == Ok::<Cells, ErrorView>(
                mapped(m@),
            ) && m.sorted(),
            Err(e) => updates_of(columns_view(columns@), assignments@) == Err::<Cells, ErrorView>(
                e@,
            ),
        },
{
    let ghost l = assignments@;
    let mut m: TextMap<String> = TextMap::new();
    let mut i: usize = 0;
    proof {
        assert(l.take(0) =~= Seq::<(Vec<String>, SqlExpr)>::empty());
        assert(mapped(m@) =~= Seq::<(Seq<char>, Seq<char>)>::empty());
    }
    while i < assignments.len()
        invariant
            i <= assignments@.len(),
            l == assignments@,
            assigned(l.take(i as int)) == Ok::<Cells, ErrorView>(mapped(m@)),
            m.sorted(),
        decreases assignments@.len() - i,
    {
        proof {
            let t = l.take(i + 1);
            assert(t.drop_last() =~= l.take(i as int));
            assert(t.last() == l[i as int]);
        }
        let name = target(&assignments[i].0);
        match expr_to_string(&assignments[i].1) {
            Ok(v) => {
                proof {
                    textmap::lemma_mapped_put(m@, name@, v);
                }
                m.insert(name, v);
            },
            Err(e) => {
                proof {
                    lemma_assigned_error(l, i + 1);
                }
                return Err(e);
            },
        }
        i = i + 1;
    }
    proof {
        assert(l.take(i as int) =~= l);
    }
    match check_allowed(columns, &m) {
        Ok(_) => Ok(m),
        Err(e) => Err(e),
    }
}

pub open spec fn note_text(z: ZettelView) -> Seq<char> {
    serialized(z.meta, z.body, z.reference)
}

/// The text of a note after an update of its row.
pub open spec fn updated_text(
    content: Seq<char>,
    path: Seq<char>,
    s: SchemaView,
    updates: Cells,
) -> Result<Seq<char>, ErrorView> {
    match parsed_zettel(content, path) {
        Err(e) => Err(e),
        Ok(z) => Ok(note_text(with_updates(z, s.columns, updates))),
    }
}

/// Whether a text is that of a note after an update of its row.
pub open spec fn is_updating(
    content: Seq<char>,
    path: Seq<char>,
    s: SchemaView,
    updates: Cells,
    t: Seq<char>,
) -> bool {
    &&& updated_text(content, path, s, updates) == Ok::<Seq<char>, ErrorView>(t)
    &&& parsed_zettel(content, path) matches Ok(z) && is_writing(
        with_updates(z, s.columns, updates),
        t,
    )
}

pub fn update_note(
    content: &str,
    path: &str,
    schema: &TableSchema,
    updates: &TextMap<String>,
) -> (r: Result<String, ZettelError>)
    ensures
        match r {
            Ok(t) => is_updating(content@, path@, schema@, mapped(updates@), t@),
            Err(e) => updated_text(content@, path@, schema@, mapped(updates@))
                == Err::<Seq<char>, ErrorView>(e@),
        },
{
    let mut z = match parser::parse(content, path) {
        Ok(z) => z,
        Err(e) => {
            return Err(e);
        },
    };
    apply_updates_to_zettel(&mut z, schema, updates);
    Ok(parser::serialize(&z))
}

/// The text of a note after a column was renamed.
pub open spec fn renamed_text(
    content: Seq<char>,
    path: Seq<char>,
    old_name: Seq<char>,
    new_name: Seq<char>,
    zone: Zone,
) -> Result<Seq<char>, ErrorView> {
    match parsed_zettel(content, path) {
        Err(e) => Err(e),
        Ok(z) => Ok(note_text(renamed(z, old_name, new_name, zone))),
    }
}

/// Whether a text is that of a note after a column was renamed.
pub open spec fn is_renaming(
    content: Seq<char>,
    path: Seq<char>,
    old_name: Seq<char>,
    new_name: Seq<char>,
    zone: Zone,
    t: Seq<char>,
) -> bool {
    &&& renamed_text(content, path, old_name, new_name, zone) == Ok::<Seq<char>, ErrorView>(t)
    &&& parsed_zettel(content, path) matches Ok(z) && is_writing(
        renamed(z, old_name, new_name, zone),
        t,
    )
}

pub fn rename_in_note(content: &str, path: &str, old_name: &str, new_name: &str, zone: Zone) -> (r:
    Result<String, ZettelError>)
    ensures
        match r {
            Ok(t) => is_renaming(content@, path@, old_name@, new_name@, zone, t@),
            Err(e) => renamed_text(content@, path@, old_name@, new_name@, zone) == Err::<
                Seq<char>,
                ErrorView,
            >(e@),
        },
{
    let mut z = match parser::parse(content, path) {
        Ok(z) => z,
        Err(e) => {
            return Err(e);
        },
    };
    rename_key_in_zettel(&mut z, old_name, new_name, zone);
    Ok(parser::serialize(&z))
}

/// The text of a note that no longer belongs to a type.
pub open spec fn untyped_text(content: Seq<char>, path: Seq<char>) -> Result<
    Seq<char>,
    ErrorView,
> {
    match parsed_zettel(content, path) {
        Err(e) => Err(e),
        Ok(z) => Ok(serialized(MetaView { zettel_type: None, ..z.meta }, z.body, z.reference)),
    }
}

/// Whether a text is that of a note with its type taken.
pub open spec fn is_untyping(content: Seq<char>, path: Seq<char>, t: Seq<char>) -> bool {
    &&& untyped_text(content, path) == Ok::<Seq<char>, ErrorView>(t)
    &&& parsed_zettel(content, path) matches Ok(z) && is_text(
        MetaView { zettel_type: None, ..z.meta },
        z.body,
        z.reference,
        t,
    )
}

/// Takes a note's type.
pub fn untype_note(content: &str, path: &str) -> (r: Result<String, ZettelError>)
    ensures
        match r {
            Ok(t) => is_untyping(content@, path@, t@),
            Err(e) => untyped_text(content@, path@) == Err::<Seq<char>, ErrorView>(e@),
        },
{
    let mut z = match parser::parse(content, path) {
        Ok(z) => z,
        Err(e) => {
            return Err(e);
        },
    };
    z.meta.zettel_type = None;
    Ok(parser::serialize(&z))
}

// ---------------------------------------------------------------------------
// Deleting rows and tables
// ---------------------------------------------------------------------------
/// The table that a deletion is about: the first that it names.
pub fn delete_table(tables: &Vec<String>) -> (r: Result<String, ZettelError>)
    ensures
        match r {
            Ok(s) => tables@.len() > 0 && s@ == identifier(tables@[0]@),
            Err(e) => tables@.len() == 0 && e@ == engine("missing table in DELETE"@),
        },
{
    if tables.len() == 0 {
        return Err(refuse("missing table in DELETE"));
    }
    Ok(unquote_identifier(tables[0].as_str()))
}

/// What dropping a table does.
#[derive(Debug)]
pub enum DropPlan {
    /// There is no such table, and that is allowed.
    Skip,
    /// The note of the schema and the notes of all rows are deleted.
    DeleteAll { paths: Vec<String>, ids: Vec<String> },
    /// The note of the schema is deleted; the notes of the rows lose their type.
    Untype { typedef: String, typedef_id: String, paths: Vec<String> },
}

pub open spec fn row_ids(rows: Seq<(String, String)>) -> Seq<Seq<char>> {
    Seq::new(rows.len(), |i: int| rows[i].0@)
}

pub open spec fn row_paths(rows: Seq<(String, String)>) -> Seq<Seq<char>> {
    Seq::new(rows.len(), |i: int| rows[i].1@)
}

fn collect_row(rows: &Vec<(String, String)>, paths: &mut Vec<String>, ids: &mut Vec<String>)
    ensures
        texts(final(paths)@) == texts(old(paths)@) + row_paths(rows@),
        texts(final(ids)@) == texts(old(ids)@) + row_ids(rows@),
{
    let ghost p0 = texts(paths@);
    let ghost i0 = texts(ids@);
    let ghost pv = row_paths(rows@);
    let ghost iv = row_ids(rows@);
    let mut i: usize = 0;
    proof {
        assert(p0 + pv.take(0) =~= p0);
        assert(i0 + iv.take(0) =~= i0);
    }
    while i < rows.len()
        invariant
            i <= rows@.len(),
            pv == row_paths(rows@),
            iv == row_ids(rows@),
            texts(paths@) == p0 + pv.take(i as int),
            texts(ids@) == i0 + iv.take(i as int),
        decreases rows@.len() - i,
    {
        let p = text::copy(rows[i].1.as_str());
        let d = text::copy(rows[i].0.as_str());
        proof {
            text::lemma_texts_push(paths@, p);
            text::lemma_texts_push(ids@, d);
            assert(p0 + pv.take(i + 1) =~= (p0 + pv.take(i as int)).push(pv[i as int]));
            assert(i0 + iv.take(i + 1) =~= (i0 + iv.take(i as int)).push(iv[i as int]));
        }
        paths.push(p);
        ids.push(d);
        i = i + 1;
    }
    proof {
        assert(pv.take(i as int) =~= pv);
        assert(iv.take(i as int) =~= iv);
    }
}

/// Plans dropping a table. `typedef` is the identifier and path of the note of
/// its schema, if there is one; `rows` those of its rows' notes.
pub fn plan_drop(
    table: &str,
    typedef: &Option<(String, String)>,
    rows: &Vec<(String, String)>,
    if_exists: bool,
    cascade: bool,
) -> (r: Result<DropPlan, ZettelError>)
    ensures
        match *typedef {
            None => if if_exists {
                r == Ok::<DropPlan, ZettelError>(DropPlan::Skip)
            } else {
                r matches Err(e) && e@ == engine("table not found: "@ + table@)
            },
            Some((id, path)) => if cascade {
                r matches Ok(DropPlan::DeleteAll { paths, ids }) && texts(paths@) == seq![path@]
                    + row_paths(rows@) && texts(ids@) == seq![id@] + row_ids(rows@)
            } else {
                r matches Ok(DropPlan::Untype { typedef, typedef_id, paths }) && typedef@ == path@
                    && typedef_id@ == id@ && texts(paths@) == row_paths(rows@)
            },
        },
{
    let (id, path) = match typedef {
        None => {
            if if_exists {
                return Ok(DropPlan::Skip);
            }
            return Err(refuse2("table not found: ", table));
        },
        Some((id, path)) => (id, path),
    };
    let mut paths: Vec<String> = Vec::new();
    let mut ids: Vec<String> = Vec::new();
    if cascade {
        paths.push(text::copy(path.as_str()));
        ids.push(text::copy(id.as_str()));
        proof {
            assert(texts(paths@) =~= seq![path@]);
            assert(texts(ids@) =~= seq![id@]);
        }
        collect_row(rows, &mut paths, &mut ids);
        Ok(DropPlan::DeleteAll { paths, ids })
    } else {
        proof {
            assert(texts(paths@) =~= Seq::<Seq<char>>::empty());
        }
        collect_row(rows, &mut paths, &mut ids);
        proof {
            assert(texts(paths@) =~= row_paths(rows@));
        }
        Ok(
            DropPlan::Untype {
                typedef: text::copy(path.as_str()),
                typedef_id: text::copy(id.as_str()),
                paths,
            },
        )
    }
}

// ---------------------------------------------------------------------------
// Altering a table
// ---------------------------------------------------------------------------
/// A schema in the course of changes. Renaming a column ends them.
pub struct AlterState {
    pub columns: Seq<ColumnView>,
    pub rename: Option<(Seq<char>, Seq<char>, Zone)>,
}

pub open spec fn plain_column(name: Seq<char>, data_type: Seq<char>) -> ColumnView {
    ColumnView {
        name,
        data_type,
        references: None,
        zone: None,
        required: false,
        search_boost: None,
        allowed_values: None,
        default_value: None,
    }
}

/// The columns after a change.
pub open spec fn after_operation(cs: Seq<ColumnView>, op: AlterOperation) -> Result<
    AlterState,
    ErrorView,
> {
    match op {
        AlterOperation::AddColumn { name, data_type } => {
            let n = text::lowered(name@);
            if find_column(cs, n) is Some {
                Err(engine("column already exists: "@ + n))
            } else {
                Ok(
                    AlterState {
                        columns: cs.push(plain_column(n, type_name_of(data_type))),
                        rename: None,
                    },
                )
            }
        },
        AlterOperation::DropColumn { name, if_exists } => {
            let n = text::lowered(name@);
            match find_column(cs, n) {
                Some(i) => Ok(AlterState { columns: cs.remove(i), rename: None }),
                None => if if_exists {
                    Ok(AlterState { columns: cs, rename: None })
                } else {
                    Err(engine("column not found: "@ + n))
                },
            }
        },
        AlterOperation::RenameColumn { old_name, new_name } => {
            let a = text::lowered(old_name@);
            let b = text::lowered(new_name@);
            if find_column(cs, b) is Some {
                Err(engine("column already exists: "@ + b))
            } else {
                match find_column(cs, a) {
                    Some(i) => Ok(
                        AlterState {
                            columns: cs.update(i, ColumnView { name: b, ..cs[i] }),
                            rename: Some((a, b, zone_of_column(cs[i]))),
                        },
                    ),
                    None => Err(engine("column not found: "@ + a)),
                }
            }
        },
        AlterOperation::Other(s) => Err(engine("unsupported ALTER TABLE operation: "@ + s@)),
    }
}

/// The columns after some changes, up to the first rename.
pub open spec fn altered(cs: Seq<ColumnView>, ops: Seq<AlterOperation>) -> Result<
    AlterState,
    ErrorView,
>
    decreases ops.len(),
{
    if ops.len() == 0 {
        Ok(AlterState { columns: cs, rename: None })
    } else {
        match altered(cs, ops.drop_last()) {
            Err(e) => Err(e),
            Ok(s) => if s.rename is Some {
                Ok(s)
            } else {
                after_operation(s.columns, ops.last())
            },
        }
    }
}

proof fn lemma_altered_stays(cs: Seq<ColumnView>, ops: Seq<AlterOperation>, k: int)
    requires
        0 <= k <= ops.len(),
        altered(cs, ops.take(k)) matches Ok(s) ==> s.rename is Some,
    ensures
        altered(cs, ops) == altered(cs, ops.take(k)),
    decreases ops.len(),
{
    if k < ops.len() {
        assert(ops.drop_last().take(k) =~= ops.take(k));
        lemma_altered_stays(cs, ops.drop_last(), k);
    } else {
        assert(ops.take(k) =~= ops);
    }
}

/// A schema after changes, and the column that was renamed, if one was: its old
/// name, its new name and its zone.
#[derive(Debug)]
pub struct Altered {
    pub schema: TableSchema,
    pub rename: Option<(String, String, Zone)>,
}

pub open spec fn rename_view(r: Option<(String, String, Zone)>) -> Option<
    (Seq<char>, Seq<char>, Zone),
> {
    match r {
        Some((a, b, z)) => Some((a@, b@, z)),
        None => None,
    }
}

/// Changes a schema. A rename is the last change that counts: the rows' notes
/// have to be rewritten for it.
pub fn alter_schema(schema: TableSchema, ops: &Vec<AlterOperation>) -> (r: Result<
    Altered,
    ZettelError,
>)
    ensures
        match altered(schema@.columns, ops@) {
            Err(x) => r matches Err(e) && e@ == x,
            Ok(s) => r matches Ok(a) && a.schema@ == (SchemaView { columns: s.columns, ..schema@ })
                && rename_view(a.rename) == s.rename,
        },
{
    let ghost cs0 = schema@.columns;
    let mut schema = schema;
    let ghost s0 = schema@;
    let ghost all = ops@;
    let mut i: usize = 0;
    proof {
        assert(all.take(0) =~= Seq::<AlterOperation>::empty());
    }
    while i < ops.len()
        invariant
            i <= ops@.len(),
            all == ops@,
            schema@ == (SchemaView { columns: schema@.columns, ..s0 }),
            altered(cs0, all.take(i as int)) == Ok::<AlterState, ErrorView>(
                AlterState { columns: schema@.columns, rename: None },
            ),
        decreases ops@.len() - i,
    {
        let ghost before = schema@.columns;
        proof {
            let t = all.take(i + 1);
            assert(t.drop_last() =~= all.take(i as int));
            assert(t.last() == all[i as int]);
        }
        match &ops[i] {
            AlterOperation::AddColumn { name, data_type } => {
                let n = text::to_lower(name.as_str());
                if seek_column(&schema.columns, n.as_str()).is_some() {
                    proof {
                        lemma_altered_stays(cs0, all, i + 1);
                    }
                    return Err(refuse2("column already exists: ", n.as_str()));
                }
                let c = ColumnDef {
                    name: n,
                    data_type: data_type_to_string(*data_type),
                    references: None,
                    zone: None,
                    required: false,
                    search_boost: None,
                    allowed_values: None,
                    default_value: None,
                };
                schema.columns.push(c);
                proof {
                    assert(schema@.columns =~= before.push(c@));
                }
            },
            AlterOperation::DropColumn { name, if_exists } => {
                let n = text::to_lower(name.as_str());
                match seek_column(&schema.columns, n.as_str()) {
                    Some(k) => {
                        let _ = schema.columns.remove(k);
                        proof {
                            assert(schema@.columns =~= before.remove(k as int));
                        }
                    },
                    None => {
                        if !*if_exists {
                            proof {
                                lemma_altered_stays(cs0, all, i + 1);
                            }
                            return Err(refuse2("column not found: ", n.as_str()));
                        }
                    },
                }
            },
            AlterOperation::RenameColumn { old_name, new_name } => {
                let a = text::to_lower(old_name.as_str());
                let b = text::to_lower(new_name.as_str());
                if seek_column(&schema.columns, b.as_str()).is_some() {
                    proof {
                        lemma_altered_stays(cs0, all, i + 1);
                    }
                    return Err(refuse2("column already exists: ", b.as_str()));
                }
                match seek_column(&schema.columns, a.as_str()) {
                    Some(k) => {
                        let zone = effective_zone(&schema.columns[k]);
                        let mut c = schema.columns.remove(k);
                        c.name = text::copy(b.as_str());
                        schema.columns.insert(k, c);
                        proof {
                            assert(schema@.columns =~= before.update(
                                k as int,
                                ColumnView { name: b@, ..before[k as int] },
                            ));
                            lemma_altered_stays(cs0, all, i + 1);
                        }
                        return Ok(Altered { schema, rename: Some((a, b, zone)) });
                    },
                    None => {
                        proof {
                            lemma_altered_stays(cs0, all, i + 1);
                        }
                        return Err(refuse2("column not found: ", a.as_str()));
                    },
                }
            },
            AlterOperation::Other(s) => {
                proof {
                    lemma_altered_stays(cs0, all, i + 1);
                }
                return Err(refuse2("unsupported ALTER TABLE operation: ", s.as_str()));
            },
        }
        i = i + 1;
    }
    proof {
        assert(all.take(i as int) =~= all);
    }
    Ok(Altered { schema, rename: None })
}

// ---------------------------------------------------------------------------
// Laws
// ---------------------------------------------------------------------------
/// Within a transaction a read gives what was written last.
pub proof fn law_read_your_writes(b: TransactionBuffer, w: PendingWrite, after: TransactionBuffer)
    requires
        after.writes@ == b.writes@.push(w),
        after.deletes@ == b.deletes@,
    ensures
        buffered_read(Some(after), w.path@) == Ok::<Option<Seq<char>>, ErrorView>(
            Some(w.content@),
        ),
{
}

/// A write to one path does not change what is read of another.
pub proof fn law_write_elsewhere(
    b: TransactionBuffer,
    w: PendingWrite,
    after: TransactionBuffer,
    path: Seq<char>,
)
    requires
        after.writes@ == b.writes@.push(w),
        after.deletes@ == b.deletes@,
        path != w.path@,
    ensures
        buffered_read(Some(after), path) == buffered_read(Some(b), path),
{
    assert(after.writes@.drop_last() =~= b.writes@);
}

/// A path that was deleted and not written is not found any more.
pub proof fn law_deleted_not_found(
    b: TransactionBuffer,
    d: PendingDelete,
    after: TransactionBuffer,
)
    requires
        after.writes@ == b.writes@,
        after.deletes@ == b.deletes@.push(d),
        last_write(b.writes@, d.path@) is None,
    ensures
        buffered_read(Some(after), d.path@) is Err,
{
    assert(after.deletes@[b.deletes@.len() as int] == d);
}

/// A commit carries out each write to a path that the transaction does not
/// delete, and no other.
pub proof fn law_commit_writes(ws: Seq<PendingWrite>, ds: Seq<PendingDelete>, w: PendingWrite)
    requires
        ws.contains(w),
    ensures
        !is_deleted(ds, w.path@) ==> kept_writes(ws, ds).contains((w.path@, w.content@)),
        is_deleted(ds, w.path@) ==> forall|c: Seq<char>|
            !#[trigger] kept_writes(ws, ds).contains((w.path@, c)),
    decreases ws.len(),
{
    let d = ws.drop_last();
    let r = kept_writes(ws, ds);
    let p = kept_writes(d, ds);
    if is_deleted(ds, w.path@) {
        lemma_deleted_not_written(ws, ds, w.path@);
    } else if w == ws.last() {
        assert(r[r.len() - 1] == (w.path@, w.content@));
    } else {
        assert(d[ws.index_of(w)] == w);
        law_commit_writes(d, ds, w);
        let i = p.index_of((w.path@, w.content@));
        assert(r[i] == (w.path@, w.content@));
    }
}

proof fn lemma_deleted_not_written(ws: Seq<PendingWrite>, ds: Seq<PendingDelete>, path: Seq<char>)
    requires
        is_deleted(ds, path),
    ensures
        forall|c: Seq<char>| !#[trigger] kept_writes(ws, ds).contains((path, c)),
    decreases ws.len(),
{
    if ws.len() > 0 {
        let d = ws.drop_last();
        lemma_deleted_not_written(d, ds, path);
        let r = kept_writes(ws, ds);
        let p = kept_writes(d, ds);
        assert forall|c: Seq<char>| !#[trigger] r.contains((path, c)) by {
            if r.contains((path, c)) {
                let i = r.index_of((path, c));
                if i < p.len() {
                    assert(p[i] == (path, c));
                    assert(p.contains((path, c)));
                }
            }
        }
    }
}

/// The default of a column is used where a row gives no value, and only there.
pub proof fn law_defaults(cs: Seq<ColumnView>, cells: Cells, name: Seq<char>)
    requires
        text::ascending(textmap::keys(cells)),
    ensures
        text::ascending(textmap::keys(with_defaults(cs, cells))),
        lookup(cells, name) is Some ==> lookup(with_defaults(cs, cells), name) == lookup(
            cells,
            name,
        ),
        lookup(cells, name) is None && lookup(with_defaults(cs, cells), name) is Some ==> exists|
            i: int,
        |
            0 <= i < cs.len() && (#[trigger] cs[i]).name == name && cs[i].default_value == lookup(
                with_defaults(cs, cells),
                name,
            ),
    decreases cs.len(),
{
    if cs.len() > 0 {
        let d = cs.drop_last();
        law_defaults(d, cells, name);
        let p = with_defaults(d, cells);
        let c = cs.last();
        if lookup(p, c.name) is None && c.default_value is Some {
            textmap::law_put_sorted(p, c.name, c.default_value->0);
            textmap::lemma_lookup_put(p, c.name, c.default_value->0);
        }
        if lookup(cells, name) is None && lookup(with_defaults(cs, cells), name) is Some {
            if lookup(p, name) is Some {
                let i = choose|i: int|
                    0 <= i < d.len() && (#[trigger] d[i]).name == name && d[i].default_value
                        == lookup(p, name);
                assert(cs[i] == d[i]);
            } else {
                assert(cs[cs.len() - 1].name == name);
            }
        }
    }
}

/// A row whose value is not among the allowed ones is refused.
pub proof fn law_refused_value(cs: Seq<ColumnView>, cells: Cells, i: int)
    requires
        0 <= i < cs.len(),
        lookup(cells, cs[i].name) is Some,
        value_refused(cs[i], lookup(cells, cs[i].name)->0),
    ensures
        allowed_error(cs, cells) is Some,
    decreases cs.len(),
{
    if i < cs.len() - 1 {
        assert(cs.drop_last()[i] == cs[i]);
        law_refused_value(cs.drop_last(), cells, i);
    }
}

} // verus!
