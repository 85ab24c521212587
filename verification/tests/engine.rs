//! The SQL rules and the index rules at work: a store in memory and an SQLite
//! database in memory, with every decision taken by the library.
use std::cell::RefCell;
use std::collections::{BTreeMap, HashMap};

use rusqlite::types::{ToSql, Value as Cell};
use rusqlite::Connection;
use zdb_core::effects::{
    delete_row, delete_rows, dropped_result, handle_alter_table, handle_commit,
    handle_create_table, handle_drop_table, handle_insert, handle_rename_column, hold_back,
    skipped_result, update_row, update_rows, Effect, FoundRows, Outcome,
};
use zdb_core::error::ZettelError;
use zdb_core::git_ops::{self, FileStatus};
use zdb_core::ids::unique_ids;
use zdb_core::index_plan::{
    self, create_table_sql, drop_table_sql, insert_row_sql, materialized_values, plan_refresh,
    plan_reindex, plan_tables, resolve_link, select_ids_sql, Refresh, Step,
};
use zdb_core::index_sql::{self, Bound, Statement};
use zdb_core::indexer::{
    collect_consistency_warnings, infer_schema, load_all_typedefs, merge_schemas,
};
use zdb_core::parser;
use zdb_core::rows::to_yaml_value;
use zdb_core::schema::schema_from_parsed;
use zdb_core::sql::{
    parse_batch, unquote_identifier, AlterOperation, Condition, InsertSource, SqlColumn, SqlExpr,
    SqlStatement,
};
use zdb_core::sql_engine::{
    alter_schema, begin, check_active, delete_table, dispatch, plan_create_table, plan_drop,
    plan_updates, read_buffered, single_result, CreatePlan, DropPlan, SqlResult,
    TransactionBuffer,
};
use zdb_core::sql_plan::{insert_target, row_target, where_error, NoteEdit, RowTarget};
use zdb_core::textmap::TextMap;
use zdb_core::traits::{ZettelSource, ZettelStore};
use zdb_core::types::{
    ColumnDef, CommitHash, ConsistencyWarning, DiffKind, InlineField, ParsedZettel, Real,
    RebuildReport, TableSchema, Value, WikiLink, ZettelId, ZettelMeta, Zone,
};

type Result<T> = std::result::Result<T, ZettelError>;

fn number(s: &str) -> Real {
    to_yaml_value(s, "REAL").as_number().unwrap().clone()
}

fn sql_err(e: rusqlite::Error) -> ZettelError {
    ZettelError::Sql(e.to_string())
}

// ---------------------------------------------------------------------------
// A store in memory
// ---------------------------------------------------------------------------
type Files = BTreeMap<String, String>;

/// Every commit is a copy of all files; the last one is the head.
struct MemStore {
    history: RefCell<Vec<Files>>,
}

impl MemStore {
    fn new() -> Self {
        MemStore {
            history: RefCell::new(vec![Files::new()]),
        }
    }

    fn commits(&self) -> usize {
        self.history.borrow().len()
    }

    fn commit(&self, writes: &[(&str, &str)], deletes: &[&str]) -> Result<CommitHash> {
        let mut history = self.history.borrow_mut();
        let mut files = history.last().unwrap().clone();
        for (path, content) in writes {
            files.insert(path.to_string(), content.to_string());
        }
        for path in deletes {
            files.remove(*path);
        }
        history.push(files);
        Ok(CommitHash((history.len() - 1).to_string()))
    }

    fn at(&self, oid: &str) -> Result<Files> {
        let n: usize = oid
            .parse()
            .map_err(|_| ZettelError::Git(format!("bad commit {oid}")))?;
        let history = self.history.borrow();
        if oid.len() > 10 || n >= history.len() {
            return Err(ZettelError::Git(format!("no commit {oid}")));
        }
        Ok(history[n].clone())
    }
}

impl ZettelSource for MemStore {
    fn list_zettels(&self) -> Result<Vec<String>> {
        let history = self.history.borrow();
        let paths: Vec<String> = history.last().unwrap().keys().cloned().collect();
        Ok(git_ops::list_zettels(&paths))
    }

    fn read_file(&self, path: &str) -> Result<String> {
        let history = self.history.borrow();
        let files = history.last().unwrap();
        files
            .get(path)
            .cloned()
            .ok_or_else(|| ZettelError::NotFound(path.to_string()))
    }

    fn head_oid(&self) -> Result<CommitHash> {
        Ok(CommitHash((self.commits() - 1).to_string()))
    }

    fn diff_paths(&self, old_oid: &str, new_oid: &str) -> Result<Vec<(DiffKind, String)>> {
        let old = self.at(old_oid)?;
        let new = self.at(new_oid)?;
        let mut files = Vec::new();
        for (path, content) in &new {
            match old.get(path) {
                None => files.push((FileStatus::Added, path.clone())),
                Some(c) if c != content => files.push((FileStatus::Modified, path.clone())),
                Some(_) => {}
            }
        }
        for path in old.keys() {
            if !new.contains_key(path) {
                files.push((FileStatus::Deleted, path.clone()));
            }
        }
        Ok(git_ops::diff_paths(&files))
    }
}

impl ZettelStore for MemStore {
    fn commit_file(&self, path: &str, content: &str, _msg: &str) -> Result<CommitHash> {
        self.commit(&[(path, content)], &[])
    }

    fn commit_files(&self, files: &[(&str, &str)], _msg: &str) -> Result<CommitHash> {
        self.commit(files, &[])
    }

    fn delete_file(&self, path: &str, _msg: &str) -> Result<CommitHash> {
        self.commit(&[], &[path])
    }

    fn delete_files(&self, paths: &[&str], _msg: &str) -> Result<CommitHash> {
        self.commit(&[], paths)
    }

    fn commit_batch(
        &self,
        writes: &[(&str, &str)],
        deletes: &[&str],
        _msg: &str,
    ) -> Result<CommitHash> {
        self.commit(writes, deletes)
    }
}

/// Files that never change.
struct MockSource {
    files: HashMap<String, String>,
}

impl MockSource {
    fn new() -> Self {
        MockSource {
            files: HashMap::new(),
        }
    }
}

impl ZettelSource for MockSource {
    fn list_zettels(&self) -> Result<Vec<String>> {
        let mut paths: Vec<String> = self.files.keys().cloned().collect();
        paths.sort();
        Ok(git_ops::list_zettels(&paths))
    }

    fn read_file(&self, path: &str) -> Result<String> {
        self.files
            .get(path)
            .cloned()
            .ok_or_else(|| ZettelError::NotFound(path.to_string()))
    }

    fn head_oid(&self) -> Result<CommitHash> {
        Ok(CommitHash("abc123".to_string()))
    }

    fn diff_paths(&self, _old_oid: &str, _new_oid: &str) -> Result<Vec<(DiffKind, String)>> {
        Ok(Vec::new())
    }
}

// ---------------------------------------------------------------------------
// An index in memory
// ---------------------------------------------------------------------------
const SCHEMA: &str = "
    CREATE TABLE IF NOT EXISTS zettels (
        id TEXT PRIMARY KEY, title TEXT, date TEXT, type TEXT,
        path TEXT UNIQUE NOT NULL, body TEXT, updated_at TEXT
    );
    CREATE TABLE IF NOT EXISTS _zdb_tags (zettel_id TEXT NOT NULL, tag TEXT NOT NULL);
    CREATE TABLE IF NOT EXISTS _zdb_fields (
        zettel_id TEXT NOT NULL, key TEXT NOT NULL, value TEXT, zone TEXT
    );
    CREATE TABLE IF NOT EXISTS _zdb_links (
        source_id TEXT NOT NULL, target_path TEXT NOT NULL, display TEXT, zone TEXT
    );
    CREATE TABLE IF NOT EXISTS _zdb_aliases (
        zettel_id TEXT NOT NULL, alias TEXT COLLATE NOCASE NOT NULL
    );
    CREATE TABLE IF NOT EXISTS _zdb_meta (key TEXT PRIMARY KEY, value TEXT);
    CREATE TABLE IF NOT EXISTS _zdb_attachments (
        zettel_id TEXT NOT NULL, name TEXT NOT NULL, mime TEXT, size INTEGER, path TEXT,
        PRIMARY KEY (zettel_id, name)
    );
    CREATE VIRTUAL TABLE IF NOT EXISTS _zdb_fts USING fts5(
        title, body, tags, tokenize = 'porter unicode61'
    );";

fn shown(v: Cell) -> String {
    match v {
        Cell::Null => "NULL".to_string(),
        Cell::Integer(i) => i.to_string(),
        Cell::Real(f) => f.to_string(),
        Cell::Text(s) => s,
        Cell::Blob(b) => format!("<blob:{} bytes>", b.len()),
    }
}

fn cell(b: &Bound) -> Cell {
    match b {
        Bound::Null => Cell::Null,
        Bound::Text(s) => Cell::Text(s.clone()),
        Bound::Whole(n) => Cell::Integer(*n),
    }
}

struct Hit {
    id: String,
    title: String,
}

struct Page {
    hits: Vec<Hit>,
    total_count: i64,
}

struct Index {
    conn: Connection,
}

impl Index {
    fn open() -> Self {
        let conn = Connection::open_in_memory().unwrap();
        conn.execute_batch(SCHEMA).unwrap();
        Index { conn }
    }

    fn run(&self, sql: &str, args: &[&dyn ToSql]) -> Result<usize> {
        self.conn.execute(sql, args).map_err(sql_err)
    }

    fn rows(&self, sql: &str, args: &[&dyn ToSql]) -> Result<(Vec<String>, Vec<Vec<String>>)> {
        let mut stmt = self.conn.prepare(sql).map_err(sql_err)?;
        let columns: Vec<String> = stmt.column_names().iter().map(|s| s.to_string()).collect();
        let mut rows = Vec::new();
        let mut found = stmt.query(args).map_err(sql_err)?;
        while let Some(row) = found.next().map_err(sql_err)? {
            rows.push((0..columns.len()).map(|i| shown(row.get(i).unwrap())).collect());
        }
        Ok((columns, rows))
    }

    fn query_raw(&self, sql: &str) -> Result<Vec<Vec<String>>> {
        Ok(self.rows(sql, &[])?.1)
    }

    fn first(&self, sql: &str, arg: &str) -> Option<String> {
        self.conn.query_row(sql, [arg], |row| row.get(0)).ok()
    }

    fn pairs(&self, sql: &str, args: &[&dyn ToSql]) -> Result<Vec<(String, String)>> {
        let rows = self.rows(sql, args)?.1;
        Ok(rows
            .into_iter()
            .map(|r| (r[0].clone(), r[1].clone()))
            .collect())
    }

    fn run_all(&self, statements: &[Statement]) -> Result<()> {
        for s in statements {
            let values: Vec<Cell> = s.values.iter().map(cell).collect();
            let args: Vec<&dyn ToSql> = values.iter().map(|v| v as &dyn ToSql).collect();
            self.run(s.sql, &args)?;
        }
        Ok(())
    }

    fn index_zettel(&self, zettel: &ParsedZettel) -> Result<()> {
        let id = zettel.meta.id.as_ref().map(|z| z.0.as_str()).unwrap_or("");
        let present = self.resolve_path(id).is_ok();
        self.run_all(&index_sql::index_zettel(zettel, present, "now"))
    }

    fn remove_zettel(&self, id: &str) -> Result<()> {
        self.run_all(&index_sql::remove_zettel(id))
    }

    fn resolve_path(&self, id: &str) -> Result<String> {
        self.first("SELECT path FROM zettels WHERE id = ?1", id)
            .ok_or_else(|| ZettelError::NotFound(format!("zettel {id}")))
    }

    fn resolve_alias(&self, name: &str) -> Result<Option<String>> {
        Ok(self.first(
            "SELECT zettel_id FROM _zdb_aliases WHERE alias = ?1 LIMIT 1",
            name,
        ))
    }

    fn resolve_wikilink(&self, target: &str) -> Result<Option<String>> {
        let by_id = self.resolve_path(target).ok();
        let sql = "SELECT path FROM zettels WHERE path = ?1";
        let is_path = self.first(sql, target).is_some();
        let by_alias = match self.resolve_alias(target)? {
            Some(id) => Some(self.resolve_path(&id)?),
            None => None,
        };
        Ok(resolve_link(target, by_id, is_path, by_alias))
    }

    fn check_integrity(&self) -> Result<bool> {
        let report = self.query_raw("PRAGMA integrity_check")?[0][0].clone();
        let rows = self.query_raw("SELECT name FROM sqlite_master WHERE type='table'")?;
        let present: Vec<String> = rows.into_iter().flatten().collect();
        Ok(index_sql::check_integrity(&report, &present))
    }

    fn stored_head_oid(&self) -> Option<String> {
        self.first("SELECT value FROM _zdb_meta WHERE key = ?1", "head")
    }

    fn store_head(&self, head: &str) -> Result<()> {
        self.run(
            "INSERT OR REPLACE INTO _zdb_meta (key, value) VALUES ('head', ?1)",
            &[&head],
        )?;
        Ok(())
    }

    fn is_stale(&self, repo: &impl ZettelSource) -> Result<bool> {
        let head = repo.head_oid()?.to_text();
        Ok(zdb_core::index_plan::is_stale(&self.stored_head_oid(), &head))
    }

    fn index_path(&self, repo: &impl ZettelSource, path: &str) -> Result<()> {
        let content = repo.read_file(path)?;
        self.index_zettel(&parser::parse(&content, path)?)
    }

    fn incremental_reindex(
        &self,
        repo: &impl ZettelSource,
        old_head: &str,
    ) -> Result<RebuildReport> {
        let head = repo.head_oid()?.to_text();
        let changes = match repo.diff_paths(old_head, &head) {
            Ok(c) => c,
            Err(_) => return self.rebuild(repo),
        };
        let mut report = RebuildReport::default();
        let (steps, typedef_changed) = plan_reindex(&changes);
        for step in &steps {
            match step {
                Step::Index(path) => {
                    self.index_path(repo, path)?;
                    report.indexed += 1;
                }
                Step::Remove(id) => self.remove_zettel(id)?,
                Step::Skip => {}
            }
        }
        if typedef_changed {
            let (tables, inferred) = self.materialize_all_types(repo)?;
            report.tables_materialized = tables;
            report.types_inferred = inferred;
        }
        self.store_head(&head)?;
        Ok(report)
    }

    fn rebuild(&self, repo: &impl ZettelSource) -> Result<RebuildReport> {
        let mut report = RebuildReport::default();
        let mut files = Vec::new();
        for path in repo.list_zettels()? {
            let content = repo.read_file(&path)?;
            files.push((path, content));
        }
        for note in &index_plan::rebuild(&files) {
            self.index_zettel(note)?;
            report.indexed += 1;
        }
        report.warnings = self.collect_consistency_warnings(repo);
        let (tables, inferred) = self.materialize_all_types(repo)?;
        report.tables_materialized = tables;
        report.types_inferred = inferred;
        self.store_head(&repo.head_oid()?.to_text())?;
        Ok(report)
    }

    fn rebuild_if_stale(&self, repo: &impl ZettelSource) -> Result<Option<RebuildReport>> {
        let corrupt = !self.check_integrity()?;
        let head = repo.head_oid()?.to_text();
        match plan_refresh(corrupt, &self.stored_head_oid(), &head) {
            Refresh::UpToDate => Ok(None),
            Refresh::Full => Ok(Some(self.rebuild(repo)?)),
            Refresh::Since(old) => Ok(Some(self.incremental_reindex(repo, &old)?)),
        }
    }

    fn notes_of_type(&self, name: &str) -> Result<Vec<(String, String)>> {
        self.pairs("SELECT id, path FROM zettels WHERE type = ?1", &[&name])
    }

    fn parsed_notes(
        &self,
        name: &str,
        repo: &(impl ZettelSource + ?Sized),
    ) -> Result<Vec<ParsedZettel>> {
        let mut notes = Vec::new();
        for (_, path) in self.notes_of_type(name)? {
            notes.push(parser::parse(&repo.read_file(&path)?, &path)?);
        }
        Ok(notes)
    }

    fn infer_schema(
        &self,
        name: &str,
        repo: &(impl ZettelSource + ?Sized),
    ) -> Result<TableSchema> {
        Ok(infer_schema(name, &self.parsed_notes(name, repo)?))
    }

    fn make_table(&self, schema: &TableSchema) -> Result<()> {
        self.run(&drop_table_sql(&schema.table_name), &[])?;
        self.run(&create_table_sql(schema, false), &[])?;
        Ok(())
    }

    fn fill_table(
        &self,
        schema: &TableSchema,
        repo: &(impl ZettelSource + ?Sized),
    ) -> Result<()> {
        let sql = insert_row_sql(schema, true);
        for note in self.parsed_notes(&schema.table_name, repo)? {
            let id = note.meta.id.as_ref().unwrap().to_text();
            let vals = materialized_values(schema, &id, &note);
            let refs: Vec<&dyn ToSql> = vals.iter().map(|v| v as &dyn ToSql).collect();
            self.run(&sql, &refs)?;
        }
        Ok(())
    }

    fn rematerialize_type(
        &self,
        name: &str,
        repo: &(impl ZettelSource + ?Sized),
    ) -> Result<()> {
        let sql = "SELECT path FROM zettels WHERE type = '_typedef' AND title = ?1";
        let typedef = match self.first(sql, name) {
            Some(path) => {
                let content = repo.read_file(&path)?;
                schema_from_parsed(&parser::parse(&content, &path)?).ok()
            }
            None => None,
        };
        let schema = merge_schemas(typedef, self.infer_schema(name, repo)?);
        if schema.columns.is_empty() {
            return Ok(());
        }
        self.make_table(&schema)?;
        self.fill_table(&schema, repo)
    }

    fn materialize_all_types(&self, repo: &impl ZettelSource) -> Result<(usize, Vec<String>)> {
        let given = self.load_all_typedefs(repo);
        let names = self.query_raw(
            "SELECT DISTINCT type FROM zettels WHERE type != '_typedef' AND type != ''",
        )?;
        let mut inferred = Vec::new();
        for name in names.iter().flatten() {
            inferred.push(self.infer_schema(name, repo)?);
        }
        let plan = plan_tables(&inferred, &given);
        for schema in &plan.filled {
            self.make_table(schema)?;
            self.fill_table(schema, repo)?;
        }
        for schema in &plan.empty {
            self.make_table(schema)?;
        }
        Ok((plan.filled.len() + plan.empty.len(), plan.inferred))
    }

    fn collect_consistency_warnings(&self, repo: &impl ZettelSource) -> Vec<ConsistencyWarning> {
        let mut notes = Vec::new();
        for path in repo.list_zettels().unwrap() {
            let content = repo.read_file(&path).unwrap();
            notes.push((path, content));
        }
        collect_consistency_warnings(&notes, &self.load_all_typedefs(repo))
    }

    fn load_all_typedefs(&self, repo: &impl ZettelSource) -> TextMap<TableSchema> {
        let mut notes = Vec::new();
        for (_, path) in self.notes_of_type("_typedef").unwrap() {
            let content = repo.read_file(&path).unwrap();
            notes.push((path, content));
        }
        load_all_typedefs(&notes)
    }

    fn search_paginated(&self, query: &str, limit: usize, offset: usize) -> Result<Page> {
        let rows = self.pairs(
            "SELECT z.id, z.title FROM _zdb_fts JOIN zettels z ON z.rowid = _zdb_fts.rowid
             WHERE _zdb_fts MATCH ?1 ORDER BY rank LIMIT ?2 OFFSET ?3",
            &[&query, &(limit as i64), &(offset as i64)],
        )?;
        let sql = "SELECT COUNT(*) FROM _zdb_fts WHERE _zdb_fts MATCH ?1";
        let total_count = self
            .conn
            .query_row(sql, [query], |row| row.get(0))
            .map_err(sql_err)?;
        let hits = rows
            .into_iter()
            .map(|(id, title)| Hit { id, title })
            .collect();
        Ok(Page { hits, total_count })
    }

    fn search(&self, query: &str) -> Result<Vec<Hit>> {
        Ok(self.search_paginated(query, usize::MAX, 0)?.hits)
    }

    fn by_tag(&self, prefix: &str) -> Result<Vec<String>> {
        let sql = "SELECT DISTINCT zettel_id FROM _zdb_tags WHERE tag LIKE ?1";
        let rows = self.rows(sql, &[&format!("{prefix}%")])?.1;
        Ok(rows.into_iter().flatten().collect())
    }

    fn backlinks(&self, target: &str) -> Result<Vec<String>> {
        let sql = "SELECT DISTINCT source_id FROM _zdb_links WHERE target_path = ?1";
        Ok(self.rows(sql, &[&target])?.1.into_iter().flatten().collect())
    }

    fn backlinking_zettel_paths(&self, target: &str) -> Result<Vec<(String, String)>> {
        self.pairs(
            "SELECT DISTINCT l.source_id, z.path FROM _zdb_links l
             JOIN zettels z ON l.source_id = z.id WHERE l.target_path = ?1",
            &[&target],
        )
    }

    fn broken_backlinks(&self) -> Result<Vec<(String, String)>> {
        self.pairs(
            "SELECT DISTINCT l.source_id, l.target_path FROM _zdb_links l
             LEFT JOIN zettels z ON l.target_path = z.id WHERE z.id IS NULL",
            &[],
        )
    }
}

// ---------------------------------------------------------------------------
// Statements on the two
// ---------------------------------------------------------------------------
const FIRST_ID: &str = "20260301000000";

fn refs(files: &[(String, String)]) -> Vec<(&str, &str)> {
    files
        .iter()
        .map(|(p, c)| (p.as_str(), c.as_str()))
        .collect()
}

fn strs(paths: &[String]) -> Vec<&str> {
    paths.iter().map(|p| p.as_str()).collect()
}

struct SqlEngine<'a> {
    index: &'a Index,
    repo: &'a MemStore,
    txn: Option<TransactionBuffer>,
}

impl Drop for SqlEngine<'_> {
    fn drop(&mut self) {
        if self.txn.take().is_some() {
            self.index.run("ROLLBACK TO zdb_txn", &[]).unwrap();
            self.index.run("RELEASE zdb_txn", &[]).unwrap();
        }
    }
}

impl<'a> SqlEngine<'a> {
    fn new(index: &'a Index, repo: &'a MemStore) -> Self {
        SqlEngine {
            index,
            repo,
            txn: None,
        }
    }

    fn execute(&mut self, sql: &str) -> Result<SqlResult> {
        let mut results = Vec::new();
        for stmt in &parse_batch(sql)? {
            results.push(self.execute_statement(stmt)?);
        }
        single_result(results)
    }

    fn execute_statement(&mut self, stmt: &SqlStatement) -> Result<SqlResult> {
        dispatch(stmt)?;
        match stmt {
            SqlStatement::CreateTable {
                name,
                if_not_exists,
                columns,
            } => self.create_table(name, *if_not_exists, columns),
            SqlStatement::Insert {
                replace_into,
                or_clause,
                on_clause,
                table,
                columns,
                source,
            } => {
                let table = insert_target(*replace_into, *or_clause, *on_clause, table)?;
                self.insert(&table, columns, source)
            }
            SqlStatement::Update {
                table,
                assignments,
                selection,
                ..
            } => self.update(&unquote_identifier(table), assignments, selection),
            SqlStatement::Delete { tables, selection } => {
                self.delete(&delete_table(tables)?, selection)
            }
            SqlStatement::AlterTable { name, operations } => {
                self.alter_table(&unquote_identifier(name), operations)
            }
            SqlStatement::Drop {
                if_exists,
                names,
                cascade,
                ..
            } => {
                for name in names {
                    self.drop_table(&unquote_identifier(name), *if_exists, *cascade)?;
                }
                Ok(dropped_result(names.len()))
            }
            SqlStatement::Begin => {
                begin(&mut self.txn)?;
                self.index.run("SAVEPOINT zdb_txn", &[])?;
                Ok(SqlResult::Done("BEGIN".into()))
            }
            SqlStatement::Commit => self.commit(),
            SqlStatement::Rollback => {
                check_active(&self.txn)?;
                self.index.run("ROLLBACK TO zdb_txn", &[])?;
                self.index.run("RELEASE zdb_txn", &[])?;
                self.txn = None;
                Ok(SqlResult::Done("ROLLBACK".into()))
            }
            SqlStatement::Other(text) => {
                let (columns, rows) = self.index.rows(text, &[])?;
                Ok(SqlResult::Rows { columns, rows })
            }
            _ => panic!("statement should have been refused"),
        }
    }

    fn read_content(&self, path: &str) -> Result<String> {
        match read_buffered(&self.txn, path)? {
            Some(content) => Ok(content),
            None => self.repo.read_file(path),
        }
    }

    fn commit(&mut self) -> Result<SqlResult> {
        check_active(&self.txn)?;
        let effects = match &self.txn {
            Some(buf) => {
                let stored = buf
                    .deletes
                    .iter()
                    .map(|d| self.repo.read_file(&d.path).is_ok())
                    .collect();
                handle_commit(buf, &stored)
            }
            None => Vec::new(),
        };
        self.perform_all(effects)?;
        self.index.run("RELEASE zdb_txn", &[])?;
        self.txn = None;
        Ok(SqlResult::Done("COMMIT".into()))
    }

    fn perform_all(&mut self, effects: Vec<Effect>) -> Result<()> {
        for effect in effects {
            let effect = match &mut self.txn {
                Some(buf) => hold_back(buf, effect),
                None => Some(effect),
            };
            if let Some(effect) = effect {
                self.perform(effect)?;
            }
        }
        Ok(())
    }

    fn perform(&self, effect: Effect) -> Result<()> {
        match effect {
            Effect::StageWrite { .. } | Effect::StageDelete { .. } => {
                panic!("nothing is held back outside a transaction")
            }
            Effect::CommitFile { path, content, message } => {
                self.repo.commit_file(&path, &content, &message)?;
            }
            Effect::CommitFiles { files, message } => {
                self.repo.commit_files(&refs(&files), &message)?;
            }
            Effect::CommitBatch { files, deleted, message } => {
                self.repo.commit_batch(&refs(&files), &strs(&deleted), &message)?;
            }
            Effect::DeleteFile { path, message } => {
                self.repo.delete_file(&path, &message)?;
            }
            Effect::DeleteFiles { paths, message } => {
                self.repo.delete_files(&strs(&paths), &message)?;
            }
            Effect::Index { path, content } => self.index_content(&content, &path)?,
            Effect::Reindex { path, pending } => {
                let content = if pending {
                    self.read_content(&path)?
                } else {
                    self.repo.read_file(&path)?
                };
                self.index_content(&content, &path)?;
            }
            Effect::Forget { id } => self.index.remove_zettel(&id)?,
            Effect::Run { sql, values } => {
                let args: Vec<&dyn ToSql> = values.iter().map(|v| v as &dyn ToSql).collect();
                self.index.run(&sql, &args)?;
            }
            Effect::Rematerialize { table } => {
                self.index.rematerialize_type(&table, self.repo)?;
            }
        }
        Ok(())
    }

    fn carry_out(&mut self, outcome: Outcome) -> Result<SqlResult> {
        self.perform_all(outcome.effects)?;
        outcome.result
    }

    fn known_ids(&self) -> Result<Vec<String>> {
        let rows = self.index.query_raw("SELECT id FROM zettels")?;
        Ok(rows.into_iter().flatten().collect())
    }

    fn first_id(&self) -> Result<String> {
        let known = self.known_ids()?;
        if !known.contains(&FIRST_ID.to_string()) {
            return Ok(FIRST_ID.to_string());
        }
        Ok(unique_ids(FIRST_ID, &known, 2)?[1].to_text())
    }

    fn index_content(&self, content: &str, path: &str) -> Result<()> {
        self.index.index_zettel(&parser::parse(content, path)?)
    }

    fn typedef(&self, table: &str) -> Result<(String, String)> {
        let sql = "SELECT id, path FROM zettels WHERE type = '_typedef' AND title = ?1";
        self.index
            .pairs(sql, &[&table])?
            .pop()
            .ok_or_else(|| ZettelError::SqlEngine(format!("table not found: {table}")))
    }

    fn load_schema(&mut self, table: &str) -> Result<TableSchema> {
        let (_, path) = self.typedef(table)?;
        let content = self.repo.read_file(&path)?;
        schema_from_parsed(&parser::parse(&content, &path)?)
    }

    fn create_table(
        &mut self,
        name: &str,
        if_not_exists: bool,
        columns: &Vec<SqlColumn>,
    ) -> Result<SqlResult> {
        let table = unquote_identifier(name);
        let present = self.typedef(&table).is_ok();
        match plan_create_table(name, present, if_not_exists, columns)? {
            CreatePlan::Skip => Ok(skipped_result(&table)),
            CreatePlan::Create(schema) => {
                let id = ZettelId(self.first_id()?);
                self.carry_out(handle_create_table(&id, &schema))
            }
        }
    }

    fn insert(
        &mut self,
        table: &str,
        columns: &Vec<String>,
        source: &InsertSource,
    ) -> Result<SqlResult> {
        let schema = self.load_schema(table)?;
        let first = self.first_id()?;
        let known = self.known_ids()?;
        let in_txn = self.txn.is_some();
        let outcome = handle_insert(&schema, table, columns, source, &first, &known, in_txn)?;
        self.carry_out(outcome)
    }

    fn matching(
        &self,
        table: &str,
        selection: &Option<Condition>,
    ) -> Result<Vec<(String, String)>> {
        let clause = selection.as_ref().map(|c| c.shown.clone());
        let sql = select_ids_sql(table, clause.as_deref());
        let rows = self
            .index
            .query_raw(&sql)
            .map_err(|e| where_error(&clause, &e.message()))?;
        let mut found = Vec::new();
        for id in rows.into_iter().flatten() {
            let path = self.index.resolve_path(&id)?;
            found.push((id, path));
        }
        Ok(found)
    }

    fn update(
        &mut self,
        table: &str,
        assignments: &Vec<(Vec<String>, SqlExpr)>,
        selection: &Option<Condition>,
    ) -> Result<SqlResult> {
        let schema = self.load_schema(table)?;
        let updates = plan_updates(&schema.columns, assignments)?;
        let edit = NoteEdit::Update { schema, updates };
        let in_txn = self.txn.is_some();
        let outcome = match row_target(selection) {
            RowTarget::One(id) => {
                let path = self.index.resolve_path(&id)?;
                let content = self.read_content(&path)?;
                update_row(table, &id, &path, &content, &edit, in_txn)?
            }
            RowTarget::Matching => {
                let mut rows = FoundRows {
                    ids: Vec::new(),
                    notes: Vec::new(),
                };
                for (id, path) in self.matching(table, selection)? {
                    let content = self.read_content(&path)?;
                    rows.ids.push(id);
                    rows.notes.push((path, content));
                }
                update_rows(table, &rows, &edit, in_txn)?
            }
        };
        self.carry_out(outcome)
    }

    fn delete(&mut self, table: &str, selection: &Option<Condition>) -> Result<SqlResult> {
        self.load_schema(table)?;
        let in_txn = self.txn.is_some();
        let outcome = match row_target(selection) {
            RowTarget::One(id) => {
                let path = self.index.resolve_path(&id)?;
                delete_row(table, &id, &path, in_txn)
            }
            RowTarget::Matching => {
                let rows = self.matching(table, selection)?;
                delete_rows(table, &rows, in_txn)
            }
        };
        self.carry_out(outcome)
    }

    fn stored_notes(&self, paths: &[String]) -> Result<Vec<(String, String)>> {
        let mut notes = Vec::new();
        for path in paths {
            notes.push((path.clone(), self.repo.read_file(path)?));
        }
        Ok(notes)
    }

    fn alter_table(
        &mut self,
        table: &str,
        operations: &Vec<AlterOperation>,
    ) -> Result<SqlResult> {
        let (typedef_id, path) = self.typedef(table)?;
        let id = ZettelId(typedef_id);
        let altered = alter_schema(self.load_schema(table)?, operations)?;
        let schema = altered.schema;
        let outcome = match altered.rename {
            None => handle_alter_table(table, &id, &path, &schema),
            Some((old_name, new_name, zone)) => {
                let rows = self.matching(table, &None)?;
                let paths: Vec<String> = rows.into_iter().map(|(_, p)| p).collect();
                let notes = self.stored_notes(&paths)?;
                let edit = NoteEdit::Rename {
                    old_name,
                    new_name,
                    zone,
                };
                handle_rename_column(table, &id, &path, &schema, &notes, &edit)?
            }
        };
        self.carry_out(outcome)
    }

    fn drop_table(&mut self, table: &str, if_exists: bool, cascade: bool) -> Result<()> {
        let typedef = self.typedef(table).ok();
        let rows = self.index.notes_of_type(table)?;
        let plan = plan_drop(table, &typedef, &rows, if_exists, cascade)?;
        let notes = match &plan {
            DropPlan::Untype { paths, .. } => self.stored_notes(paths)?,
            _ => Vec::new(),
        };
        let effects = handle_drop_table(table, &plan, &notes)?;
        self.perform_all(effects)
    }
}

fn setup() -> (MemStore, Index) {
    (MemStore::new(), Index::open())
}

fn engine_exec_ok(repo: &MemStore, index: &Index, sql: &str) {
    let mut engine = SqlEngine::new(index, repo);
    engine.execute(sql).unwrap();
}

fn engine_exec_id(repo: &MemStore, index: &Index, sql: &str) -> String {
    let mut engine = SqlEngine::new(index, repo);
    match engine.execute(sql).unwrap() {
        SqlResult::Done(id) => id,
        _ => panic!("expected Done"),
    }
}

#[test]
fn create_table_produces_typedef_zettel() {
    let (repo, index) = setup();
    let mut engine = SqlEngine::new(&index, &repo);

    let result = engine
        .execute("CREATE TABLE projects (name TEXT, priority INTEGER)")
        .unwrap();

    match result {
        SqlResult::Done(msg) => assert!(msg.contains("projects")),
        _ => panic!("expected Ok"),
    }

    // Typedef zettel should be in index
    let rows = index
        .query_raw("SELECT title, type FROM zettels WHERE type = '_typedef'")
        .unwrap();
    assert_eq!(rows.len(), 1);
    assert_eq!(rows[0][0], "projects");
    assert_eq!(rows[0][1], "_typedef");

    // Materialized table should exist
    let rows = index.query_raw("SELECT COUNT(*) FROM projects").unwrap();
    assert_eq!(rows[0][0], "0");
}

#[test]
fn create_table_rejects_reserved_names() {
    let (repo, index) = setup();
    let mut engine = SqlEngine::new(&index, &repo);

    let err = engine
        .execute("CREATE TABLE zettels (name TEXT)")
        .unwrap_err();
    assert!(err.message().contains("reserved"));

    let err = engine
        .execute("CREATE TABLE _zdb_foo (name TEXT)")
        .unwrap_err();
    assert!(err.message().contains("reserved"));
}

#[test]
fn create_table_rejects_duplicate() {
    let (repo, index) = setup();
    let mut engine = SqlEngine::new(&index, &repo);

    engine.execute("CREATE TABLE projects (name TEXT)").unwrap();
    let err = engine
        .execute("CREATE TABLE projects (name TEXT)")
        .unwrap_err();
    assert!(err.message().contains("already exists"));
}

#[test]
fn create_table_if_not_exists_is_idempotent() {
    let (repo, index) = setup();
    let mut engine = SqlEngine::new(&index, &repo);

    engine
        .execute("CREATE TABLE IF NOT EXISTS projects (name TEXT)")
        .unwrap();
    // Second call with IF NOT EXISTS should succeed (no-op)
    let result = engine
        .execute("CREATE TABLE IF NOT EXISTS projects (name TEXT)")
        .unwrap();
    match &result {
        SqlResult::Done(msg) => assert!(msg.contains("skipped")),
        other => panic!("expected SqlResult::Done, got {other:?}"),
    }

    // Without IF NOT EXISTS should still error
    let err = engine
        .execute("CREATE TABLE projects (name TEXT)")
        .unwrap_err();
    assert!(err.message().contains("already exists"));
}

#[test]
fn create_table_with_references() {
    let (repo, index) = setup();
    let mut engine = SqlEngine::new(&index, &repo);

    engine.execute("CREATE TABLE people (name TEXT)").unwrap();
    engine
        .execute("CREATE TABLE tasks (name TEXT, assignee TEXT REFERENCES people(id))")
        .unwrap();

    // Check materialized table has correct columns
    let rows = index.query_raw("PRAGMA table_info(tasks)").unwrap();
    let col_names: Vec<&str> = rows.iter().map(|r| r[1].as_str()).collect();
    assert!(col_names.contains(&"id"));
    assert!(col_names.contains(&"name"));
    assert!(col_names.contains(&"assignee"));
}

#[test]
fn insert_creates_zettel_and_materialized_row() {
    let (repo, index) = setup();
    let mut engine = SqlEngine::new(&index, &repo);

    engine
        .execute("CREATE TABLE projects (name TEXT, status TEXT, priority INTEGER)")
        .unwrap();

    let result = engine
        .execute("INSERT INTO projects (name, status, priority) VALUES ('Alpha', 'active', 1)")
        .unwrap();

    let zettel_id = match result {
        SqlResult::Done(id) => id,
        _ => panic!("expected Ok with id"),
    };

    // Check materialized table
    let rows = index
        .query_raw("SELECT name, status, priority FROM projects")
        .unwrap();
    assert_eq!(rows.len(), 1);
    assert_eq!(rows[0][0], "Alpha");
    assert_eq!(rows[0][1], "active");
    assert_eq!(rows[0][2], "1");

    // Check zettel exists in index
    let rows = index
        .query_raw(&format!(
            "SELECT title, type FROM zettels WHERE id = '{zettel_id}'"
        ))
        .unwrap();
    assert_eq!(rows[0][0], "Alpha"); // title = first TEXT column value
    assert_eq!(rows[0][1], "projects");

    // Check zettel file in Git (typed → subfolder)
    let path = index.resolve_path(&zettel_id).unwrap();
    assert!(path.starts_with("zettelkasten/projects/"));
    let content = repo.read_file(&path).unwrap();
    assert!(content.contains("type: projects"));
    assert!(content.contains("priority: 1"));
    assert!(content.contains("## name"));
    assert!(content.contains("Alpha"));
}

#[test]
fn insert_multi_row_creates_n_zettels() {
    let (repo, index) = setup();
    let mut engine = SqlEngine::new(&index, &repo);

    engine
        .execute("CREATE TABLE items (name TEXT, score INTEGER)")
        .unwrap();

    let result = engine
        .execute(
            "INSERT INTO items (name, score) VALUES ('alpha', 10), ('beta', 20), ('gamma', 30)",
        )
        .unwrap();

    // Returns comma-separated IDs
    let ids_str = match result {
        SqlResult::Done(ids) => ids,
        _ => panic!("expected Ok with ids"),
    };
    let ids: Vec<&str> = ids_str.split(',').collect();
    assert_eq!(ids.len(), 3, "should return 3 IDs");

    // All IDs are distinct 14-digit timestamps
    for id in &ids {
        assert_eq!(id.len(), 14, "ID should be 14 digits: {id}");
        assert!(
            id.chars().all(|c| c.is_ascii_digit()),
            "ID should be numeric: {id}"
        );
    }
    let unique: std::collections::HashSet<&&str> = ids.iter().collect();
    assert_eq!(unique.len(), 3, "all IDs should be unique");

    // 3 rows in materialized table
    let rows = index
        .query_raw("SELECT name, score FROM items ORDER BY name")
        .unwrap();
    assert_eq!(rows.len(), 3);
    assert_eq!(rows[0][0], "alpha");
    assert_eq!(rows[0][1], "10");
    assert_eq!(rows[1][0], "beta");
    assert_eq!(rows[1][1], "20");
    assert_eq!(rows[2][0], "gamma");
    assert_eq!(rows[2][1], "30");

    // 3 zettels in index
    let count = index
        .query_raw("SELECT COUNT(*) FROM zettels WHERE type = 'items'")
        .unwrap();
    assert_eq!(count[0][0], "3");
}

#[test]
fn insert_multi_row_single_commit() {
    let (repo, index) = setup();
    let mut engine = SqlEngine::new(&index, &repo);

    engine.execute("CREATE TABLE things (label TEXT)").unwrap();

    let head_before = repo.head_oid().unwrap();

    engine
        .execute("INSERT INTO things (label) VALUES ('a'), ('b'), ('c')")
        .unwrap();

    let head_after = repo.head_oid().unwrap();
    // Head moved (commit happened)
    assert_ne!(head_before.0, head_after.0);

    // The single commit contains all 3 files
    let diff = repo.diff_paths(&head_before.0, &head_after.0).unwrap();
    assert_eq!(diff.len(), 3, "single commit should contain 3 new files");
}

#[test]
fn select_returns_materialized_data() {
    let (repo, index) = setup();
    let mut engine = SqlEngine::new(&index, &repo);

    engine
        .execute("CREATE TABLE items (name TEXT, count INTEGER)")
        .unwrap();
    engine
        .execute("INSERT INTO items (name, count) VALUES ('Widget', 42)")
        .unwrap();

    let result = engine.execute("SELECT name, count FROM items").unwrap();
    match result {
        SqlResult::Rows { rows, .. } => {
            assert_eq!(rows.len(), 1);
            assert_eq!(rows[0][0], "Widget");
            assert_eq!(rows[0][1], "42");
        }
        _ => panic!("expected Rows"),
    }
}

#[test]
fn update_modifies_zettel_and_materialized_row() {
    let (repo, index) = setup();
    let mut engine = SqlEngine::new(&index, &repo);

    engine
        .execute("CREATE TABLE projects (name TEXT, priority INTEGER)")
        .unwrap();
    let id = match engine
        .execute("INSERT INTO projects (name, priority) VALUES ('Alpha', 1)")
        .unwrap()
    {
        SqlResult::Done(id) => id,
        _ => panic!("expected Ok"),
    };

    engine
        .execute(&format!(
            "UPDATE projects SET priority = 5 WHERE id = '{id}'"
        ))
        .unwrap();

    // Check materialized table
    let rows = index.query_raw("SELECT priority FROM projects").unwrap();
    assert_eq!(rows[0][0], "5");

    // Check zettel file (resolve via index since typed → subfolder)
    let path = index.resolve_path(&id).unwrap();
    let content = repo.read_file(&path).unwrap();
    assert!(content.contains("priority: 5"));
}

#[test]
fn delete_removes_zettel_and_materialized_row() {
    let (repo, index) = setup();
    let mut engine = SqlEngine::new(&index, &repo);

    engine.execute("CREATE TABLE projects (name TEXT)").unwrap();
    let id = match engine
        .execute("INSERT INTO projects (name) VALUES ('Alpha')")
        .unwrap()
    {
        SqlResult::Done(id) => id,
        _ => panic!("expected Ok"),
    };

    engine
        .execute(&format!("DELETE FROM projects WHERE id = '{id}'"))
        .unwrap();

    // Materialized table should be empty
    let rows = index.query_raw("SELECT COUNT(*) FROM projects").unwrap();
    assert_eq!(rows[0][0], "0");

    // Zettel should be gone from index
    let rows = index
        .query_raw(&format!("SELECT COUNT(*) FROM zettels WHERE id = '{id}'"))
        .unwrap();
    assert_eq!(rows[0][0], "0");

    // File should be gone from Git
    let result = repo.read_file(&format!("zettelkasten/projects/{id}.md"));
    assert!(result.is_err());
}

#[test]
fn full_create_insert_select_update_delete_cycle() {
    let (repo, index) = setup();
    let mut engine = SqlEngine::new(&index, &repo);

    // CREATE
    engine
        .execute("CREATE TABLE tasks (name TEXT, status TEXT, priority INTEGER)")
        .unwrap();

    // INSERT
    let id = match engine
        .execute(
            "INSERT INTO tasks (name, status, priority) VALUES ('Build feature', 'todo', 3)",
        )
        .unwrap()
    {
        SqlResult::Done(id) => id,
        _ => panic!("expected Ok"),
    };

    // SELECT
    let result = engine
        .execute("SELECT name, status, priority FROM tasks")
        .unwrap();
    match result {
        SqlResult::Rows { rows, .. } => {
            assert_eq!(rows[0][0], "Build feature");
            assert_eq!(rows[0][1], "todo");
            assert_eq!(rows[0][2], "3");
        }
        _ => panic!("expected Rows"),
    }

    // UPDATE
    engine
        .execute(&format!(
            "UPDATE tasks SET status = 'done', priority = 1 WHERE id = '{id}'"
        ))
        .unwrap();

    let result = engine
        .execute("SELECT status, priority FROM tasks")
        .unwrap();
    match result {
        SqlResult::Rows { rows, .. } => {
            assert_eq!(rows[0][0], "done");
            assert_eq!(rows[0][1], "1");
        }
        _ => panic!("expected Rows"),
    }

    // DELETE
    engine
        .execute(&format!("DELETE FROM tasks WHERE id = '{id}'"))
        .unwrap();
    let result = engine.execute("SELECT COUNT(*) FROM tasks").unwrap();
    match result {
        SqlResult::Rows { rows, .. } => assert_eq!(rows[0][0], "0"),
        _ => panic!("expected Rows"),
    }
}

#[test]
fn insert_with_fk_validates_reference() {
    let (repo, index) = setup();
    let mut engine = SqlEngine::new(&index, &repo);

    engine.execute("CREATE TABLE people (name TEXT)").unwrap();
    engine
        .execute("CREATE TABLE tasks (name TEXT, assignee TEXT REFERENCES people(id))")
        .unwrap();

    // Insert with non-existent reference should fail
    let err = engine
        .execute("INSERT INTO tasks (name, assignee) VALUES ('Fix bug', '99999999999999')")
        .unwrap_err();
    assert!(err.message().contains("referenced zettel not found"));
}

#[test]
fn insert_produces_correct_zone_mapping() {
    let (repo, index) = setup();
    let mut engine = SqlEngine::new(&index, &repo);

    engine
        .execute("CREATE TABLE projects (name TEXT, status TEXT, priority INTEGER)")
        .unwrap();

    let id = match engine
        .execute("INSERT INTO projects (name, status, priority) VALUES ('Alpha', 'active', 1)")
        .unwrap()
    {
        SqlResult::Done(id) => id,
        _ => panic!("expected Ok"),
    };

    let path = index.resolve_path(&id).unwrap();
    let content = repo.read_file(&path).unwrap();

    // priority (INTEGER) → frontmatter
    assert!(content.contains("priority: 1"));
    // name (TEXT) → body section
    assert!(content.contains("## name\n\nAlpha"));
    // status (TEXT) → body section
    assert!(content.contains("## status\n\nactive"));
    // type should be table name
    assert!(content.contains("type: projects"));
    // title should be first TEXT column value
    assert!(content.contains("title: Alpha"));
}

#[test]
fn typed_zettel_stored_in_subfolder_and_crud_works() {
    let (repo, index) = setup();
    let mut engine = SqlEngine::new(&index, &repo);

    engine.execute("CREATE TABLE docs (name TEXT)").unwrap();

    // INSERT → should go to zettelkasten/docs/{id}.md
    let id = match engine
        .execute("INSERT INTO docs (name) VALUES ('Guide')")
        .unwrap()
    {
        SqlResult::Done(id) => id,
        _ => panic!("expected Ok"),
    };
    let path = index.resolve_path(&id).unwrap();
    assert!(
        path.starts_with("zettelkasten/docs/"),
        "path should be in type subfolder: {path}"
    );

    // UPDATE via SQL → should find it in subfolder
    engine
        .execute(&format!(
            "UPDATE docs SET name = 'Manual' WHERE id = '{id}'"
        ))
        .unwrap();
    let content = repo.read_file(&path).unwrap();
    assert!(content.contains("Manual"));

    // DELETE via SQL → should remove from subfolder
    engine
        .execute(&format!("DELETE FROM docs WHERE id = '{id}'"))
        .unwrap();
    assert!(repo.read_file(&path).is_err());
}

#[test]
fn insert_fills_default_value() {
    let (repo, index) = setup();

    // Manually create typedef with allowed_values + default_value
    let typedef = "---\nid: 20260301110000\ntitle: task\ntype: _typedef\ncolumns:\n  - name: status\n    data_type: TEXT\n    zone: frontmatter\n    allowed_values:\n      - todo\n      - doing\n      - done\n    default_value: todo\n  - name: name\n    data_type: TEXT\n    zone: frontmatter\n---\n";
    let typedef_path = "zettelkasten/_typedef/20260301110000.md";
    repo.commit_file(typedef_path, typedef, "add typedef")
        .unwrap();
    let parsed = parser::parse(typedef, typedef_path).unwrap();
    index.index_zettel(&parsed).unwrap();
    index.materialize_all_types(&repo).unwrap();

    let mut engine = SqlEngine::new(&index, &repo);

    // INSERT omitting status → should get default "todo"
    let id = match engine
        .execute("INSERT INTO task (name) VALUES ('Write tests')")
        .unwrap()
    {
        SqlResult::Done(id) => id,
        _ => panic!("expected Ok"),
    };
    let path = index.resolve_path(&id).unwrap();
    let content = repo.read_file(&path).unwrap();
    assert!(
        content.contains("status: todo"),
        "expected default status in:\n{content}"
    );
}

#[test]
fn insert_rejects_invalid_allowed_value() {
    let (repo, index) = setup();

    let typedef = "---\nid: 20260301110100\ntitle: task2\ntype: _typedef\ncolumns:\n  - name: status\n    data_type: TEXT\n    zone: frontmatter\n    allowed_values:\n      - todo\n      - doing\n      - done\n  - name: name\n    data_type: TEXT\n    zone: frontmatter\n---\n";
    let typedef_path = "zettelkasten/_typedef/20260301110100.md";
    repo.commit_file(typedef_path, typedef, "add typedef")
        .unwrap();
    let parsed = parser::parse(typedef, typedef_path).unwrap();
    index.index_zettel(&parsed).unwrap();
    index.materialize_all_types(&repo).unwrap();

    let mut engine = SqlEngine::new(&index, &repo);

    // INSERT with invalid value → should error
    let result = engine.execute("INSERT INTO task2 (name, status) VALUES ('Test', 'invalid')");
    assert!(result.is_err());
    let err = result.unwrap_err().message();
    assert!(
        err.contains("not in allowed values"),
        "expected validation error: {err}"
    );
}

#[test]
fn update_rejects_invalid_allowed_value() {
    let (repo, index) = setup();

    let typedef = "---\nid: 20260301110200\ntitle: task3\ntype: _typedef\ncolumns:\n  - name: status\n    data_type: TEXT\n    zone: frontmatter\n    allowed_values:\n      - todo\n      - doing\n      - done\n    default_value: todo\n  - name: name\n    data_type: TEXT\n    zone: frontmatter\n---\n";
    let typedef_path = "zettelkasten/_typedef/20260301110200.md";
    repo.commit_file(typedef_path, typedef, "add typedef")
        .unwrap();
    let parsed = parser::parse(typedef, typedef_path).unwrap();
    index.index_zettel(&parsed).unwrap();
    index.materialize_all_types(&repo).unwrap();

    let mut engine = SqlEngine::new(&index, &repo);

    // INSERT valid
    let id = match engine
        .execute("INSERT INTO task3 (name, status) VALUES ('Test', 'todo')")
        .unwrap()
    {
        SqlResult::Done(id) => id,
        _ => panic!("expected Ok"),
    };

    // UPDATE with invalid value
    let result = engine.execute(&format!(
        "UPDATE task3 SET status = 'bad' WHERE id = '{id}'"
    ));
    assert!(result.is_err());
    let err = result.unwrap_err().message();
    assert!(
        err.contains("not in allowed values"),
        "expected validation error: {err}"
    );
}

#[test]
fn drop_table_cascade_deletes_all() {
    let (repo, index) = setup();
    let mut engine = SqlEngine::new(&index, &repo);

    engine.execute("CREATE TABLE dropme (name TEXT)").unwrap();
    engine
        .execute("INSERT INTO dropme (name) VALUES ('a')")
        .unwrap();
    engine
        .execute("INSERT INTO dropme (name) VALUES ('b')")
        .unwrap();

    engine.execute("DROP TABLE dropme CASCADE").unwrap();

    // Typedef gone
    let rows = index
        .query_raw("SELECT id FROM zettels WHERE type = '_typedef' AND title = 'dropme'")
        .unwrap();
    assert!(rows.is_empty());

    // Data zettels gone
    let rows = index
        .query_raw("SELECT id FROM zettels WHERE type = 'dropme'")
        .unwrap();
    assert!(rows.is_empty());

    // Materialized table gone
    let result = index.query_raw("SELECT * FROM dropme");
    assert!(result.is_err());
}

#[test]
fn drop_table_strips_type_from_data_zettels() {
    let (repo, index) = setup();
    let mut engine = SqlEngine::new(&index, &repo);

    engine.execute("CREATE TABLE stripme (name TEXT)").unwrap();
    let id = match engine
        .execute("INSERT INTO stripme (name) VALUES ('keep')")
        .unwrap()
    {
        SqlResult::Done(id) => id,
        _ => panic!("expected Ok"),
    };

    engine.execute("DROP TABLE stripme").unwrap();

    // Typedef gone
    let rows = index
        .query_raw("SELECT id FROM zettels WHERE type = '_typedef' AND title = 'stripme'")
        .unwrap();
    assert!(rows.is_empty());

    // Data zettel still exists but type is cleared
    let path = index.resolve_path(&id).unwrap();
    let content = repo.read_file(&path).unwrap();
    assert!(!content.contains("type: stripme"));
}

#[test]
fn drop_table_removes_typedef_and_materialized() {
    let (repo, index) = setup();
    let mut engine = SqlEngine::new(&index, &repo);

    engine
        .execute("CREATE TABLE removeme (status TEXT)")
        .unwrap();
    engine
        .execute("INSERT INTO removeme (status) VALUES ('x')")
        .unwrap();

    // Materialized table exists before drop
    assert!(index.query_raw("SELECT * FROM removeme").is_ok());

    engine.execute("DROP TABLE removeme").unwrap();

    // Typedef removed from index
    let rows = index
        .query_raw("SELECT id FROM zettels WHERE type = '_typedef' AND title = 'removeme'")
        .unwrap();
    assert!(rows.is_empty(), "typedef should be removed");

    // Materialized table dropped
    assert!(
        index.query_raw("SELECT * FROM removeme").is_err(),
        "materialized table should be dropped"
    );
}

#[test]
fn drop_table_if_exists_no_error() {
    let (repo, index) = setup();
    let mut engine = SqlEngine::new(&index, &repo);

    let result = engine.execute("DROP TABLE IF EXISTS nonexistent");
    assert!(result.is_ok());
}

#[test]
fn drop_table_rejects_non_table() {
    let (repo, index) = setup();
    let mut engine = SqlEngine::new(&index, &repo);

    let result = engine.execute("DROP VIEW something");
    assert!(result.is_err());
    assert!(result.unwrap_err().message().contains("not supported"));
}

#[test]
fn alter_table_add_column_extends_schema() {
    let (repo, index) = setup();
    let mut engine = SqlEngine::new(&index, &repo);

    engine.execute("CREATE TABLE addcol (name TEXT)").unwrap();
    engine
        .execute("ALTER TABLE addcol ADD COLUMN priority INTEGER")
        .unwrap();

    // Verify column exists in materialized table
    let result = engine.execute("SELECT * FROM addcol").unwrap();
    match result {
        SqlResult::Rows { columns, .. } => {
            assert!(columns.contains(&"priority".to_string()));
        }
        _ => panic!("expected Rows"),
    }
}

#[test]
fn alter_table_add_column_existing_data_gets_null() {
    let (repo, index) = setup();
    let mut engine = SqlEngine::new(&index, &repo);

    engine.execute("CREATE TABLE addcol2 (name TEXT)").unwrap();
    engine
        .execute("INSERT INTO addcol2 (name) VALUES ('test')")
        .unwrap();
    engine
        .execute("ALTER TABLE addcol2 ADD COLUMN score INTEGER")
        .unwrap();

    let result = engine.execute("SELECT name, score FROM addcol2").unwrap();
    match result {
        SqlResult::Rows { rows, .. } => {
            assert_eq!(rows.len(), 1);
            assert_eq!(rows[0][0], "test");
            assert_eq!(rows[0][1], "NULL"); // NULL column
        }
        _ => panic!("expected Rows"),
    }
}

#[test]
fn alter_table_drop_column_removes_from_schema() {
    let (repo, index) = setup();
    let mut engine = SqlEngine::new(&index, &repo);

    engine
        .execute("CREATE TABLE dropcol (name TEXT, extra TEXT)")
        .unwrap();
    engine
        .execute("ALTER TABLE dropcol DROP COLUMN extra")
        .unwrap();

    let result = engine.execute("SELECT * FROM dropcol").unwrap();
    match result {
        SqlResult::Rows { columns, .. } => {
            assert!(!columns.contains(&"extra".to_string()));
            assert!(columns.contains(&"name".to_string()));
        }
        _ => panic!("expected Rows"),
    }
}

#[test]
fn bulk_delete_removes_matching_rows() {
    let (repo, index) = setup();
    let mut engine = SqlEngine::new(&index, &repo);

    engine
        .execute("CREATE TABLE bulkdel (name TEXT, status TEXT)")
        .unwrap();
    engine
        .execute("INSERT INTO bulkdel (name, status) VALUES ('a', 'done')")
        .unwrap();
    engine
        .execute("INSERT INTO bulkdel (name, status) VALUES ('b', 'todo')")
        .unwrap();
    engine
        .execute("INSERT INTO bulkdel (name, status) VALUES ('c', 'done')")
        .unwrap();

    let result = engine
        .execute("DELETE FROM bulkdel WHERE status = 'done'")
        .unwrap();
    match result {
        SqlResult::Affected(n) => assert_eq!(n, 2),
        _ => panic!("expected Affected"),
    }

    let rows = engine.execute("SELECT name FROM bulkdel").unwrap();
    match rows {
        SqlResult::Rows { rows, .. } => {
            assert_eq!(rows.len(), 1);
            assert_eq!(rows[0][0], "b");
        }
        _ => panic!("expected Rows"),
    }
}

#[test]
fn bulk_delete_all_rows_when_no_where() {
    let (repo, index) = setup();
    let mut engine = SqlEngine::new(&index, &repo);

    engine.execute("CREATE TABLE bulkdel2 (name TEXT)").unwrap();
    engine
        .execute("INSERT INTO bulkdel2 (name) VALUES ('a')")
        .unwrap();
    engine
        .execute("INSERT INTO bulkdel2 (name) VALUES ('b')")
        .unwrap();

    let result = engine.execute("DELETE FROM bulkdel2").unwrap();
    match result {
        SqlResult::Affected(n) => assert_eq!(n, 2),
        _ => panic!("expected Affected"),
    }

    let rows = engine.execute("SELECT * FROM bulkdel2").unwrap();
    match rows {
        SqlResult::Rows { rows, .. } => assert!(rows.is_empty()),
        _ => panic!("expected Rows"),
    }
}

#[test]
fn bulk_update_modifies_matching_rows() {
    let (repo, index) = setup();
    let mut engine = SqlEngine::new(&index, &repo);

    engine
        .execute("CREATE TABLE bulkupd (name TEXT, priority INTEGER)")
        .unwrap();
    engine
        .execute("INSERT INTO bulkupd (name, priority) VALUES ('a', 1)")
        .unwrap();
    engine
        .execute("INSERT INTO bulkupd (name, priority) VALUES ('b', 2)")
        .unwrap();
    engine
        .execute("INSERT INTO bulkupd (name, priority) VALUES ('c', 1)")
        .unwrap();

    let result = engine
        .execute("UPDATE bulkupd SET priority = 9 WHERE priority = 1")
        .unwrap();
    match result {
        SqlResult::Affected(n) => assert_eq!(n, 2),
        _ => panic!("expected Affected"),
    }

    let rows = engine
        .execute("SELECT name, priority FROM bulkupd ORDER BY name")
        .unwrap();
    match rows {
        SqlResult::Rows { rows, .. } => {
            assert_eq!(rows[0][1], "9"); // a: was 1 → 9
            assert_eq!(rows[1][1], "2"); // b: unchanged
            assert_eq!(rows[2][1], "9"); // c: was 1 → 9
        }
        _ => panic!("expected Rows"),
    }
}

#[test]
fn bulk_update_all_rows_when_no_where() {
    let (repo, index) = setup();
    let mut engine = SqlEngine::new(&index, &repo);

    engine
        .execute("CREATE TABLE bulkupd2 (name TEXT, flag TEXT)")
        .unwrap();
    engine
        .execute("INSERT INTO bulkupd2 (name, flag) VALUES ('a', 'old')")
        .unwrap();
    engine
        .execute("INSERT INTO bulkupd2 (name, flag) VALUES ('b', 'old')")
        .unwrap();

    let result = engine.execute("UPDATE bulkupd2 SET flag = 'new'").unwrap();
    match result {
        SqlResult::Affected(n) => assert_eq!(n, 2),
        _ => panic!("expected Affected"),
    }

    let rows = engine.execute("SELECT flag FROM bulkupd2").unwrap();
    match rows {
        SqlResult::Rows { rows, .. } => {
            assert!(rows.iter().all(|r| r[0] == "new"));
        }
        _ => panic!("expected Rows"),
    }
}

#[test]
fn alter_table_rename_column_rewrites_frontmatter() {
    let (repo, index) = setup();
    let mut engine = SqlEngine::new(&index, &repo);

    engine
        .execute("CREATE TABLE renamefm (status TEXT, priority INTEGER)")
        .unwrap();
    let id = match engine
        .execute("INSERT INTO renamefm (status, priority) VALUES ('active', 5)")
        .unwrap()
    {
        SqlResult::Done(id) => id,
        _ => panic!("expected Ok"),
    };

    engine
        .execute("ALTER TABLE renamefm RENAME COLUMN priority TO importance")
        .unwrap();

    // Verify zettel file has renamed key
    let path = index.resolve_path(&id).unwrap();
    let content = repo.read_file(&path).unwrap();
    assert!(
        content.contains("importance: 5"),
        "expected renamed key in frontmatter: {content}"
    );
    assert!(
        !content.contains("priority:"),
        "old key should be gone: {content}"
    );

    // Verify materialized table has renamed column
    let result = engine.execute("SELECT importance FROM renamefm").unwrap();
    match result {
        SqlResult::Rows { rows, .. } => {
            assert_eq!(rows[0][0], "5");
        }
        _ => panic!("expected Rows"),
    }
}

#[test]
fn alter_table_rename_column_rewrites_body_heading() {
    let (repo, index) = setup();
    let mut engine = SqlEngine::new(&index, &repo);

    // Body zone column (TEXT, first column = body zone by default)
    engine
        .execute("CREATE TABLE renamebody (description TEXT)")
        .unwrap();
    let id = match engine
        .execute("INSERT INTO renamebody (description) VALUES ('hello world')")
        .unwrap()
    {
        SqlResult::Done(id) => id,
        _ => panic!("expected Ok"),
    };

    engine
        .execute("ALTER TABLE renamebody RENAME COLUMN description TO summary")
        .unwrap();

    let path = index.resolve_path(&id).unwrap();
    let content = repo.read_file(&path).unwrap();
    assert!(
        content.contains("## summary"),
        "expected renamed heading: {content}"
    );
    assert!(
        !content.contains("## description"),
        "old heading should be gone: {content}"
    );
}

#[test]
fn alter_table_rename_column_rewrites_reference() {
    let (repo, index) = setup();

    // Create referenced type first
    engine_exec_ok(&repo, &index, "CREATE TABLE person (name TEXT)");
    let person_id = engine_exec_id(&repo, &index, "INSERT INTO person (name) VALUES ('Alice')");

    // Create type with reference column and insert with the person's zettel id
    engine_exec_ok(
        &repo,
        &index,
        "CREATE TABLE task (title TEXT, assignee TEXT REFERENCES person)",
    );
    let id = engine_exec_id(
        &repo,
        &index,
        &format!("INSERT INTO task (title, assignee) VALUES ('Fix bug', '{person_id}')"),
    );

    let mut engine = SqlEngine::new(&index, &repo);
    engine
        .execute("ALTER TABLE task RENAME COLUMN assignee TO owner")
        .unwrap();

    let path = index.resolve_path(&id).unwrap();
    let content = repo.read_file(&path).unwrap();
    assert!(
        content.contains("- owner::"),
        "expected renamed reference key: {content}"
    );
    assert!(
        !content.contains("- assignee::"),
        "old reference key should be gone: {content}"
    );
}

#[test]
fn alter_table_rename_column_rejects_collision() {
    let (repo, index) = setup();
    let mut engine = SqlEngine::new(&index, &repo);
    engine
        .execute("CREATE TABLE coltest (name TEXT, status TEXT)")
        .unwrap();

    let err = engine
        .execute("ALTER TABLE coltest RENAME COLUMN name TO status")
        .unwrap_err();
    assert!(
        err.message().contains("column already exists: status"),
        "{}",
        err.message()
    );
}

#[test]
fn begin_commit_batches_writes() {
    let (repo, index) = setup();
    let mut engine = SqlEngine::new(&index, &repo);
    engine.execute("CREATE TABLE items (name TEXT)").unwrap();
    let before = repo.commits();

    engine.execute("BEGIN").unwrap();
    engine
        .execute("INSERT INTO items (name) VALUES ('a')")
        .unwrap();
    engine
        .execute("INSERT INTO items (name) VALUES ('b')")
        .unwrap();
    engine.execute("COMMIT").unwrap();

    let after = repo.commits();
    // Should produce exactly one additional git commit for the transaction
    assert_eq!(
        after - before,
        1,
        "expected single git commit for transaction"
    );

    let rows = index
        .query_raw("SELECT name FROM items ORDER BY name")
        .unwrap();
    assert_eq!(rows.len(), 2);
    assert_eq!(rows[0][0], "a");
    assert_eq!(rows[1][0], "b");
}

#[test]
fn begin_rollback_discards() {
    let (repo, index) = setup();
    let mut engine = SqlEngine::new(&index, &repo);
    engine.execute("CREATE TABLE items (name TEXT)").unwrap();
    let before = repo.commits();

    engine.execute("BEGIN").unwrap();
    engine
        .execute("INSERT INTO items (name) VALUES ('gone')")
        .unwrap();
    engine.execute("ROLLBACK").unwrap();

    let after = repo.commits();
    assert_eq!(after, before, "rollback should not produce git commits");

    let rows = index.query_raw("SELECT name FROM items").unwrap();
    assert!(rows.is_empty(), "rollback should discard inserts");
}

#[test]
fn read_your_writes_within_txn() {
    let (repo, index) = setup();
    let mut engine = SqlEngine::new(&index, &repo);
    engine.execute("CREATE TABLE items (name TEXT)").unwrap();

    engine.execute("BEGIN").unwrap();
    engine
        .execute("INSERT INTO items (name) VALUES ('visible')")
        .unwrap();

    // SELECT within the same transaction should see the inserted row
    let result = engine.execute("SELECT name FROM items").unwrap();
    match result {
        SqlResult::Rows { rows, .. } => {
            assert_eq!(rows.len(), 1);
            assert_eq!(rows[0][0], "visible");
        }
        _ => panic!("expected Rows"),
    }

    engine.execute("COMMIT").unwrap();
}

#[test]
fn drop_auto_rollback() {
    let (repo, index) = setup();
    {
        let mut engine = SqlEngine::new(&index, &repo);
        engine.execute("CREATE TABLE items (name TEXT)").unwrap();
        engine.execute("BEGIN").unwrap();
        engine
            .execute("INSERT INTO items (name) VALUES ('orphan')")
            .unwrap();
        // engine dropped here without COMMIT
    }

    // After drop, SQLite savepoint should be rolled back
    let rows = index.query_raw("SELECT name FROM items").unwrap();
    assert!(rows.is_empty(), "drop should auto-rollback");
}

#[test]
fn nested_begin_rejected() {
    let (repo, index) = setup();
    let mut engine = SqlEngine::new(&index, &repo);

    engine.execute("BEGIN").unwrap();
    let err = engine.execute("BEGIN").unwrap_err();
    assert!(err.message().contains("already active"), "{}", err.message());
    engine.execute("ROLLBACK").unwrap();
}

#[test]
fn insert_then_update_within_txn() {
    let (repo, index) = setup();
    let mut engine = SqlEngine::new(&index, &repo);
    engine.execute("CREATE TABLE items (name TEXT)").unwrap();

    engine.execute("BEGIN").unwrap();
    let id = match engine
        .execute("INSERT INTO items (name) VALUES ('old')")
        .unwrap()
    {
        SqlResult::Done(id) => id,
        _ => panic!("expected Ok"),
    };
    engine
        .execute(&format!("UPDATE items SET name = 'new' WHERE id = '{id}'"))
        .unwrap();
    engine.execute("COMMIT").unwrap();

    let rows = index.query_raw("SELECT name FROM items").unwrap();
    assert_eq!(rows.len(), 1);
    assert_eq!(rows[0][0], "new");

    // Verify git also has the updated content
    let path = index.resolve_path(&id).unwrap();
    let content = repo.read_file(&path).unwrap();
    assert!(content.contains("new"), "git should have updated content");
}

#[test]
fn insert_then_delete_within_txn() {
    let (repo, index) = setup();
    let mut engine = SqlEngine::new(&index, &repo);
    engine.execute("CREATE TABLE items (name TEXT)").unwrap();

    engine.execute("BEGIN").unwrap();
    let id = match engine
        .execute("INSERT INTO items (name) VALUES ('temp')")
        .unwrap()
    {
        SqlResult::Done(id) => id,
        _ => panic!("expected Ok"),
    };
    engine
        .execute(&format!("DELETE FROM items WHERE id = '{id}'"))
        .unwrap();
    engine.execute("COMMIT").unwrap();

    let rows = index.query_raw("SELECT name FROM items").unwrap();
    assert!(rows.is_empty(), "insert+delete should cancel out");
}

#[test]
fn error_preserves_active_txn() {
    let (repo, index) = setup();
    let mut engine = SqlEngine::new(&index, &repo);
    engine.execute("CREATE TABLE items (name TEXT)").unwrap();

    engine.execute("BEGIN").unwrap();
    engine
        .execute("INSERT INTO items (name) VALUES ('keep')")
        .unwrap();

    // Trigger an error (insert into nonexistent table)
    let err = engine.execute("INSERT INTO nonexistent (name) VALUES ('fail')");
    assert!(err.is_err());

    // Transaction should still be active — can still ROLLBACK
    engine.execute("ROLLBACK").unwrap();

    let rows = index.query_raw("SELECT name FROM items").unwrap();
    assert!(rows.is_empty(), "rollback after error should discard all");
}

#[test]
fn insert_delete_read_content_returns_not_found() {
    let (repo, index) = setup();
    let mut engine = SqlEngine::new(&index, &repo);
    engine.execute("CREATE TABLE items (name TEXT)").unwrap();

    engine.execute("BEGIN").unwrap();
    let id = match engine
        .execute("INSERT INTO items (name) VALUES ('ghost')")
        .unwrap()
    {
        SqlResult::Done(id) => id,
        _ => panic!("expected Ok"),
    };

    // Delete within same txn
    engine
        .execute(&format!("DELETE FROM items WHERE id = '{id}'"))
        .unwrap();

    // SELECT should return no rows (SQLite already removed)
    let result = engine.execute("SELECT name FROM items").unwrap();
    match result {
        SqlResult::Rows { rows, .. } => {
            assert!(rows.is_empty(), "deleted row should not appear in SELECT")
        }
        _ => panic!("expected Rows"),
    }

    engine.execute("COMMIT").unwrap();

    // Git should have no commit for cancelled write+delete
    let rows = index.query_raw("SELECT name FROM items").unwrap();
    assert!(rows.is_empty());
}

#[test]
fn two_inserts_one_deleted_commits_survivor() {
    let (repo, index) = setup();
    let mut engine = SqlEngine::new(&index, &repo);
    engine.execute("CREATE TABLE items (name TEXT)").unwrap();

    engine.execute("BEGIN").unwrap();

    let id1 = match engine
        .execute("INSERT INTO items (name) VALUES ('keep')")
        .unwrap()
    {
        SqlResult::Done(id) => id,
        _ => panic!("expected Ok"),
    };
    let id2 = match engine
        .execute("INSERT INTO items (name) VALUES ('remove')")
        .unwrap()
    {
        SqlResult::Done(id) => id,
        _ => panic!("expected Ok"),
    };

    engine
        .execute(&format!("DELETE FROM items WHERE id = '{id2}'"))
        .unwrap();
    engine.execute("COMMIT").unwrap();

    // Only first insert should survive
    let rows = index.query_raw("SELECT name FROM items").unwrap();
    assert_eq!(rows.len(), 1);
    assert_eq!(rows[0][0], "keep");

    // Verify git file exists for survivor
    assert!(repo
        .read_file(&format!("zettelkasten/items/{id1}.md"))
        .is_ok());
    // Deleted zettel should not be in git (it was buffer-only)
    assert!(repo
        .read_file(&format!("zettelkasten/items/{id2}.md"))
        .is_err());
}

#[test]
fn create_index_rejected_with_reason() {
    let (repo, index) = setup();
    let mut engine = SqlEngine::new(&index, &repo);
    let err = engine
        .execute("CREATE INDEX idx ON zettels(title)")
        .unwrap_err();
    let msg = err.message();
    assert!(msg.contains("CREATE INDEX not supported"), "{msg}");
}

#[test]
fn create_view_rejected_with_reason() {
    let (repo, index) = setup();
    let mut engine = SqlEngine::new(&index, &repo);
    let err = engine
        .execute("CREATE VIEW v AS SELECT * FROM zettels")
        .unwrap_err();
    let msg = err.message();
    assert!(msg.contains("CREATE VIEW not supported"), "{msg}");
}

#[test]
fn create_trigger_rejected_with_reason() {
    let (repo, index) = setup();
    let mut engine = SqlEngine::new(&index, &repo);
    let err = engine
        .execute(
            "CREATE TRIGGER t AFTER INSERT ON zettels FOR EACH ROW EXECUTE PROCEDURE noop()",
        )
        .unwrap_err();
    let msg = err.message();
    assert!(msg.contains("CREATE TRIGGER not supported"), "{msg}");
}

#[test]
fn create_virtual_table_rejected_with_reason() {
    let (repo, index) = setup();
    let mut engine = SqlEngine::new(&index, &repo);
    let err = engine
        .execute("CREATE VIRTUAL TABLE vt USING fts5(content)")
        .unwrap_err();
    let msg = err.message();
    assert!(msg.contains("CREATE VIRTUAL TABLE not supported"), "{msg}");
}

#[test]
fn drop_index_rejected() {
    let (repo, index) = setup();
    let mut engine = SqlEngine::new(&index, &repo);
    let err = engine.execute("DROP INDEX idx").unwrap_err();
    let msg = err.message();
    assert!(msg.contains("DROP INDEX not supported"), "{msg}");
}

#[test]
fn drop_view_rejected() {
    let (repo, index) = setup();
    let mut engine = SqlEngine::new(&index, &repo);
    let err = engine.execute("DROP VIEW v").unwrap_err();
    let msg = err.message();
    assert!(msg.contains("DROP VIEW not supported"), "{msg}");
}

#[test]
fn insert_or_replace_rejected() {
    let (repo, index) = setup();
    let mut engine = SqlEngine::new(&index, &repo);
    engine.execute("CREATE TABLE items (name TEXT)").unwrap();
    let err = engine
        .execute("INSERT OR REPLACE INTO items (name) VALUES ('x')")
        .unwrap_err();
    let msg = err.message();
    assert!(msg.contains("not supported"), "{msg}");
}

#[test]
fn update_from_rejected() {
    let (repo, index) = setup();
    let mut engine = SqlEngine::new(&index, &repo);
    engine.execute("CREATE TABLE items (name TEXT)").unwrap();
    engine.execute("CREATE TABLE src (name TEXT)").unwrap();
    let err = engine
        .execute("UPDATE items SET name = src.name FROM src WHERE items.id = src.id")
        .unwrap_err();
    let msg = err.message();
    assert!(msg.contains("UPDATE...FROM not supported"), "{msg}");
}

#[test]
fn delete_from_hyphenated_table() {
    let (repo, index) = setup();
    engine_exec_ok(&repo, &index, "CREATE TABLE \"my-items\" (name TEXT)");
    let id = engine_exec_id(
        &repo,
        &index,
        r#"INSERT INTO "my-items" (name) VALUES ('test')"#,
    );
    let mut engine = SqlEngine::new(&index, &repo);
    let result = engine
        .execute(&format!(r#"DELETE FROM "my-items" WHERE id = '{id}'"#))
        .unwrap();
    match result {
        SqlResult::Affected(n) => assert_eq!(n, 1),
        _ => panic!("expected Affected"),
    }
}

#[test]
fn references_to_hyphenated_table() {
    let (repo, index) = setup();
    engine_exec_ok(&repo, &index, "CREATE TABLE \"my-people\" (name TEXT)");
    engine_exec_ok(
        &repo,
        &index,
        r#"CREATE TABLE tasks (title TEXT, assignee TEXT REFERENCES "my-people")"#,
    );
    // Verify the typedef stored unquoted reference target
    let mut engine = SqlEngine::new(&index, &repo);
    let schema = engine.load_schema("tasks").unwrap();
    let ref_col = schema
        .columns
        .iter()
        .find(|c| c.name == "assignee")
        .expect("assignee column");
    assert_eq!(
        ref_col.references.as_deref(),
        Some("my-people"),
        "reference target should be unquoted"
    );
}

#[test]
fn select_still_passes_through() {
    let (repo, index) = setup();
    let mut engine = SqlEngine::new(&index, &repo);
    let result = engine.execute("SELECT 1 AS val").unwrap();
    match result {
        SqlResult::Rows { columns, rows } => {
            assert_eq!(columns, vec!["val"]);
            assert_eq!(rows.len(), 1);
        }
        _ => panic!("expected Rows"),
    }
}

// ---------------------------------------------------------------------------
// The index
// ---------------------------------------------------------------------------
fn sample_zettel() -> ParsedZettel {
    ParsedZettel {
        meta: ZettelMeta {
            id: Some(ZettelId("20260226120000".into())),
            title: Some("Test Note".into()),
            date: Some("2026-02-26".into()),
            zettel_type: Some("permanent".into()),
            tags: vec!["client/acme".into(), "test".into()],
            extra: TextMap::new(),
        },
        body: "Body with searchable content and [[20260101000000|Link]]".into(),
        reference_section: "- source:: Wikipedia".into(),
        inline_fields: vec![InlineField {
            key: "source".into(),
            value: "Wikipedia".into(),
            zone: Zone::Reference,
        }],
        wikilinks: vec![WikiLink {
            target: "20260101000000".into(),
            display: Some("Link".into()),
            zone: Zone::Body,
        }],
        path: "zettelkasten/20260226120000.md".into(),
    }
}

fn in_memory_index() -> Index {
    Index::open()
}

#[test]
fn schema_creation_idempotent() {
    let idx = in_memory_index();
    // Opening again should not error
    let _idx2 = Index::open();
    // Verify tables exist
    let count: i64 = idx
        .conn
        .query_row(
            "SELECT COUNT(*) FROM sqlite_master WHERE type='table' AND name='zettels'",
            [],
            |row| row.get(0),
        )
        .unwrap();
    assert_eq!(count, 1);
}

#[test]
fn index_and_query_zettel() {
    let idx = in_memory_index();
    let z = sample_zettel();
    idx.index_zettel(&z).unwrap();

    // Query back
    let rows = idx.query_raw("SELECT id, title FROM zettels").unwrap();
    assert_eq!(rows.len(), 1);
    assert_eq!(rows[0][0], "20260226120000");
    assert_eq!(rows[0][1], "Test Note");
}

#[test]
fn fts_search() {
    let idx = in_memory_index();
    idx.index_zettel(&sample_zettel()).unwrap();

    let results = idx.search("searchable").unwrap();
    assert_eq!(results.len(), 1);
    assert_eq!(results[0].id, "20260226120000");
}

#[test]
fn tag_prefix_query() {
    let idx = in_memory_index();
    idx.index_zettel(&sample_zettel()).unwrap();

    let ids = idx.by_tag("client/").unwrap();
    assert!(ids.contains(&"20260226120000".to_string()));

    let ids = idx.by_tag("test").unwrap();
    assert!(ids.contains(&"20260226120000".to_string()));

    let ids = idx.by_tag("nonexistent").unwrap();
    assert!(ids.is_empty());
}

#[test]
fn backlink_query() {
    let idx = in_memory_index();
    idx.index_zettel(&sample_zettel()).unwrap();

    let ids = idx.backlinks("20260101000000").unwrap();
    assert!(ids.contains(&"20260226120000".to_string()));
}

#[test]
fn query_raw_join() {
    let idx = in_memory_index();
    idx.index_zettel(&sample_zettel()).unwrap();

    let rows = idx.query_raw(
        "SELECT z.title, t.tag FROM zettels z JOIN _zdb_tags t ON t.zettel_id = z.id ORDER BY t.tag"
    ).unwrap();
    assert_eq!(rows.len(), 2);
}

#[test]
fn upsert_replaces_old_data() {
    let idx = in_memory_index();
    let mut z = sample_zettel();
    idx.index_zettel(&z).unwrap();

    // Update title and tags
    z.meta.title = Some("Updated Title".into());
    z.meta.tags = vec!["newtag".into()];
    idx.index_zettel(&z).unwrap();

    let rows = idx
        .query_raw("SELECT title FROM zettels WHERE id = '20260226120000'")
        .unwrap();
    assert_eq!(rows[0][0], "Updated Title");

    let rows = idx
        .query_raw("SELECT COUNT(*) FROM _zdb_tags WHERE zettel_id = '20260226120000'")
        .unwrap();
    assert_eq!(rows[0][0], "1");
}

#[test]
fn rebuild_and_staleness() {
    let repo = MemStore::new();

    let zettel_content =
        "---\nid: 20260226120000\ntitle: Rebuild Test\ntags:\n  - test\n---\nBody here.";
    repo.commit_file(
        "zettelkasten/20260226120000.md",
        zettel_content,
        "add zettel",
    )
    .unwrap();

    let idx = Index::open();

    // Initially stale (no head recorded)
    assert!(idx.is_stale(&repo).unwrap());

    let report = idx.rebuild(&repo).unwrap();
    assert_eq!(report.indexed, 1);

    // No longer stale
    assert!(!idx.is_stale(&repo).unwrap());

    // rebuild_if_stale should skip
    assert!(idx.rebuild_if_stale(&repo).unwrap().is_none());

    // After new commit, should be stale again
    repo.commit_file(
        "zettelkasten/20260226130000.md",
        "---\ntitle: New\n---\nNew body.",
        "add another",
    )
    .unwrap();
    assert!(idx.is_stale(&repo).unwrap());

    // Incremental reindex only processes changed files (1 new zettel)
    let report = idx.rebuild_if_stale(&repo).unwrap().unwrap();
    assert_eq!(report.indexed, 1);
}

#[test]
fn rebuild_materializes_user_tables() {
    let repo = MemStore::new();

    // Create a typedef zettel
    let schema_content = "\
---
id: 20260226140000
title: items
type: _typedef
columns:
  - name: name
    data_type: TEXT
    zone: body
  - name: count
    data_type: INTEGER
    zone: frontmatter
---\n";
    repo.commit_file(
        "zettelkasten/_typedef/20260226140000.md",
        schema_content,
        "add typedef",
    )
    .unwrap();

    // Create a data zettel matching the schema
    let data_content = "\
---
id: 20260226140100
title: Widget
type: items
count: 42
---

## name

Widget
";
    repo.commit_file("zettelkasten/20260226140100.md", data_content, "add item")
        .unwrap();

    let idx = Index::open();

    let report = idx.rebuild(&repo).unwrap();
    assert_eq!(report.indexed, 2);

    // Materialized table should exist and have data
    let rows = idx.query_raw("SELECT name, count FROM items").unwrap();
    assert_eq!(rows.len(), 1);
    assert_eq!(rows[0][0], "Widget");
    assert_eq!(rows[0][1], "42");
}

#[test]
fn infer_schema_frontmatter_types() {
    let repo = MemStore::new();

    let z1 = "---\nid: 20260226150000\ntitle: Task 1\ntype: task\npriority: 1\ndone: true\nscore: 3.5\n---\nBody.";
    let z2 = "---\nid: 20260226150100\ntitle: Task 2\ntype: task\npriority: 2\ndone: false\nscore: 7.0\n---\nBody.";
    repo.commit_file("zettelkasten/20260226150000.md", z1, "add task 1")
        .unwrap();
    repo.commit_file("zettelkasten/20260226150100.md", z2, "add task 2")
        .unwrap();

    let idx = Index::open();
    idx.rebuild(&repo).unwrap();

    let schema = idx.infer_schema("task", &repo).unwrap();
    assert_eq!(schema.table_name, "task");

    let find = |name: &str| schema.columns.iter().find(|c| c.name == name);

    let done = find("done").expect("done column");
    assert_eq!(done.data_type, "BOOLEAN");
    assert_eq!(done.zone, Some(Zone::Frontmatter));

    let priority = find("priority").expect("priority column");
    assert_eq!(priority.data_type, "INTEGER");

    let score = find("score").expect("score column");
    assert_eq!(score.data_type, "REAL");
}

#[test]
fn infer_schema_body_headings() {
    let repo = MemStore::new();

    let z1 = "---\nid: 20260226160000\ntitle: Note 1\ntype: article\n---\n\n## Summary\n\nSome text\n\n## Details\n\nMore text";
    repo.commit_file("zettelkasten/20260226160000.md", z1, "add article")
        .unwrap();

    let idx = Index::open();
    idx.rebuild(&repo).unwrap();

    let schema = idx.infer_schema("article", &repo).unwrap();
    let find = |name: &str| schema.columns.iter().find(|c| c.name == name);

    let summary = find("summary").expect("summary column");
    assert_eq!(summary.data_type, "TEXT");
    assert_eq!(summary.zone, Some(Zone::Body));

    let details = find("details").expect("details column");
    assert_eq!(details.data_type, "TEXT");
    assert_eq!(details.zone, Some(Zone::Body));
}

#[test]
fn infer_schema_reference_fields() {
    let repo = MemStore::new();

    let z1 = "---\nid: 20260226170000\ntitle: Proj 1\ntype: project\n---\n\nBody\n\n---\n\n- parent:: [[20260226170100]]\n- ticket:: JIRA-123";
    repo.commit_file("zettelkasten/20260226170000.md", z1, "add project")
        .unwrap();

    let idx = Index::open();
    idx.rebuild(&repo).unwrap();

    let schema = idx.infer_schema("project", &repo).unwrap();
    let find = |name: &str| schema.columns.iter().find(|c| c.name == name);

    let parent = find("parent").expect("parent column");
    assert_eq!(parent.zone, Some(Zone::Reference));

    let ticket = find("ticket").expect("ticket column");
    assert_eq!(ticket.zone, Some(Zone::Reference));
}

#[test]
fn infer_schema_empty_type() {
    let repo = MemStore::new();
    repo.commit_file(
        "zettelkasten/20260226180000.md",
        "---\ntitle: Dummy\n---\nBody",
        "add",
    )
    .unwrap();

    let idx = Index::open();
    idx.rebuild(&repo).unwrap();

    let schema = idx.infer_schema("nonexistent", &repo).unwrap();
    assert!(schema.columns.is_empty());
    assert_eq!(schema.table_name, "nonexistent");
}

#[test]
fn infer_schema_type_widening() {
    let repo = MemStore::new();

    let z1 = "---\nid: 20260226190000\ntitle: A\ntype: mixed\ncount: 5\n---\nBody.";
    let z2 = "---\nid: 20260226190100\ntitle: B\ntype: mixed\ncount: many\n---\nBody.";
    repo.commit_file("zettelkasten/20260226190000.md", z1, "add A")
        .unwrap();
    repo.commit_file("zettelkasten/20260226190100.md", z2, "add B")
        .unwrap();

    let idx = Index::open();
    idx.rebuild(&repo).unwrap();

    let schema = idx.infer_schema("mixed", &repo).unwrap();
    let count = schema
        .columns
        .iter()
        .find(|c| c.name == "count")
        .expect("count column");
    assert_eq!(count.data_type, "TEXT");
}

#[test]
fn infer_schema_case_variant_keys_deduplicated() {
    let repo = MemStore::new();

    // Frontmatter with case-variant keys: xP and xp
    let z1 = "---\nid: 20260226200000\ntitle: Dupe\ntype: dupe\nxP: a\nxp: A\n---\nBody.";
    repo.commit_file("zettelkasten/20260226200000.md", z1, "add dupe")
        .unwrap();

    let idx = Index::open();
    idx.rebuild(&repo).unwrap();

    let schema = idx.infer_schema("dupe", &repo).unwrap();
    let xp_cols: Vec<_> = schema
        .columns
        .iter()
        .filter(|c| c.name.eq_ignore_ascii_case("xp"))
        .collect();
    assert_eq!(
        xp_cols.len(),
        1,
        "case-variant keys should merge into one column"
    );
    assert_eq!(xp_cols[0].name, "xp");
}

#[test]
fn merge_schemas_typedef_only() {

    let typedef = TableSchema {
        table_name: "foo".to_string(),
        columns: vec![
            ColumnDef {
                name: "a".into(),
                data_type: "TEXT".into(),
                references: None,
                zone: Some(Zone::Body),
                required: false,
                search_boost: None,
                allowed_values: None,
                default_value: None,
            },
            ColumnDef {
                name: "b".into(),
                data_type: "INTEGER".into(),
                references: None,
                zone: Some(Zone::Frontmatter),
                required: true,
                search_boost: None,
                allowed_values: None,
                default_value: None,
            },
        ],
        crdt_strategy: Some("preset:default".into()),
        template_sections: vec!["A".into()],
    };
    let inferred = TableSchema {
        table_name: "foo".to_string(),
        columns: vec![],
        crdt_strategy: None,
        template_sections: vec![],
    };

    let merged = merge_schemas(Some(typedef), inferred);
    assert_eq!(merged.columns.len(), 2);
    assert_eq!(merged.crdt_strategy, Some("preset:default".to_string()));
}

#[test]
fn merge_schemas_inferred_only() {

    let inferred = TableSchema {
        table_name: "bar".to_string(),
        columns: vec![ColumnDef {
            name: "x".into(),
            data_type: "INTEGER".into(),
            references: None,
            zone: Some(Zone::Frontmatter),
            required: false,
            search_boost: None,
            allowed_values: None,
            default_value: None,
        }],
        crdt_strategy: None,
        template_sections: vec![],
    };

    let merged = merge_schemas(None, inferred);
    assert_eq!(merged.columns.len(), 1);
    assert_eq!(merged.table_name, "bar");
}

#[test]
fn merge_schemas_overlap() {

    let typedef = TableSchema {
        table_name: "baz".to_string(),
        columns: vec![ColumnDef {
            name: "shared".into(),
            data_type: "INTEGER".into(),
            references: None,
            zone: Some(Zone::Frontmatter),
            required: true,
            search_boost: Some(number("2.0")),
            allowed_values: None,
            default_value: None,
        }],
        crdt_strategy: None,
        template_sections: vec![],
    };
    let inferred = TableSchema {
        table_name: "baz".to_string(),
        columns: vec![
            ColumnDef {
                name: "shared".into(),
                data_type: "TEXT".into(),
                references: None,
                zone: Some(Zone::Body),
                required: false,
                search_boost: None,
                allowed_values: None,
                default_value: None,
            },
            ColumnDef {
                name: "extra".into(),
                data_type: "TEXT".into(),
                references: None,
                zone: Some(Zone::Body),
                required: false,
                search_boost: None,
                allowed_values: None,
                default_value: None,
            },
        ],
        crdt_strategy: None,
        template_sections: vec![],
    };

    let merged = merge_schemas(Some(typedef), inferred);
    assert_eq!(merged.columns.len(), 2);
    let shared = merged.columns.iter().find(|c| c.name == "shared").unwrap();
    assert_eq!(shared.data_type, "INTEGER");
    assert!(shared.required);
    assert!(merged.columns.iter().any(|c| c.name == "extra"));
}

#[test]
fn merge_schemas_no_overlap() {

    let typedef = TableSchema {
        table_name: "qux".to_string(),
        columns: vec![ColumnDef {
            name: "a".into(),
            data_type: "TEXT".into(),
            references: None,
            zone: Some(Zone::Body),
            required: false,
            search_boost: None,
            allowed_values: None,
            default_value: None,
        }],
        crdt_strategy: None,
        template_sections: vec![],
    };
    let inferred = TableSchema {
        table_name: "qux".to_string(),
        columns: vec![
            ColumnDef {
                name: "b".into(),
                data_type: "INTEGER".into(),
                references: None,
                zone: Some(Zone::Frontmatter),
                required: false,
                search_boost: None,
                allowed_values: None,
                default_value: None,
            },
            ColumnDef {
                name: "c".into(),
                data_type: "REAL".into(),
                references: None,
                zone: Some(Zone::Frontmatter),
                required: false,
                search_boost: None,
                allowed_values: None,
                default_value: None,
            },
        ],
        crdt_strategy: None,
        template_sections: vec![],
    };

    let merged = merge_schemas(Some(typedef), inferred);
    assert_eq!(merged.columns.len(), 3);
}

#[test]
fn consistency_warnings_valid_zettel() {
    let repo = MemStore::new();

    let z = "---\nid: 20260226200000\ntitle: Valid\ntype: note\n---\nBody text.";
    repo.commit_file("zettelkasten/20260226200000.md", z, "add")
        .unwrap();

    let idx = Index::open();
    idx.rebuild(&repo).unwrap();

    let warnings = idx.collect_consistency_warnings(&repo);
    assert!(warnings.is_empty());
}

#[test]
fn consistency_warnings_missing_required() {
    let repo = MemStore::new();

    let typedef_content = "---\nid: 20260226210000\ntitle: task\ntype: _typedef\ncolumns:\n  - name: priority\n    data_type: INTEGER\n    zone: frontmatter\n    required: true\n---\n";
    repo.commit_file(
        "zettelkasten/_typedef/20260226210000.md",
        typedef_content,
        "add typedef",
    )
    .unwrap();

    let z = "---\nid: 20260226210100\ntitle: My Task\ntype: task\n---\nBody.";
    repo.commit_file("zettelkasten/20260226210100.md", z, "add task")
        .unwrap();

    let idx = Index::open();
    idx.rebuild(&repo).unwrap();

    let warnings = idx.collect_consistency_warnings(&repo);
    assert!(!warnings.is_empty());
    let has_missing = warnings.iter().any(|w| matches!(w,
        ConsistencyWarning::MissingRequired { field, .. } if field == "priority"
    ));
    assert!(
        has_missing,
        "should warn about missing required 'priority' field"
    );
}

#[test]
fn integration_inferred_type_full_cycle() {
    let repo = MemStore::new();

    // Create zettels with type "foo" — no _typedef exists
    let z1 = "---\nid: 20260226220000\ntitle: Foo 1\ntype: foo\npriority: 3\n---\n\n## Description\n\nFirst foo\n\n---\n\n- owner:: [[20260226220100]]";
    let z2 = "---\nid: 20260226220100\ntitle: Foo 2\ntype: foo\npriority: 7\n---\n\n## Description\n\nSecond foo\n\n---\n\n- owner:: [[20260226220000]]";
    repo.commit_file("zettelkasten/20260226220000.md", z1, "add foo 1")
        .unwrap();
    repo.commit_file("zettelkasten/20260226220100.md", z2, "add foo 2")
        .unwrap();

    let idx = Index::open();
    let report = idx.rebuild(&repo).unwrap();

    // Table "foo" should exist with inferred columns
    assert!(report.types_inferred.contains(&"foo".to_string()));
    assert!(report.tables_materialized > 0);

    // SELECT should return data
    let rows = idx
        .query_raw("SELECT id, priority FROM foo ORDER BY id")
        .unwrap();
    assert_eq!(rows.len(), 2);
    assert_eq!(rows[0][1], "3");
    assert_eq!(rows[1][1], "7");
}

#[test]
fn integration_typedef_plus_inferred_merge() {
    let repo = MemStore::new();

    // Create typedef with 2 columns
    let typedef = "---\nid: 20260226230000\ntitle: widget\ntype: _typedef\ncolumns:\n  - name: weight\n    data_type: REAL\n    zone: frontmatter\n  - name: color\n    data_type: TEXT\n    zone: frontmatter\n---\n";
    repo.commit_file(
        "zettelkasten/_typedef/20260226230000.md",
        typedef,
        "add typedef",
    )
    .unwrap();

    // Create zettel with 3 extra fields (2 from typedef + 1 new)
    let z = "---\nid: 20260226230100\ntitle: Red Widget\ntype: widget\nweight: 2.5\ncolor: red\nsize: large\n---\n\nBody";
    repo.commit_file("zettelkasten/20260226230100.md", z, "add widget")
        .unwrap();

    let idx = Index::open();
    idx.rebuild(&repo).unwrap();

    // Table should have 3 columns (2 typedef + 1 inferred "size")
    let rows = idx
        .query_raw("SELECT weight, color, size FROM widget")
        .unwrap();
    assert_eq!(rows.len(), 1);
    assert_eq!(rows[0][0], "2.5");
    assert_eq!(rows[0][1], "red");
    assert_eq!(rows[0][2], "large");
}

#[test]
fn integration_external_edit_reconciliation() {
    let repo = MemStore::new();

    // Initial zettel with type "doc" and one field
    let z1 = "---\nid: 20260226240000\ntitle: Doc 1\ntype: doc\nversion: 1\n---\nBody";
    repo.commit_file("zettelkasten/20260226240000.md", z1, "add doc")
        .unwrap();

    let idx = Index::open();
    idx.rebuild(&repo).unwrap();

    // Externally add a zettel with a new field
    let z2 = "---\nid: 20260226240100\ntitle: Doc 2\ntype: doc\nversion: 2\nauthor: Alice\n---\nBody";
    repo.commit_file("zettelkasten/20260226240100.md", z2, "add doc externally")
        .unwrap();

    // Rebuild picks up new fields
    let report = idx.rebuild(&repo).unwrap();
    assert_eq!(report.indexed, 2);

    // Table should now have "author" column from inferred merge
    let rows = idx
        .query_raw("SELECT id, author FROM doc WHERE author != ''")
        .unwrap();
    assert_eq!(rows.len(), 1);
    assert_eq!(rows[0][1], "Alice");
}

#[test]
fn integration_consistency_warnings_in_rebuild() {
    let repo = MemStore::new();

    // Create typedef with required field
    let typedef = "---\nid: 20260226250000\ntitle: strict\ntype: _typedef\ncolumns:\n  - name: status\n    data_type: TEXT\n    zone: frontmatter\n    required: true\n---\n";
    repo.commit_file(
        "zettelkasten/_typedef/20260226250000.md",
        typedef,
        "add typedef",
    )
    .unwrap();

    // Create zettel missing required field
    let z = "---\nid: 20260226250100\ntitle: Incomplete\ntype: strict\n---\nBody";
    repo.commit_file("zettelkasten/20260226250100.md", z, "add incomplete")
        .unwrap();

    let idx = Index::open();
    let report = idx.rebuild(&repo).unwrap();

    // Should have warnings but still index
    assert!(!report.warnings.is_empty());
    assert_eq!(report.indexed, 2); // typedef + data zettel both indexed

    // Data should still be accessible
    let rows = idx
        .query_raw("SELECT id FROM zettels WHERE type = 'strict'")
        .unwrap();
    assert_eq!(rows.len(), 1);
}

#[test]
fn rebuild_via_mock_source() {

    let mut source = MockSource::new();
    source.files.insert(
        "zettelkasten/20260226120000.md".into(),
        "---\ntitle: Mock Note\ntype: permanent\ntags:\n  - test\n---\nBody text.\n".into(),
    );
    source.files.insert(
        "zettelkasten/20260226120001.md".into(),
        "---\ntitle: Second Note\ntype: permanent\n---\nMore text.\n".into(),
    );

    let idx = Index::open();
    let report = idx.rebuild(&source).unwrap();

    assert_eq!(report.indexed, 2);
    assert!(!idx.is_stale(&source).unwrap());

    let results = idx.search("Mock").unwrap();
    assert_eq!(results.len(), 1);
    assert_eq!(results[0].title, "Mock Note");
}

#[test]
fn infer_schema_via_mock_source() {

    let mut source = MockSource::new();
    source.files.insert(
        "zettelkasten/20260226120000.md".into(),
        "---\ntitle: Project A\ntype: project\npriority: 1\nactive: true\n---\n## Notes\nSome notes.\n".into(),
    );

    let idx = Index::open();
    idx.rebuild(&source).unwrap();

    let schema = idx.infer_schema("project", &source).unwrap();
    let col_names: Vec<&str> = schema.columns.iter().map(|c| c.name.as_str()).collect();
    assert!(col_names.contains(&"priority"));
    assert!(col_names.contains(&"active"));
    assert!(col_names.contains(&"notes"));
}

#[test]
fn check_integrity_healthy_db() {
    let idx = in_memory_index();
    assert!(idx.check_integrity().unwrap());
}

#[test]
fn check_integrity_missing_table() {
    let idx = Index::open();
    idx.conn.execute_batch("DROP TABLE _zdb_fts").unwrap();
    assert!(!idx.check_integrity().unwrap());
}

#[test]
fn alias_indexed_and_resolved() {
    let index = Index::open();

    let mut extra = TextMap::new();
    extra.insert(
        "aliases".to_string(),
        Value::List(vec![
            Value::String("My Project".to_string()),
            Value::String("proj-x".to_string()),
        ]),
    );

    let zettel = ParsedZettel {
        meta: ZettelMeta {
            id: Some(ZettelId("20240101120000".to_string())),
            title: Some("Project X".to_string()),
            date: Some("2024-01-01".to_string()),
            zettel_type: None,
            tags: vec![],
            extra,
        },
        body: String::new(),
        reference_section: String::new(),
        inline_fields: vec![],
        wikilinks: vec![],
        path: "zettelkasten/20240101120000.md".to_string(),
    };

    index.index_zettel(&zettel).unwrap();

    // Resolve by alias
    assert_eq!(
        index.resolve_alias("My Project").unwrap(),
        Some("20240101120000".to_string())
    );
    assert_eq!(
        index.resolve_alias("proj-x").unwrap(),
        Some("20240101120000".to_string())
    );
    // Case-insensitive
    assert_eq!(
        index.resolve_alias("my project").unwrap(),
        Some("20240101120000".to_string())
    );
    // No match
    assert_eq!(index.resolve_alias("nonexistent").unwrap(), None);
}

#[test]
fn alias_removed_on_zettel_delete() {
    let index = Index::open();

    let mut extra = TextMap::new();
    extra.insert(
        "aliases".to_string(),
        Value::List(vec![Value::String("alias1".to_string())]),
    );

    let zettel = ParsedZettel {
        meta: ZettelMeta {
            id: Some(ZettelId("20240101120000".to_string())),
            title: Some("Test".to_string()),
            date: None,
            zettel_type: None,
            tags: vec![],
            extra,
        },
        body: String::new(),
        reference_section: String::new(),
        inline_fields: vec![],
        wikilinks: vec![],
        path: "zettelkasten/20240101120000.md".to_string(),
    };

    index.index_zettel(&zettel).unwrap();
    assert!(index.resolve_alias("alias1").unwrap().is_some());

    index.remove_zettel("20240101120000").unwrap();
    assert_eq!(index.resolve_alias("alias1").unwrap(), None);
}

#[test]
fn wikilink_resolves_via_alias() {
    let index = Index::open();

    let mut extra = TextMap::new();
    extra.insert(
        "aliases".to_string(),
        Value::List(vec![Value::String("My Note".to_string())]),
    );

    let zettel = ParsedZettel {
        meta: ZettelMeta {
            id: Some(ZettelId("20240101120000".to_string())),
            title: Some("Note".to_string()),
            date: None,
            zettel_type: None,
            tags: vec![],
            extra,
        },
        body: String::new(),
        reference_section: String::new(),
        inline_fields: vec![],
        wikilinks: vec![],
        path: "zettelkasten/20240101120000.md".to_string(),
    };

    index.index_zettel(&zettel).unwrap();

    // Resolves via ID
    let result = index.resolve_wikilink("20240101120000").unwrap();
    assert_eq!(result, Some("zettelkasten/20240101120000.md".to_string()));

    // Resolves via alias
    let result = index.resolve_wikilink("My Note").unwrap();
    assert_eq!(result, Some("zettelkasten/20240101120000.md".to_string()));

    // No match
    let result = index.resolve_wikilink("nonexistent").unwrap();
    assert_eq!(result, None);
}

#[test]
fn schema_parses_allowed_values_and_default() {
    let repo = MemStore::new();

    let typedef = "---\nid: 20260301100000\ntitle: task\ntype: _typedef\ncolumns:\n  - name: status\n    data_type: TEXT\n    zone: frontmatter\n    allowed_values:\n      - todo\n      - doing\n      - done\n    default_value: todo\n  - name: priority\n    data_type: TEXT\n    zone: frontmatter\n---\n";
    repo.commit_file(
        "zettelkasten/_typedef/20260301100000.md",
        typedef,
        "add typedef",
    )
    .unwrap();

    let idx = Index::open();
    idx.rebuild(&repo).unwrap();

    let schemas = idx.load_all_typedefs(&repo);
    let schema = schemas.get("task").unwrap();
    let status_col = schema.columns.iter().find(|c| c.name == "status").unwrap();
    assert_eq!(
        status_col.allowed_values.as_ref().unwrap(),
        &["todo", "doing", "done"]
    );
    assert_eq!(status_col.default_value.as_deref(), Some("todo"));

    let priority_col = schema
        .columns
        .iter()
        .find(|c| c.name == "priority")
        .unwrap();
    assert!(priority_col.allowed_values.is_none());
    assert!(priority_col.default_value.is_none());
}

#[test]
fn materialize_emits_check_constraint() {
    let repo = MemStore::new();

    let typedef = "---\nid: 20260301100100\ntitle: task\ntype: _typedef\ncolumns:\n  - name: status\n    data_type: TEXT\n    zone: frontmatter\n    allowed_values:\n      - todo\n      - doing\n      - done\n---\n";
    repo.commit_file(
        "zettelkasten/_typedef/20260301100100.md",
        typedef,
        "add typedef",
    )
    .unwrap();

    let idx = Index::open();
    idx.rebuild(&repo).unwrap();

    // Verify CHECK constraint exists by reading table info
    let sql = idx
        .conn
        .query_row(
            "SELECT sql FROM sqlite_master WHERE type='table' AND name='task'",
            [],
            |row| row.get::<_, String>(0),
        )
        .unwrap();
    assert!(sql.contains("CHECK"), "expected CHECK constraint in: {sql}");
    assert!(sql.contains("'todo'"));
    assert!(sql.contains("'doing'"));
    assert!(sql.contains("'done'"));
}

fn make_zettel(n: usize) -> ParsedZettel {
    ParsedZettel {
        meta: ZettelMeta {
            id: Some(ZettelId(format!("2026022612{n:04}"))),
            title: Some(format!("Note {n}")),
            date: Some("2026-02-26".into()),
            zettel_type: Some("permanent".into()),
            tags: vec!["test".into()],
            extra: TextMap::new(),
        },
        body: format!("Searchable body number {n}"),
        reference_section: String::new(),
        inline_fields: vec![],
        wikilinks: vec![],
        path: format!("zettelkasten/2026022612{n:04}.md"),
    }
}

#[test]
fn paginated_search_basic() {
    let idx = in_memory_index();
    for i in 0..30 {
        idx.index_zettel(&make_zettel(i)).unwrap();
    }

    let result = idx.search_paginated("searchable", 10, 0).unwrap();
    assert_eq!(result.hits.len(), 10);
    assert_eq!(result.total_count, 30);
}

#[test]
fn paginated_search_offset_beyond() {
    let idx = in_memory_index();
    for i in 0..5 {
        idx.index_zettel(&make_zettel(i)).unwrap();
    }

    let result = idx.search_paginated("searchable", 10, 100).unwrap();
    assert!(result.hits.is_empty());
    assert_eq!(result.total_count, 5);
}

#[test]
fn paginated_search_no_results() {
    let idx = in_memory_index();
    idx.index_zettel(&make_zettel(0)).unwrap();

    let result = idx.search_paginated("nonexistent", 10, 0).unwrap();
    assert!(result.hits.is_empty());
    assert_eq!(result.total_count, 0);
}

#[test]
fn search_returns_same_hits_as_paginated() {
    let idx = in_memory_index();
    for i in 0..5 {
        idx.index_zettel(&make_zettel(i)).unwrap();
    }

    let results = idx.search("searchable").unwrap();
    let paginated = idx.search_paginated("searchable", usize::MAX, 0).unwrap();

    assert_eq!(results.len(), 5);
    assert_eq!(results.len(), paginated.hits.len());
    assert_eq!(
        results.iter().map(|r| r.id.as_str()).collect::<Vec<_>>(),
        paginated
            .hits
            .iter()
            .map(|r| r.id.as_str())
            .collect::<Vec<_>>()
    );
}

#[test]
fn attachments_indexed_and_queried() {
    let idx = in_memory_index();
    let mut extra = TextMap::new();
    extra.insert(
        "attachments".into(),
        Value::List(vec![
            Value::Mapping({
                let mut m = TextMap::new();
                m.insert("name".into(), Value::String("photo.jpg".into()));
                m.insert("mime".into(), Value::String("image/jpeg".into()));
                m.insert("size".into(), Value::Number(number("1024.0")));
                m
            }),
            Value::Mapping({
                let mut m = TextMap::new();
                m.insert("name".into(), Value::String("doc.pdf".into()));
                m.insert("mime".into(), Value::String("application/pdf".into()));
                m.insert("size".into(), Value::Number(number("2048.0")));
                m
            }),
        ]),
    );
    let zettel = ParsedZettel {
        meta: ZettelMeta {
            id: Some(ZettelId("20260301130000".into())),
            title: Some("Test".into()),
            extra,
            ..Default::default()
        },
        body: String::new(),
        reference_section: String::new(),
        inline_fields: vec![],
        wikilinks: vec![],
        path: "zettelkasten/20260301130000.md".into(),
    };
    idx.index_zettel(&zettel).unwrap();

    let rows: Vec<(String, String, String, i64)> = idx
        .conn
        .prepare("SELECT zettel_id, name, mime, size FROM _zdb_attachments ORDER BY name")
        .unwrap()
        .query_map([], |row| {
            Ok((row.get(0)?, row.get(1)?, row.get(2)?, row.get(3)?))
        })
        .unwrap()
        .collect::<std::result::Result<Vec<_>, _>>()
        .unwrap();
    assert_eq!(rows.len(), 2);
    assert_eq!(rows[0].1, "doc.pdf");
    assert_eq!(rows[1].1, "photo.jpg");
    assert_eq!(rows[1].3, 1024);
}

#[test]
fn incremental_reindex_only_processes_changed_files() {
    let repo = MemStore::new();

    // Create 3 zettels
    repo.commit_file(
        "zettelkasten/20240101000000.md",
        "---\ntitle: A\n---\nBody A.",
        "add a",
    )
    .unwrap();
    repo.commit_file(
        "zettelkasten/20240102000000.md",
        "---\ntitle: B\n---\nBody B.",
        "add b",
    )
    .unwrap();
    repo.commit_file(
        "zettelkasten/20240103000000.md",
        "---\ntitle: C\n---\nBody C.",
        "add c",
    )
    .unwrap();

    let idx = Index::open();
    let report = idx.rebuild(&repo).unwrap();
    assert_eq!(report.indexed, 3);

    // Modify one zettel
    repo.commit_file(
        "zettelkasten/20240101000000.md",
        "---\ntitle: A Modified\n---\nBody A modified.",
        "modify a",
    )
    .unwrap();
    let old_head = idx.stored_head_oid().unwrap();

    let report = idx.incremental_reindex(&repo, &old_head).unwrap();
    assert_eq!(report.indexed, 1); // Only the modified file

    // Verify the modification is reflected
    let rows = idx
        .query_raw("SELECT title FROM zettels WHERE id = '20240101000000'")
        .unwrap();
    assert_eq!(rows[0][0], "A Modified");
}

#[test]
fn incremental_reindex_handles_deletes() {
    let repo = MemStore::new();

    repo.commit_file(
        "zettelkasten/20240101000000.md",
        "---\ntitle: A\n---\nBody A.",
        "add a",
    )
    .unwrap();
    repo.commit_file(
        "zettelkasten/20240102000000.md",
        "---\ntitle: B\n---\nBody B.",
        "add b",
    )
    .unwrap();

    let idx = Index::open();
    idx.rebuild(&repo).unwrap();

    // Delete one zettel
    repo.delete_file("zettelkasten/20240102000000.md", "delete b")
        .unwrap();
    let old_head = idx.stored_head_oid().unwrap();

    let report = idx.incremental_reindex(&repo, &old_head).unwrap();
    assert_eq!(report.indexed, 0); // No adds/modifies

    // Verify deletion
    let rows = idx
        .query_raw("SELECT id FROM zettels WHERE id = '20240102000000'")
        .unwrap();
    assert!(rows.is_empty());
}

#[test]
fn incremental_reindex_fallback_on_bad_oid() {
    let repo = MemStore::new();

    repo.commit_file(
        "zettelkasten/20240101000000.md",
        "---\ntitle: A\n---\nBody A.",
        "add a",
    )
    .unwrap();

    let idx = Index::open();

    // Use a fake old HEAD — should fall back to full rebuild
    let report = idx
        .incremental_reindex(&repo, "0000000000000000000000000000000000000000")
        .unwrap();
    assert_eq!(report.indexed, 1); // Full rebuild found 1 zettel
}

#[test]
fn typedef_change_triggers_rematerialization() {
    let repo = MemStore::new();

    // Create a typedef
    let typedef = "---\nid: 20260301100100\ntitle: task\ntype: _typedef\ncolumns:\n  - name: status\n    data_type: TEXT\n    zone: frontmatter\n---\n";
    repo.commit_file(
        "zettelkasten/_typedef/20260301100100.md",
        typedef,
        "add typedef",
    )
    .unwrap();

    let idx = Index::open();
    idx.rebuild(&repo).unwrap();
    let old_head = idx.stored_head_oid().unwrap();

    // Modify the typedef (add a column)
    let typedef2 = "---\nid: 20260301100100\ntitle: task\ntype: _typedef\ncolumns:\n  - name: status\n    data_type: TEXT\n    zone: frontmatter\n  - name: priority\n    data_type: INTEGER\n    zone: frontmatter\n---\n";
    repo.commit_file(
        "zettelkasten/_typedef/20260301100100.md",
        typedef2,
        "modify typedef",
    )
    .unwrap();

    let report = idx.incremental_reindex(&repo, &old_head).unwrap();
    assert!(
        report.tables_materialized > 0,
        "typedef change should trigger rematerialization"
    );
}

#[test]
fn resurrected_zettel_not_duplicated_after_reindex() {
    let idx = in_memory_index();
    let mut z = sample_zettel();
    z.meta
        .extra
        .insert("resurrected".into(), Value::Bool(true));
    idx.index_zettel(&z).unwrap();
    // Reindex same zettel
    idx.index_zettel(&z).unwrap();

    let id = z.meta.id.as_ref().unwrap().0.as_str();
    let count: i64 = idx
        .conn
        .query_row(
            "SELECT COUNT(*) FROM zettels WHERE id = ?1",
            [id],
            |row| row.get(0),
        )
        .unwrap();
    assert_eq!(count, 1);

    // Also verify the resurrected field isn't duplicated
    let field_count: i64 = idx
        .conn
        .query_row(
            "SELECT COUNT(*) FROM _zdb_fields WHERE zettel_id = ?1 AND key = 'resurrected'",
            [id],
            |row| row.get(0),
        )
        .unwrap();
    assert_eq!(field_count, 1);
}

#[test]
fn frontmatter_extras_indexed_as_fields() {
    let idx = in_memory_index();
    let mut z = sample_zettel();
    z.meta
        .extra
        .insert("resurrected".into(), Value::Bool(true));
    z.meta
        .extra
        .insert("priority".into(), Value::Number(number("3.0")));
    z.meta.extra.insert(
        "source_url".into(),
        Value::String("https://example.com".into()),
    );
    idx.index_zettel(&z).unwrap();

    let id = z.meta.id.as_ref().unwrap().0.as_str();
    let rows: Vec<(String, String, String)> = idx
        .conn
        .prepare("SELECT key, value, zone FROM _zdb_fields WHERE zettel_id = ?1 AND zone = 'Frontmatter'")
        .unwrap()
        .query_map([id], |row| Ok((row.get(0)?, row.get(1)?, row.get(2)?)))
        .unwrap()
        .collect::<std::result::Result<Vec<_>, _>>()
        .unwrap();

    assert!(rows
        .iter()
        .any(|(k, v, _)| k == "resurrected" && v == "true"));
    assert!(rows.iter().any(|(k, v, _)| k == "priority" && v == "3"));
    assert!(rows
        .iter()
        .any(|(k, v, _)| k == "source_url" && v == "https://example.com"));
    // List/Map extras should NOT appear
    assert!(!rows
        .iter()
        .any(|(k, _, _)| k == "aliases" || k == "attachments"));
}

#[test]
fn backlinking_zettel_paths_returns_source_id_and_path() {
    let index = Index::open();

    // Zettel A links to target B
    let zettel_a = ParsedZettel {
        meta: ZettelMeta {
            id: Some(ZettelId("20260301100000".to_string())),
            title: Some("A".to_string()),
            date: None,
            zettel_type: None,
            tags: vec![],
            extra: TextMap::new(),
        },
        body: "See [[20260301120000]]".to_string(),
        reference_section: String::new(),
        inline_fields: vec![],
        wikilinks: vec![WikiLink {
            target: "20260301120000".to_string(),
            display: None,
            zone: Zone::Body,
        }],
        path: "zettelkasten/20260301100000.md".to_string(),
    };

    // Zettel B is the target (no outgoing links)
    let zettel_b = ParsedZettel {
        meta: ZettelMeta {
            id: Some(ZettelId("20260301120000".to_string())),
            title: Some("B".to_string()),
            date: None,
            zettel_type: None,
            tags: vec![],
            extra: TextMap::new(),
        },
        body: String::new(),
        reference_section: String::new(),
        inline_fields: vec![],
        wikilinks: vec![],
        path: "zettelkasten/20260301120000.md".to_string(),
    };

    index.index_zettel(&zettel_a).unwrap();
    index.index_zettel(&zettel_b).unwrap();

    let results = index.backlinking_zettel_paths("20260301120000").unwrap();
    assert_eq!(results.len(), 1);
    assert_eq!(results[0].0, "20260301100000");
    assert_eq!(results[0].1, "zettelkasten/20260301100000.md");

    // No backlinks for A
    let empty = index.backlinking_zettel_paths("20260301100000").unwrap();
    assert!(empty.is_empty());
}

#[test]
fn broken_backlinks_after_delete() {
    let index = in_memory_index();

    // Create target zettel A
    let a = ParsedZettel {
        meta: ZettelMeta {
            id: Some(ZettelId("20260301100000".into())),
            title: Some("Target".into()),
            date: None,
            zettel_type: None,
            tags: vec![],
            extra: TextMap::new(),
        },
        body: String::new(),
        reference_section: String::new(),
        inline_fields: vec![],
        wikilinks: vec![],
        path: "zettelkasten/20260301100000.md".into(),
    };

    // Create zettel B that links to A
    let b = ParsedZettel {
        meta: ZettelMeta {
            id: Some(ZettelId("20260301100001".into())),
            title: Some("Linker".into()),
            date: None,
            zettel_type: None,
            tags: vec![],
            extra: TextMap::new(),
        },
        body: "See [[20260301100000]]".into(),
        reference_section: String::new(),
        inline_fields: vec![],
        wikilinks: vec![WikiLink {
            target: "20260301100000".into(),
            display: None,
            zone: Zone::Body,
        }],
        path: "zettelkasten/20260301100001.md".into(),
    };

    index.index_zettel(&a).unwrap();
    index.index_zettel(&b).unwrap();

    // No broken backlinks yet
    let broken = index.broken_backlinks().unwrap();
    assert!(broken.is_empty());

    // Delete A
    index.remove_zettel("20260301100000").unwrap();

    // B's link to A is now broken
    let broken = index.broken_backlinks().unwrap();
    assert_eq!(broken.len(), 1);
    assert_eq!(broken[0].0, "20260301100001");
    assert_eq!(broken[0].1, "20260301100000");
}

#[test]
fn a_malformed_note_gives_a_warning_and_the_others_are_indexed() {
    let mut source = MockSource::new();
    source.files.insert(
        "zettelkasten/20260226120000.md".into(),
        "---\ntitle: Good\n---\nBody text.\n".into(),
    );
    source.files.insert(
        "zettelkasten/20260226120001.md".into(),
        "---\ntitle: [\n---\nMore text.\n".into(),
    );
    let idx = Index::open();
    let report = idx.rebuild(&source).unwrap();
    assert_eq!(report.indexed, 1);
    assert_eq!(report.warnings.len(), 1);
    let rows = idx.query_raw("SELECT title FROM zettels").unwrap();
    assert_eq!(rows, vec![vec!["Good".to_string()]]);
}

#[test]
fn indexing_a_note_again_changes_no_row() {
    let a = parser::parse(
        "---\nid: 20260226120000\ntitle: A\ntags:\n  - x\n  - y\naliases:\n  - first\n---\nkey:: v\n\nSee [[20260226120001|B]].\n",
        "zettelkasten/20260226120000.md",
    )
    .unwrap();
    let b = parser::parse(
        "---\nid: 20260226120001\ntitle: B\ntags:\n  - x\n---\nOther.\n",
        "zettelkasten/20260226120001.md",
    )
    .unwrap();
    let tables = [
        "SELECT id, title, path, body FROM zettels ORDER BY id",
        "SELECT zettel_id, tag FROM _zdb_tags ORDER BY 1, 2",
        "SELECT zettel_id, key, value, zone FROM _zdb_fields ORDER BY 1, 2",
        "SELECT source_id, target_path, display, zone FROM _zdb_links ORDER BY 1, 2",
        "SELECT zettel_id, alias FROM _zdb_aliases ORDER BY 1, 2",
        "SELECT title, body, tags FROM _zdb_fts ORDER BY 1",
    ];
    let idx = Index::open();
    idx.index_zettel(&a).unwrap();
    idx.index_zettel(&b).unwrap();
    let once: Vec<_> = tables.iter().map(|t| idx.query_raw(t).unwrap()).collect();
    assert_eq!(once[0].len(), 2);
    assert_eq!(once[1].len(), 3);
    assert_eq!(once[3].len(), 1);
    assert_eq!(once[4].len(), 1);
    assert_eq!(once[5].len(), 2);
    idx.index_zettel(&a).unwrap();
    let twice: Vec<_> = tables.iter().map(|t| idx.query_raw(t).unwrap()).collect();
    assert_eq!(once, twice);
    idx.remove_zettel("20260226120000").unwrap();
    let left: Vec<_> = tables.iter().map(|t| idx.query_raw(t).unwrap().len()).collect();
    assert_eq!(left, vec![1, 1, 0, 0, 0, 1]);
}

#[test]
fn a_note_takes_the_place_of_another_at_its_path() {
    let path = "zettelkasten/20260226120000.md";
    let a = parser::parse("---\nid: 20260226120000\ntitle: A\n---\nOne.\n", path).unwrap();
    let b = parser::parse("---\nid: 20260226120001\ntitle: B\n---\nTwo.\n", path).unwrap();
    let idx = Index::open();
    idx.index_zettel(&a).unwrap();
    idx.index_zettel(&b).unwrap();
    let rows = idx.query_raw("SELECT id, title FROM zettels").unwrap();
    assert_eq!(rows, vec![vec!["20260226120001".to_string(), "B".to_string()]]);
}
