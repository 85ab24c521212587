//! SQL statements, as far as the library reads them.
//!
//! Parsing SQL is the work of `sqlparser`. Of its statements the library keeps
//! plain values.
use crate::error::{ErrorView, ZettelError};
use crate::text;
use sqlparser::ast::{
    AlterTableOperation as AstOperation, Assignment as AstAssignment, ColumnDef as AstColumn,
    CreateTable as AstCreate, DataType as AstType, Delete as AstDelete, Expr as AstExpr,
    Insert as AstInsert, Statement as AstStatement,
};
use vstd::prelude::*;

verus! {

broadcast use vstd::string::group_string_axioms;

/// An expression. Of one that the library does not evaluate, how it is shown.
#[derive(Debug)]
pub enum SqlExpr {
    Quoted(String),
    Number(String),
    Truth(bool),
    Null,
    OtherValue(String),
    Name { value: String, shown: String },
    Unary { op: String, operand: Box<SqlExpr> },
    Binary { left: Box<SqlExpr>, op: String, right: Box<SqlExpr>, shown: String },
    Other(String),
}

/// A condition: the expression, and how it is shown.
#[derive(Debug)]
pub struct Condition {
    pub expr: SqlExpr,
    pub shown: String,
}

/// The data types that the library tells apart, without their sizes.
#[derive(Debug, Clone, Copy, PartialEq, Eq, Structural)]
pub enum SqlType {
    Text,
    Varchar,
    CharVarying,
    Integer,
    Int,
    BigInt,
    SmallInt,
    Real,
    Float,
    Double,
    DoublePrecision,
    Boolean,
    Other,
}

/// An option of a column: the table that it refers to, or something else.
#[derive(Debug)]
pub enum SqlOption {
    ForeignKey(String),
    Other,
}

/// A column of a table to be created: its name, its type and its options.
#[derive(Debug)]
pub struct SqlColumn {
    pub name: String,
    pub data_type: SqlType,
    pub options: Vec<SqlOption>,
}

/// Where the rows of an insertion come from.
#[derive(Debug)]
pub enum InsertSource {
    Values(Vec<Vec<SqlExpr>>),
    Query,
    Missing,
}

/// A change of a table.
#[derive(Debug)]
pub enum AlterOperation {
    AddColumn { name: String, data_type: SqlType },
    DropColumn { name: String, if_exists: bool },
    RenameColumn { old_name: String, new_name: String },
    Other(String),
}

/// What is to be dropped.
#[derive(Debug)]
pub enum DropKind {
    Table,
    Index,
    View,
    Other(String),
}

#[derive(Debug)]
pub enum SqlStatement {
    CreateTable { name: String, if_not_exists: bool, columns: Vec<SqlColumn> },
    Insert {
        replace_into: bool,
        or_clause: bool,
        on_clause: bool,
        table: String,
        columns: Vec<String>,
        source: InsertSource,
    },
    Update {
        table: String,
        from_clause: bool,
        assignments: Vec<(Vec<String>, SqlExpr)>,
        selection: Option<Condition>,
    },
    Delete { tables: Vec<String>, selection: Option<Condition> },
    AlterTable { name: String, operations: Vec<AlterOperation> },
    Drop { kind: DropKind, if_exists: bool, names: Vec<String>, cascade: bool },
    CreateIndex,
    CreateView,
    CreateVirtualTable,
    CreateTrigger,
    AlterIndex,
    Begin,
    Commit,
    Rollback,
    Other(String),
}

// ---------------------------------------------------------------------------
// Statements as mathematical values
// ---------------------------------------------------------------------------
pub enum ExprView {
    Quoted(Seq<char>),
    Number(Seq<char>),
    Truth(bool),
    Null,
    OtherValue(Seq<char>),
    Name { value: Seq<char>, shown: Seq<char> },
    Unary { op: Seq<char>, operand: Box<ExprView> },
    Binary { left: Box<ExprView>, op: Seq<char>, right: Box<ExprView>, shown: Seq<char> },
    Other(Seq<char>),
}

pub open spec fn expr_view(e: SqlExpr) -> ExprView
    decreases e,
{
    match e {
        SqlExpr::Quoted(s) => ExprView::Quoted(s@),
        SqlExpr::Number(s) => ExprView::Number(s@),
        SqlExpr::Truth(b) => ExprView::Truth(b),
        SqlExpr::Null => ExprView::Null,
        SqlExpr::OtherValue(s) => ExprView::OtherValue(s@),
        SqlExpr::Name { value, shown } => ExprView::Name { value: value@, shown: shown@ },
        SqlExpr::Unary { op, operand } => ExprView::Unary {
            op: op@,
            operand: Box::new(expr_view(*operand)),
        },
        SqlExpr::Binary { left, op, right, shown } => ExprView::Binary {
            left: Box::new(expr_view(*left)),
            op: op@,
            right: Box::new(expr_view(*right)),
            shown: shown@,
        },
        SqlExpr::Other(s) => ExprView::Other(s@),
    }
}

pub open spec fn exprs_view(l: Seq<SqlExpr>) -> Seq<ExprView> {
    Seq::new(l.len(), |i: int| expr_view(l[i]))
}

pub struct ConditionView {
    pub expr: ExprView,
    pub shown: Seq<char>,
}

pub open spec fn condition_view(c: Option<Condition>) -> Option<ConditionView> {
    match c {
        Some(c) => Some(ConditionView { expr: expr_view(c.expr), shown: c.shown@ }),
        None => None,
    }
}

/// A column: its name, its type, and of each option the table that it refers to.
pub struct SqlColumnView {
    pub name: Seq<char>,
    pub data_type: SqlType,
    pub options: Seq<Option<Seq<char>>>,
}

pub open spec fn option_view(o: SqlOption) -> Option<Seq<char>> {
    match o {
        SqlOption::ForeignKey(s) => Some(s@),
        SqlOption::Other => None,
    }
}

pub open spec fn column_view(c: SqlColumn) -> SqlColumnView {
    SqlColumnView {
        name: c.name@,
        data_type: c.data_type,
        options: Seq::new(c.options@.len(), |i: int| option_view(c.options@[i])),
    }
}

pub enum SourceView {
    Values(Seq<Seq<ExprView>>),
    Query,
    Missing,
}

pub open spec fn source_view(s: InsertSource) -> SourceView {
    match s {
        InsertSource::Values(l) => SourceView::Values(
            Seq::new(l@.len(), |i: int| exprs_view(l@[i]@)),
        ),
        InsertSource::Query => SourceView::Query,
        InsertSource::Missing => SourceView::Missing,
    }
}

pub enum OperationView {
    AddColumn { name: Seq<char>, data_type: SqlType },
    DropColumn { name: Seq<char>, if_exists: bool },
    RenameColumn { old_name: Seq<char>, new_name: Seq<char> },
    Other(Seq<char>),
}

pub open spec fn operation_view(o: AlterOperation) -> OperationView {
    match o {
        AlterOperation::AddColumn { name, data_type } => OperationView::AddColumn {
            name: name@,
            data_type,
        },
        AlterOperation::DropColumn { name, if_exists } => OperationView::DropColumn {
            name: name@,
            if_exists,
        },
        AlterOperation::RenameColumn { old_name, new_name } => OperationView::RenameColumn {
            old_name: old_name@,
            new_name: new_name@,
        },
        AlterOperation::Other(s) => OperationView::Other(s@),
    }
}

pub enum DropView {
    Table,
    Index,
    View,
    Other(Seq<char>),
}

pub open spec fn drop_view(k: DropKind) -> DropView {
    match k {
        DropKind::Table => DropView::Table,
        DropKind::Index => DropView::Index,
        DropKind::View => DropView::View,
        DropKind::Other(s) => DropView::Other(s@),
    }
}

pub enum SqlView {
    CreateTable { name: Seq<char>, if_not_exists: bool, columns: Seq<SqlColumnView> },
    Insert {
        replace_into: bool,
        or_clause: bool,
        on_clause: bool,
        table: Seq<char>,
        columns: Seq<Seq<char>>,
        source: SourceView,
    },
    Update {
        table: Seq<char>,
        from_clause: bool,
        assignments: Seq<(Seq<Seq<char>>, ExprView)>,
        selection: Option<ConditionView>,
    },
    Delete { tables: Seq<Seq<char>>, selection: Option<ConditionView> },
    AlterTable { name: Seq<char>, operations: Seq<OperationView> },
    Drop { kind: DropView, if_exists: bool, names: Seq<Seq<char>>, cascade: bool },
    CreateIndex,
    CreateView,
    CreateVirtualTable,
    CreateTrigger,
    AlterIndex,
    Begin,
    Commit,
    Rollback,
    Other(Seq<char>),
}

impl View for SqlStatement {
    type V = SqlView;

    open spec fn view(&self) -> SqlView {
        match *self {
            SqlStatement::CreateTable { name, if_not_exists, columns } => SqlView::CreateTable {
                name: name@,
                if_not_exists,
                columns: Seq::new(columns@.len(), |i: int| column_view(columns@[i])),
            },
            SqlStatement::Insert {
                replace_into,
                or_clause,
                on_clause,
                table,
                columns,
                source,
            } => SqlView::Insert {
                replace_into,
                or_clause,
                on_clause,
                table: table@,
                columns: text::texts(columns@),
                source: source_view(source),
            },
            SqlStatement::Update { table, from_clause, assignments, selection } => SqlView::Update {
                table: table@,
                from_clause,
                assignments: Seq::new(
                    assignments@.len(),
                    |i: int| (text::texts(assignments@[i].0@), expr_view(assignments@[i].1)),
                ),
                selection: condition_view(selection),
            },
            SqlStatement::Delete { tables, selection } => SqlView::Delete {
                tables: text::texts(tables@),
                selection: condition_view(selection),
            },
            SqlStatement::AlterTable { name, operations } => SqlView::AlterTable {
                name: name@,
                operations: Seq::new(operations@.len(), |i: int| operation_view(operations@[i])),
            },
            SqlStatement::Drop { kind, if_exists, names, cascade } => SqlView::Drop {
                kind: drop_view(kind),
                if_exists,
                names: text::texts(names@),
                cascade,
            },
            SqlStatement::CreateIndex => SqlView::CreateIndex,
            SqlStatement::CreateView => SqlView::CreateView,
            SqlStatement::CreateVirtualTable => SqlView::CreateVirtualTable,
            SqlStatement::CreateTrigger => SqlView::CreateTrigger,
            SqlStatement::AlterIndex => SqlView::AlterIndex,
            SqlStatement::Begin => SqlView::Begin,
            SqlStatement::Commit => SqlView::Commit,
            SqlStatement::Rollback => SqlView::Rollback,
            SqlStatement::Other(s) => SqlView::Other(s@),
        }
    }
}

pub open spec fn batch_view(l: Seq<SqlStatement>) -> Seq<SqlView> {
    Seq::new(l.len(), |i: int| l[i]@)
}

/// A statement of `sqlparser`.
#[verifier::external_type_specification]
#[verifier::external_body]
pub struct ExAstStatement(AstStatement);

/// An insertion of `sqlparser`.
#[verifier::external_type_specification]
#[verifier::external_body]
pub struct ExAstInsert(AstInsert);

/// A deletion of `sqlparser`.
#[verifier::external_type_specification]
#[verifier::external_body]
pub struct ExAstDelete(AstDelete);

/// The creation of a table of `sqlparser`.
#[verifier::external_type_specification]
#[verifier::external_body]
pub struct ExAstCreate(AstCreate);

/// The declaration of a column of `sqlparser`.
#[verifier::external_type_specification]
#[verifier::external_body]
pub struct ExAstColumn(AstColumn);

/// A data type of `sqlparser`.
#[verifier::external_type_specification]
#[verifier::external_body]
pub struct ExAstType(AstType);

/// A change of a table of `sqlparser`.
#[verifier::external_type_specification]
#[verifier::external_body]
pub struct ExAstOperation(AstOperation);

/// An assignment of `sqlparser`.
#[verifier::external_type_specification]
#[verifier::external_body]
pub struct ExAstAssignment(AstAssignment);

/// An expression of `sqlparser`.
#[verifier::external_type_specification]
#[verifier::external_body]
pub struct ExAstExpr(AstExpr);

/// The statements that `sqlparser` reads from a text, or its message.
pub uninterp spec fn parsed_sql(sql: Seq<char>) -> Result<Seq<SqlView>, Seq<char>>;

/// `sqlparser::parser::Parser::parse_sql` in the generic dialect, its statements
/// taken over as plain values. The result is named `parsed_sql`; nothing else is
/// said of it.
#[verifier::external_body]
fn read_sql(sql: &str) -> (r: Result<Vec<SqlStatement>, String>)
    ensures
        match r {
            Ok(list) => parsed_sql(sql@) == Ok::<Seq<SqlView>, Seq<char>>(batch_view(list@)),
            Err(e) => parsed_sql(sql@) == Err::<Seq<SqlView>, Seq<char>>(e@),
        },
{
    match sqlparser::parser::Parser::parse_sql(&sqlparser::dialect::GenericDialect {}, sql) {
        Ok(list) => Ok(list.iter().map(statement_of).collect()),
        Err(e) => Err(e.to_string()),
    }
}

/// A statement of `sqlparser` as a plain value. Nothing is promised of it on its
/// own, nor of the functions below that it is put together from.
#[verifier::external_body]
fn statement_of(s: &AstStatement) -> (r: SqlStatement) {
    match s {
        AstStatement::CreateTable(t) => create_of(t),
        AstStatement::Insert(i) => insert_of(i),
        AstStatement::Update { .. } => update_of(s),
        AstStatement::Delete(d) => delete_of(d),
        AstStatement::AlterTable { name, operations, .. } => SqlStatement::AlterTable {
            name: name.to_string(),
            operations: operations.iter().map(operation_of).collect(),
        },
        AstStatement::Drop { .. } => drop_of(s),
        _ => plain_of(s),
    }
}

/// A statement of `sqlparser` that is told by its kind alone, or taken as text.
#[verifier::external_body]
fn plain_of(s: &AstStatement) -> (r: SqlStatement) {
    match s {
        AstStatement::CreateIndex(_) => SqlStatement::CreateIndex,
        AstStatement::CreateView { .. } => SqlStatement::CreateView,
        AstStatement::CreateVirtualTable { .. } => SqlStatement::CreateVirtualTable,
        AstStatement::CreateTrigger { .. } => SqlStatement::CreateTrigger,
        AstStatement::AlterIndex { .. } => SqlStatement::AlterIndex,
        AstStatement::StartTransaction { .. } => SqlStatement::Begin,
        AstStatement::Commit { .. } => SqlStatement::Commit,
        AstStatement::Rollback { .. } => SqlStatement::Rollback,
        _ => SqlStatement::Other(s.to_string()),
    }
}

/// `sqlparser::ast::CreateTable`, field by field. Nothing is promised of it on
/// its own.
#[verifier::external_body]
fn create_of(t: &AstCreate) -> (r: SqlStatement) {
    SqlStatement::CreateTable {
        name: t.name.to_string(),
        if_not_exists: t.if_not_exists,
        columns: t.columns.iter().map(column_of).collect(),
    }
}

/// `sqlparser::ast::ColumnDef`, with each of its options. Nothing is promised of it on
/// its own.
#[verifier::external_body]
fn column_of(c: &AstColumn) -> (r: SqlColumn) {
    SqlColumn {
        name: c.name.value.clone(),
        data_type: type_of(&c.data_type),
        options: c.options.iter().map(|o| match &o.option {
            sqlparser::ast::ColumnOption::ForeignKey { foreign_table, .. } => SqlOption::ForeignKey(foreign_table.to_string()),
            _ => SqlOption::Other,
        }).collect(),
    }
}

/// `sqlparser::ast::DataType`, told by its kind alone. Nothing is promised of it on
/// its own.
#[verifier::external_body]
fn type_of(t: &AstType) -> (r: SqlType) {
    match t {
        AstType::Text => SqlType::Text,
        AstType::Varchar(_) => SqlType::Varchar,
        AstType::CharVarying(_) => SqlType::CharVarying,
        AstType::Integer(_) => SqlType::Integer,
        AstType::Int(_) => SqlType::Int,
        AstType::BigInt(_) => SqlType::BigInt,
        AstType::SmallInt(_) => SqlType::SmallInt,
        AstType::Real => SqlType::Real,
        AstType::Float(_) => SqlType::Float,
        AstType::Double(_) => SqlType::Double,
        AstType::DoublePrecision => SqlType::DoublePrecision,
        AstType::Boolean => SqlType::Boolean,
        _ => SqlType::Other,
    }
}

/// `sqlparser::ast::Insert`, with the rows of its `VALUES`. Nothing is promised of it on
/// its own.
#[verifier::external_body]
fn insert_of(i: &AstInsert) -> (r: SqlStatement) {
    SqlStatement::Insert {
        replace_into: i.replace_into,
        or_clause: i.or.is_some(),
        on_clause: i.on.is_some(),
        table: i.table.to_string(),
        columns: i.columns.iter().map(|c| c.value.clone()).collect(),
        source: i.source.as_ref().map_or(InsertSource::Missing, |q| match q.body.as_ref() {
            sqlparser::ast::SetExpr::Values(v) => InsertSource::Values(
                v.rows.iter().map(|row| row.iter().map(expr_of).collect()).collect()),
            _ => InsertSource::Query,
        }),
    }
}

/// `sqlparser::ast::Statement::Update`, field by field. Nothing is promised of it on
/// its own.
#[verifier::external_body]
fn update_of(s: &AstStatement) -> (r: SqlStatement) {
    match s {
        AstStatement::Update { table, assignments, from, selection, .. } => SqlStatement::Update {
            table: table.relation.to_string(),
            from_clause: from.is_some(),
            assignments: assignments.iter().map(assignment_of).collect(),
            selection: selection.as_ref().map(condition_of),
        },
        _ => plain_of(s),
    }
}

/// `sqlparser::ast::Assignment`: the names it sets, and the value. Nothing is promised of it on
/// its own.
#[verifier::external_body]
fn assignment_of(a: &AstAssignment) -> (r: (Vec<String>, SqlExpr)) {
    let names = match &a.target {
        sqlparser::ast::AssignmentTarget::ColumnName(n) => vec![n.to_string()],
        sqlparser::ast::AssignmentTarget::Tuple(l) => l.iter().map(|n| n.to_string()).collect(),
    };
    (names, expr_of(&a.value))
}

/// `sqlparser::ast::Delete`, with each of its tables. Nothing is promised of it on
/// its own.
#[verifier::external_body]
fn delete_of(d: &AstDelete) -> (r: SqlStatement) {
    let tables = match &d.from {
        sqlparser::ast::FromTable::WithFromKeyword(t) => t,
        sqlparser::ast::FromTable::WithoutKeyword(t) => t,
    };
    SqlStatement::Delete {
        tables: tables.iter().map(|t| t.relation.to_string()).collect(),
        selection: d.selection.as_ref().map(condition_of),
    }
}

/// `sqlparser::ast::AlterTableOperation`, field by field. Nothing is promised of it on
/// its own.
#[verifier::external_body]
fn operation_of(o: &AstOperation) -> (r: AlterOperation) {
    match o {
        AstOperation::AddColumn { column_def, .. } => AlterOperation::AddColumn {
            name: column_def.name.value.clone(), data_type: type_of(&column_def.data_type) },
        AstOperation::DropColumn { column_name, if_exists, .. } => AlterOperation::DropColumn {
            name: column_name.value.clone(), if_exists: *if_exists },
        AstOperation::RenameColumn { old_column_name, new_column_name } => AlterOperation::RenameColumn {
            old_name: old_column_name.value.clone(), new_name: new_column_name.value.clone() },
        other => AlterOperation::Other(other.to_string()),
    }
}

/// `sqlparser::ast::Statement::Drop`, field by field. Nothing is promised of it on
/// its own.
#[verifier::external_body]
fn drop_of(s: &AstStatement) -> (r: SqlStatement) {
    match s {
        AstStatement::Drop { object_type, if_exists, names, cascade, .. } => SqlStatement::Drop {
            kind: match object_type {
                sqlparser::ast::ObjectType::Table => DropKind::Table,
                sqlparser::ast::ObjectType::Index => DropKind::Index,
                sqlparser::ast::ObjectType::View => DropKind::View,
                other => DropKind::Other(other.to_string()),
            },
            if_exists: *if_exists,
            names: names.iter().map(|n| n.to_string()).collect(),
            cascade: *cascade,
        },
        _ => plain_of(s),
    }
}

/// `sqlparser::ast::Expr` as a condition, with how `Display` shows it. Nothing is promised of it on
/// its own.
#[verifier::external_body]
fn condition_of(e: &AstExpr) -> (r: Condition) {
    Condition { expr: expr_of(e), shown: e.to_string() }
}

/// `sqlparser::ast::Expr`, node by node. Nothing is promised of it on
/// its own.
#[verifier::external_body]
fn expr_of(e: &AstExpr) -> (r: SqlExpr) {
    match e {
        AstExpr::Value(v) => value_of(v),
        AstExpr::UnaryOp { op, expr } => SqlExpr::Unary {
            op: op.to_string(), operand: Box::new(expr_of(expr)) },
        AstExpr::BinaryOp { left, op, right } => SqlExpr::Binary {
            left: Box::new(expr_of(left)),
            op: op.to_string(),
            right: Box::new(expr_of(right)),
            shown: e.to_string(),
        },
        AstExpr::Identifier(i) => SqlExpr::Name { value: i.value.clone(), shown: e.to_string() },
        _ => SqlExpr::Other(e.to_string()),
    }
}

/// A literal of `sqlparser`.
#[verifier::external_type_specification]
#[verifier::external_body]
pub struct ExAstValue(sqlparser::ast::ValueWithSpan);

/// `sqlparser::ast::ValueWithSpan`, told by its kind. Nothing is promised of it on
/// its own.
#[verifier::external_body]
fn value_of(v: &sqlparser::ast::ValueWithSpan) -> (r: SqlExpr) {
    match &v.value {
        sqlparser::ast::Value::SingleQuotedString(s) => SqlExpr::Quoted(s.clone()),
        sqlparser::ast::Value::DoubleQuotedString(s) => SqlExpr::Quoted(s.clone()),
        sqlparser::ast::Value::Number(n, _) => SqlExpr::Number(n.clone()),
        sqlparser::ast::Value::Boolean(b) => SqlExpr::Truth(*b),
        sqlparser::ast::Value::Null => SqlExpr::Null,
        _ => SqlExpr::OtherValue(v.to_string()),
    }
}

/// Reads the statements of a batch. A text that is no SQL, or that holds no
/// statement, is refused.
pub fn parse_batch(sql: &str) -> (r: Result<Vec<SqlStatement>, ZettelError>)
    ensures
        match parsed_sql(sql@) {
            Err(e) => r matches Err(x) && x@ == ErrorView::SqlEngine("parse: "@ + e),
            Ok(list) => if list.len() == 0 {
                r matches Err(x) && x@ == ErrorView::SqlEngine("no SQL statements"@)
            } else {
                r matches Ok(l) && batch_view(l@) == list
            },
        },
{
    match read_sql(sql) {
        Err(e) => Err(ZettelError::SqlEngine(text::cat("parse: ", e.as_str()))),
        Ok(list) => {
            if list.len() == 0 {
                return Err(ZettelError::SqlEngine(text::copy("no SQL statements")));
            }
            Ok(list)
        },
    }
}

// ---------------------------------------------------------------------------
// Expressions
// ---------------------------------------------------------------------------
/// The text of a literal, with signs before it.
pub open spec fn literal(e: SqlExpr) -> Result<Seq<char>, ErrorView>
    decreases e,
{
    match e {
        SqlExpr::Quoted(s) => Ok(s@),
        SqlExpr::Number(n) => Ok(n@),
        SqlExpr::Truth(b) => Ok(crate::indexer::bool_text(b)),
        SqlExpr::Null => Ok(Seq::empty()),
        SqlExpr::OtherValue(s) => Err(ErrorView::SqlEngine("unsupported value: "@ + s@)),
        SqlExpr::Unary { op, operand } => match literal(*operand) {
            Ok(s) => Ok(op@ + s),
            Err(x) => Err(x),
        },
        SqlExpr::Name { value, shown } => Err(
            ErrorView::SqlEngine("unsupported expression: "@ + shown@),
        ),
        SqlExpr::Binary { left, op, right, shown } => Err(
            ErrorView::SqlEngine("unsupported expression: "@ + shown@),
        ),
        SqlExpr::Other(shown) => Err(ErrorView::SqlEngine("unsupported expression: "@ + shown@)),
    }
}

/// The text of a literal.
pub fn expr_to_string(expr: &SqlExpr) -> (r: Result<String, ZettelError>)
    ensures
        match r {
            Ok(s) => literal(*expr) == Ok::<Seq<char>, ErrorView>(s@),
            Err(e) => literal(*expr) == Err::<Seq<char>, ErrorView>(e@),
        },
    decreases expr,
{
    match expr {
        SqlExpr::Quoted(s) => Ok(text::copy(s.as_str())),
        SqlExpr::Number(n) => Ok(text::copy(n.as_str())),
        SqlExpr::Truth(b) => Ok(
            text::copy(
                if *b {
                    "true"
                } else {
                    "false"
                },
            ),
        ),
        SqlExpr::Null => {
            let s = String::new();
            proof {
                assert(s@ =~= Seq::<char>::empty());
            }
            Ok(s)
        },
        SqlExpr::OtherValue(s) => Err(
            ZettelError::SqlEngine(text::cat("unsupported value: ", s.as_str())),
        ),
        SqlExpr::Unary { op, operand } => match expr_to_string(operand) {
            Ok(s) => Ok(text::cat(op.as_str(), s.as_str())),
            Err(e) => Err(e),
        },
        SqlExpr::Name { value, shown } => Err(
            ZettelError::SqlEngine(text::cat("unsupported expression: ", shown.as_str())),
        ),
        SqlExpr::Binary { left, op, right, shown } => Err(
            ZettelError::SqlEngine(text::cat("unsupported expression: ", shown.as_str())),
        ),
        SqlExpr::Other(shown) => Err(
            ZettelError::SqlEngine(text::cat("unsupported expression: ", shown.as_str())),
        ),
    }
}

/// The identifier in a condition of the form `id = '<value>'`.
pub open spec fn where_id(selection: Option<Condition>) -> Result<Seq<char>, ErrorView> {
    match selection {
        Some(c) => match c.expr {
            SqlExpr::Binary { left, op, right, shown } => if op@ != "="@ {
                Err(ErrorView::SqlEngine("only WHERE id = '<value>' supported"@))
            } else {
                match *left {
                    SqlExpr::Name { value, shown } => if text::lowered(value@) != "id"@ {
                        Err(ErrorView::SqlEngine("only WHERE id = '<value>' supported"@))
                    } else {
                        literal(*right)
                    },
                    _ => Err(ErrorView::SqlEngine("WHERE clause must be id = '<value>'"@)),
                }
            },
            _ => Err(ErrorView::SqlEngine("WHERE id = '<value>' required"@)),
        },
        None => Err(ErrorView::SqlEngine("WHERE id = '<value>' required"@)),
    }
}

fn refuse(msg: &str) -> (e: ZettelError)
    ensures
        e@ == ErrorView::SqlEngine(msg@),
{
    ZettelError::SqlEngine(text::copy(msg))
}

/// The identifier in a condition of the form `id = '<value>'`.
pub fn extract_where_id(selection: &Option<Condition>) -> (r: Result<String, ZettelError>)
    ensures
        match r {
            Ok(s) => where_id(*selection) == Ok::<Seq<char>, ErrorView>(s@),
            Err(e) => where_id(*selection) == Err::<Seq<char>, ErrorView>(e@),
        },
{
    match selection {
        Some(c) => match &c.expr {
            SqlExpr::Binary { left, op, right, shown } => {
                if !text::same(op.as_str(), "=") {
                    return Err(refuse("only WHERE id = '<value>' supported"));
                }
                match &**left {
                    SqlExpr::Name { value, shown } => {
                        let l = text::to_lower(value.as_str());
                        if !text::same(l.as_str(), "id") {
                            return Err(refuse("only WHERE id = '<value>' supported"));
                        }
                        expr_to_string(right)
                    },
                    _ => Err(refuse("WHERE clause must be id = '<value>'")),
                }
            },
            _ => Err(refuse("WHERE id = '<value>' required")),
        },
        None => Err(refuse("WHERE id = '<value>' required")),
    }
}

/// The name of a data type in a schema.
pub open spec fn type_name_of(t: SqlType) -> Seq<char> {
    match t {
        SqlType::Text | SqlType::Varchar | SqlType::CharVarying => "TEXT"@,
        SqlType::Integer | SqlType::Int | SqlType::BigInt | SqlType::SmallInt => "INTEGER"@,
        SqlType::Real | SqlType::Float | SqlType::Double | SqlType::DoublePrecision => "REAL"@,
        SqlType::Boolean => "BOOLEAN"@,
        SqlType::Other => "TEXT"@,
    }
}

pub fn data_type_to_string(t: SqlType) -> (r: String)
    ensures
        r@ == type_name_of(t),
{
    match t {
        SqlType::Text | SqlType::Varchar | SqlType::CharVarying => text::copy("TEXT"),
        SqlType::Integer | SqlType::Int | SqlType::BigInt | SqlType::SmallInt => text::copy(
            "INTEGER",
        ),
        SqlType::Real | SqlType::Float | SqlType::Double | SqlType::DoublePrecision => text::copy(
            "REAL",
        ),
        SqlType::Boolean => text::copy("BOOLEAN"),
        SqlType::Other => text::copy("TEXT"),
    }
}

/// The first foreign table from the place `i` on that options name.
pub open spec fn foreign_table(options: Seq<SqlOption>, i: int) -> Option<Seq<char>>
    decreases options.len() - i,
{
    if i < 0 || i >= options.len() {
        None
    } else {
        match options[i] {
            SqlOption::ForeignKey(t) => Some(identifier(t@)),
            SqlOption::Other => foreign_table(options, i + 1),
        }
    }
}

/// The table that a column refers to, by its options.
pub fn extract_references(options: &Vec<SqlOption>) -> (r: Option<String>)
    ensures
        text::opt_text(r) == foreign_table(options@, 0),
{
    let mut i: usize = 0;
    while i < options.len()
        invariant
            i <= options@.len(),
            foreign_table(options@, i as int) == foreign_table(options@, 0),
        decreases options@.len() - i,
    {
        if let SqlOption::ForeignKey(t) = &options[i] {
            return Some(unquote_identifier(t.as_str()));
        }
        i = i + 1;
    }
    None
}

/// A name without the double quotes round it, in lower case.
pub open spec fn identifier(s: Seq<char>) -> Seq<char> {
    text::lowered(text::stripped(s, '"'))
}

pub fn unquote_identifier(s: &str) -> (r: String)
    ensures
        r@ == identifier(s@),
{
    let t = text::strip_char(s, '"');
    text::to_lower(t.as_str())
}

} // verus!
