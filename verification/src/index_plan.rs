//! What goes into the index: the rows for a note, the statements for typed
//! tables, and which notes have to be indexed again.
use crate::indexer::{
    bool_text, cell, extract_column_value, merge_schemas, merged_schema, notes_view,
};
use crate::nosql::readable;
use crate::parser::{extract_id_from_path, file_stem, parse};
use crate::rows::{find_column, seek_column, Cells};
use crate::schema::{only_texts, text_at, Fields};
use crate::text::{self, join, opt_text, texts};
use crate::textmap::{self, lookup, mapped, TextMap};
use crate::types::{
    columns_view, fields_view, inline_view, lemma_fields_lookup, lemma_pairs_view,
    lemma_values_view, links_view, values_view, ColumnDef, ColumnView, DiffKind, FieldView,
    InlineField, LinkView, ParsedZettel, SchemaView, TableSchema, Value, ValueView, WikiLink,
    ZettelView, Zone,
};
use vstd::prelude::*;

verus! {

broadcast use vstd::string::group_string_axioms;

// ---------------------------------------------------------------------------
// The rows for a note
// ---------------------------------------------------------------------------
/// A row of the table of attachments.
#[derive(Debug, Clone)]
pub struct AttachmentRow {
    pub name: String,
    pub mime: String,
    pub size: i64,
    pub path: String,
}

pub struct AttachmentRowView {
    pub name: Seq<char>,
    pub mime: Seq<char>,
    pub size: i64,
    pub path: Seq<char>,
}

impl View for AttachmentRow {
    type V = AttachmentRowView;

    open spec fn view(&self) -> AttachmentRowView {
        AttachmentRowView { name: self.name@, mime: self.mime@, size: self.size, path: self.path@ }
    }
}

pub open spec fn attachment_rows_view(s: Seq<AttachmentRow>) -> Seq<AttachmentRowView> {
    Seq::new(s.len(), |i: int| s[i]@)
}

/// All that the index holds of a note.
#[derive(Debug)]
pub struct IndexRows {
    pub id: String,
    pub title: String,
    pub date: String,
    pub zettel_type: String,
    pub path: String,
    pub body: String,
    /// The tags in one text, for the full-text search.
    pub tags_text: String,
    pub tags: Vec<String>,
    pub fields: Vec<InlineField>,
    pub links: Vec<WikiLink>,
    pub aliases: Vec<String>,
    pub attachments: Vec<AttachmentRow>,
}

pub struct RowsView {
    pub id: Seq<char>,
    pub title: Seq<char>,
    pub date: Seq<char>,
    pub zettel_type: Seq<char>,
    pub path: Seq<char>,
    pub body: Seq<char>,
    pub tags_text: Seq<char>,
    pub tags: Seq<Seq<char>>,
    pub fields: Seq<FieldView>,
    pub links: Seq<LinkView>,
    pub aliases: Seq<Seq<char>>,
    pub attachments: Seq<AttachmentRowView>,
}

impl View for IndexRows {
    type V = RowsView;

    open spec fn view(&self) -> RowsView {
        RowsView {
            id: self.id@,
            title: self.title@,
            date: self.date@,
            zettel_type: self.zettel_type@,
            path: self.path@,
            body: self.body@,
            tags_text: self.tags_text@,
            tags: texts(self.tags@),
            fields: inline_view(self.fields@),
            links: links_view(self.links@),
            aliases: texts(self.aliases@),
            attachments: attachment_rows_view(self.attachments@),
        }
    }
}

pub open spec fn or_blank(o: Option<Seq<char>>) -> Seq<char> {
    match o {
        Some(s) => s,
        None => Seq::empty(),
    }
}

/// A scalar of the front matter as the index keeps it.
pub open spec fn scalar_of(v: ValueView) -> Option<Seq<char>> {
    match v {
        ValueView::Text(s) => Some(s),
        ValueView::Number(n) => Some(n.display),
        ValueView::Bool(b) => Some(bool_text(b)),
        _ => None,
    }
}

/// The scalars of the front matter as fields.
pub open spec fn extra_fields(e: Fields) -> Seq<FieldView>
    decreases e.len(),
{
    if e.len() == 0 {
        Seq::empty()
    } else {
        match scalar_of(e.last().1) {
            Some(value) => extra_fields(e.drop_last()).push(
                FieldView { key: e.last().0, value, zone: Zone::Frontmatter },
            ),
            None => extra_fields(e.drop_last()),
        }
    }
}

pub open spec fn aliases_of(e: Fields) -> Seq<Seq<char>> {
    match lookup(e, "aliases"@) {
        Some(ValueView::List(l)) => only_texts(l),
        _ => Seq::empty(),
    }
}

pub open spec fn attachment_row(id: Seq<char>, m: Fields) -> AttachmentRowView {
    let name = or_blank(text_at(m, "name"@));
    AttachmentRowView {
        name,
        mime: or_blank(text_at(m, "mime"@)),
        size: match lookup(m, "size"@) {
            Some(ValueView::Number(n)) => n.as_i64,
            _ => 0,
        },
        path: "reference/"@ + id + "/"@ + name,
    }
}

pub open spec fn attachment_rows(id: Seq<char>, l: Seq<ValueView>) -> Seq<AttachmentRowView>
    decreases l.len(),
{
    if l.len() == 0 {
        Seq::empty()
    } else {
        match l.last() {
            ValueView::Mapping(m) => attachment_rows(id, l.drop_last()).push(
                attachment_row(id, m),
            ),
            _ => attachment_rows(id, l.drop_last()),
        }
    }
}

pub open spec fn attachments_of(id: Seq<char>, e: Fields) -> Seq<AttachmentRowView> {
    match lookup(e, "attachments"@) {
        Some(ValueView::List(l)) => attachment_rows(id, l),
        _ => Seq::empty(),
    }
}

/// What the index holds of a note.
pub open spec fn rows_of(z: ZettelView) -> RowsView {
    let id = or_blank(z.meta.id);
    RowsView {
        id,
        title: or_blank(z.meta.title),
        date: or_blank(z.meta.date),
        zettel_type: or_blank(z.meta.zettel_type),
        path: z.path,
        body: z.body,
        tags_text: join(z.meta.tags, ", "@),
        tags: z.meta.tags,
        fields: z.fields + extra_fields(z.meta.extra),
        links: z.links,
        aliases: aliases_of(z.meta.extra),
        attachments: attachments_of(id, z.meta.extra),
    }
}

fn blank_or(o: &Option<String>) -> (r: String)
    ensures
        r@ == or_blank(opt_text(*o)),
{
    match o {
        Some(s) => text::copy(s.as_str()),
        None => {
            let s = String::new();
            proof {
                assert(s@ =~= Seq::<char>::empty());
            }
            s
        },
    }
}

fn copy_inline(v: &Vec<InlineField>) -> (r: Vec<InlineField>)
    ensures
        inline_view(r@) == inline_view(v@),
{
    let mut out: Vec<InlineField> = Vec::new();
    let mut i: usize = 0;
    while i < v.len()
        invariant
            i <= v@.len(),
            out@.len() == i,
            forall|j: int| 0 <= j < i ==> (#[trigger] out@[j])@ == v@[j]@,
        decreases v@.len() - i,
    {
        out.push(
            InlineField {
                key: text::copy(v[i].key.as_str()),
                value: text::copy(v[i].value.as_str()),
                zone: v[i].zone,
            },
        );
        i = i + 1;
    }
    proof {
        assert(inline_view(out@) =~= inline_view(v@));
    }
    out
}

fn copy_links(v: &Vec<WikiLink>) -> (r: Vec<WikiLink>)
    ensures
        links_view(r@) == links_view(v@),
{
    let mut out: Vec<WikiLink> = Vec::new();
    let mut i: usize = 0;
    while i < v.len()
        invariant
            i <= v@.len(),
            out@.len() == i,
            forall|j: int| 0 <= j < i ==> (#[trigger] out@[j])@ == v@[j]@,
        decreases v@.len() - i,
    {
        out.push(
            WikiLink {
                target: text::copy(v[i].target.as_str()),
                display: text::copy_opt(&v[i].display),
                zone: v[i].zone,
            },
        );
        i = i + 1;
    }
    proof {
        assert(links_view(out@) =~= links_view(v@));
    }
    out
}

fn scalar(v: &Value) -> (r: Option<String>)
    ensures
        opt_text(r) == scalar_of(v@),
{
    match v {
        Value::String(s) => Some(text::copy(s.as_str())),
        Value::Number(n) => Some(text::copy(n.display.as_str())),
        Value::Bool(b) => Some(
            text::copy(
                if *b {
                    "true"
                } else {
                    "false"
                },
            ),
        ),
        _ => None,
    }
}

fn field_rows(z: &ParsedZettel) -> (r: Vec<InlineField>)
    ensures
        inline_view(r@) == z@.fields + extra_fields(z@.meta.extra),
{
    let mut out = copy_inline(&z.inline_fields);
    let ghost head = z@.fields;
    let ghost ex = fields_view(z.meta.extra);
    let mut i: usize = 0;
    proof {
        lemma_pairs_view(z.meta.extra.entries@);
        assert(ex.take(0) =~= Seq::<(Seq<char>, ValueView)>::empty());
        assert(head + Seq::<FieldView>::empty() =~= head);
    }
    while i < z.meta.extra.entries.len()
        invariant
            i <= z.meta.extra.entries@.len() == ex.len(),
            forall|j: int|
                0 <= j < ex.len() ==> #[trigger] ex[j] == (
                    z.meta.extra.entries@[j].0@,
                    z.meta.extra.entries@[j].1@,
                ),
            inline_view(out@) == head + extra_fields(ex.take(i as int)),
        decreases z.meta.extra.entries@.len() - i,
    {
        proof {
            let t = ex.take(i + 1);
            assert(t.drop_last() =~= ex.take(i as int));
            assert(t.last() == ex[i as int]);
        }
        if let Some(value) = scalar(&z.meta.extra.entries[i].1) {
            let f = InlineField {
                key: text::copy(z.meta.extra.entries[i].0.as_str()),
                value,
                zone: Zone::Frontmatter,
            };
            let ghost before = out@;
            out.push(f);
            proof {
                let p = extra_fields(ex.take(i as int));
                assert(inline_view(out@) =~= inline_view(before).push(f@));
                assert((head + p).push(f@) =~= head + p.push(f@));
            }
        }
        i = i + 1;
    }
    proof {
        assert(ex.take(i as int) =~= ex);
    }
    out
}

fn alias_rows(extra: &TextMap<Value>) -> (r: Vec<String>)
    ensures
        texts(r@) == aliases_of(fields_view(*extra)),
{
    proof {
        lemma_fields_lookup(*extra, "aliases"@);
    }
    match extra.get("aliases") {
        Some(Value::List(l)) => crate::schema::pick_texts(l),
        _ => {
            let v: Vec<String> = Vec::new();
            proof {
                assert(texts(v@) =~= Seq::<Seq<char>>::empty());
            }
            v
        },
    }
}

fn attachment_of(id: &str, m: &TextMap<Value>) -> (r: AttachmentRow)
    ensures
        r@ == attachment_row(id@, fields_view(*m)),
{
    let name = blank_or(&crate::schema::read_text(m, "name"));
    let mime = blank_or(&crate::schema::read_text(m, "mime"));
    proof {
        lemma_fields_lookup(*m, "size"@);
    }
    let size: i64 = match m.get("size") {
        Some(Value::Number(n)) => n.as_i64,
        _ => 0,
    };
    let mut path = text::cat3("reference/", id, "/");
    path.append(name.as_str());
    AttachmentRow { name, mime, size, path }
}

fn attachment_list(id: &str, extra: &TextMap<Value>) -> (r: Vec<AttachmentRow>)
    ensures
        attachment_rows_view(r@) == attachments_of(id@, fields_view(*extra)),
{
    let mut out: Vec<AttachmentRow> = Vec::new();
    proof {
        lemma_fields_lookup(*extra, "attachments"@);
        assert(attachment_rows_view(out@) =~= Seq::<AttachmentRowView>::empty());
    }
    if let Some(Value::List(l)) = extra.get("attachments") {
        let ghost all = values_view(l@);
        let mut i: usize = 0;
        proof {
            lemma_values_view(l@);
            assert(all.take(0) =~= Seq::<ValueView>::empty());
        }
        while i < l.len()
            invariant
                i <= l@.len() == all.len(),
                forall|j: int| 0 <= j < all.len() ==> #[trigger] all[j] == l@[j]@,
                attachment_rows_view(out@) == attachment_rows(id@, all.take(i as int)),
            decreases l@.len() - i,
        {
            proof {
                let t = all.take(i + 1);
                assert(t.drop_last() =~= all.take(i as int));
                assert(t.last() == l@[i as int]@);
            }
            if let Value::Mapping(m) = &l[i] {
                let row = attachment_of(id, m);
                let ghost before = out@;
                out.push(row);
                proof {
                    assert(attachment_rows_view(out@) =~= attachment_rows_view(before).push(row@));
                }
            }
            i = i + 1;
        }
        proof {
            assert(all.take(i as int) =~= all);
        }
    }
    out
}

/// The rows that the index keeps for a note.
pub fn index_rows(zettel: &ParsedZettel) -> (r: IndexRows)
    ensures
        r@ == rows_of(zettel@),
{
    let id = match &zettel.meta.id {
        Some(id) => id.to_text(),
        None => {
            let s = String::new();
            proof {
                assert(s@ =~= Seq::<char>::empty());
            }
            s
        },
    };
    let attachments = attachment_list(id.as_str(), &zettel.meta.extra);
    IndexRows {
        id,
        title: blank_or(&zettel.meta.title),
        date: blank_or(&zettel.meta.date),
        zettel_type: blank_or(&zettel.meta.zettel_type),
        path: text::copy(zettel.path.as_str()),
        body: text::copy(zettel.body.as_str()),
        tags_text: text::join_all(&zettel.meta.tags, ", "),
        tags: text::copy_all(&zettel.meta.tags),
        fields: field_rows(zettel),
        links: copy_links(&zettel.wikilinks),
        aliases: alias_rows(&zettel.meta.extra),
        attachments,
    }
}

/// The name under which the index keeps a zone.
pub open spec fn zone_label_text(z: Zone) -> Seq<char> {
    match z {
        Zone::Frontmatter => "Frontmatter"@,
        Zone::Body => "Body"@,
        Zone::Reference => "Reference"@,
    }
}

pub fn zone_label(z: Zone) -> (r: &'static str)
    ensures
        r@ == zone_label_text(z),
{
    match z {
        Zone::Frontmatter => "Frontmatter",
        Zone::Body => "Body",
        Zone::Reference => "Reference",
    }
}

// ---------------------------------------------------------------------------
// Statements for typed tables
// ---------------------------------------------------------------------------
pub open spec fn name_sql(n: Seq<char>) -> Seq<char> {
    "\""@ + n + "\""@
}

/// The storage type of a data type; truth values are stored as integers.
pub open spec fn storage_type(data_type: Seq<char>) -> Seq<char> {
    let t = text::uppered(data_type);
    if t == "INTEGER"@ {
        "INTEGER"@
    } else if t == "REAL"@ {
        "REAL"@
    } else if t == "BOOLEAN"@ {
        "INTEGER"@
    } else {
        "TEXT"@
    }
}

pub open spec fn quoted_values(l: Seq<Seq<char>>) -> Seq<Seq<char>> {
    Seq::new(l.len(), |i: int| "'"@ + text::replaced(l[i], "'"@, "''"@) + "'"@)
}

pub open spec fn check_sql(c: ColumnView) -> Seq<char> {
    match c.allowed_values {
        Some(l) => " CHECK("@ + name_sql(c.name) + " IS NULL OR "@ + name_sql(c.name) + " IN ("@
            + join(quoted_values(l), ", "@) + "))"@,
        None => Seq::empty(),
    }
}

pub open spec fn column_sql(c: ColumnView) -> Seq<char> {
    name_sql(c.name) + " "@ + storage_type(c.data_type) + check_sql(c)
}

pub open spec fn column_sqls(cs: Seq<ColumnView>) -> Seq<Seq<char>> {
    seq!["id TEXT PRIMARY KEY"@] + Seq::new(cs.len(), |i: int| column_sql(cs[i]))
}

/// The statement that creates the table of a schema.
pub open spec fn create_sql(s: SchemaView, if_not_exists: bool) -> Seq<char> {
    (if if_not_exists {
        "CREATE TABLE IF NOT EXISTS "@
    } else {
        "CREATE TABLE "@
    }) + name_sql(s.table_name) + " ("@ + join(column_sqls(s.columns), ", "@) + ")"@
}

fn name_in_quotes(n: &str) -> (r: String)
    ensures
        r@ == name_sql(n@),
{
    text::cat3("\"", n, "\"")
}

fn storage(data_type: &str) -> (r: &'static str)
    ensures
        r@ == storage_type(data_type@),
{
    let t = text::to_upper(data_type);
    if text::same(t.as_str(), "INTEGER") {
        "INTEGER"
    } else if text::same(t.as_str(), "REAL") {
        "REAL"
    } else if text::same(t.as_str(), "BOOLEAN") {
        "INTEGER"
    } else {
        "TEXT"
    }
}

fn quote_values(l: &Vec<String>) -> (r: Vec<String>)
    ensures
        texts(r@) == quoted_values(texts(l@)),
{
    let mut out: Vec<String> = Vec::new();
    let ghost goal = quoted_values(texts(l@));
    let mut i: usize = 0;
    proof {
        reveal_strlit("'");
        assert(texts(out@) =~= goal.take(0));
    }
    while i < l.len()
        invariant
            i <= l@.len(),
            goal == quoted_values(texts(l@)),
            texts(out@) == goal.take(i as int),
            "'"@.len() == 1,
        decreases l@.len() - i,
    {
        let e = text::replace(l[i].as_str(), "'", "''");
        let q = text::cat3("'", e.as_str(), "'");
        proof {
            text::lemma_texts_push(out@, q);
            assert(goal.take(i + 1) =~= goal.take(i as int).push(goal[i as int]));
        }
        out.push(q);
        i = i + 1;
    }
    proof {
        assert(goal.take(i as int) =~= goal);
    }
    out
}

fn column_def(c: &ColumnDef) -> (r: String)
    ensures
        r@ == column_sql(c@),
{
    let name = name_in_quotes(c.name.as_str());
    let mut out = text::cat3(name.as_str(), " ", storage(c.data_type.as_str()));
    let ghost head = out@;
    match &c.allowed_values {
        Some(l) => {
            let q = quote_values(l);
            let j = text::join_all(&q, ", ");
            let mut check = text::cat3(" CHECK(", name.as_str(), " IS NULL OR ");
            check.append(name.as_str());
            check.append(" IN (");
            check.append(j.as_str());
            check.append("))");
            out.append(check.as_str());
        },
        None => {
            proof {
                assert(head + Seq::<char>::empty() =~= head);
            }
        },
    }
    out
}

/// The statement that creates the table of a schema.
pub fn create_table_sql(schema: &TableSchema, if_not_exists: bool) -> (r: String)
    ensures
        r@ == create_sql(schema@, if_not_exists),
{
    let mut defs: Vec<String> = Vec::new();
    defs.push(text::copy("id TEXT PRIMARY KEY"));
    let ghost goal = column_sqls(schema@.columns);
    let mut i: usize = 0;
    proof {
        assert(texts(defs@) =~= goal.take(1));
    }
    while i < schema.columns.len()
        invariant
            i <= schema.columns@.len(),
            goal == column_sqls(schema@.columns),
            texts(defs@) == goal.take(i + 1),
        decreases schema.columns@.len() - i,
    {
        let d = column_def(&schema.columns[i]);
        proof {
            text::lemma_texts_push(defs@, d);
            assert(goal[i + 1] == d@);
            assert(goal.take(i + 2) =~= goal.take(i + 1).push(goal[i + 1]));
        }
        defs.push(d);
        i = i + 1;
    }
    proof {
        assert(goal.take(i + 1) =~= goal);
    }
    let head = if if_not_exists {
        "CREATE TABLE IF NOT EXISTS "
    } else {
        "CREATE TABLE "
    };
    let name = name_in_quotes(schema.table_name.as_str());
    let j = text::join_all(&defs, ", ");
    let mut out = text::cat3(head, name.as_str(), " (");
    out.append(j.as_str());
    out.append(")");
    out
}

/// The statement that drops a table, if it is there.
pub fn drop_table_sql(table: &str) -> (r: String)
    ensures
        r@ == "DROP TABLE IF EXISTS "@ + name_sql(table@),
{
    let n = name_in_quotes(table);
    text::cat("DROP TABLE IF EXISTS ", n.as_str())
}

/// The statement that selects the identifiers of a table's rows by a condition.
pub open spec fn select_ids(table: Seq<char>, condition: Option<Seq<char>>) -> Seq<char> {
    let s = "SELECT id FROM "@ + name_sql(table);
    match condition {
        Some(c) => s + " WHERE "@ + c,
        None => s,
    }
}

pub fn select_ids_sql(table: &str, condition: Option<&str>) -> (r: String)
    ensures
        r@ == select_ids(
            table@,
            match condition {
                Some(c) => Some(c@),
                None => None,
            },
        ),
{
    let n = name_in_quotes(table);
    let mut r = text::cat("SELECT id FROM ", n.as_str());
    if let Some(c) = condition {
        r.append(" WHERE ");
        r.append(c);
    }
    r
}

/// The statement that deletes a row of a table.
pub fn delete_row_sql(table: &str) -> (r: String)
    ensures
        r@ == "DELETE FROM "@ + name_sql(table@) + " WHERE id = ?1"@,
{
    let n = name_in_quotes(table);
    text::cat3("DELETE FROM ", n.as_str(), " WHERE id = ?1")
}

pub open spec fn insert_names(cs: Seq<ColumnView>) -> Seq<Seq<char>> {
    seq!["id"@] + Seq::new(cs.len(), |i: int| name_sql(cs[i].name))
}

pub open spec fn placeholder(n: nat) -> Seq<char> {
    "?"@ + text::decimal(n)
}

pub open spec fn placeholders(n: nat) -> Seq<Seq<char>> {
    Seq::new(n, |i: int| placeholder((i + 1) as nat))
}

/// The statement that inserts a row into the table of a schema.
pub open spec fn insert_sql(s: SchemaView, or_replace: bool) -> Seq<char> {
    (if or_replace {
        "INSERT OR REPLACE INTO "@
    } else {
        "INSERT INTO "@
    }) + name_sql(s.table_name) + " ("@ + join(insert_names(s.columns), ", "@) + ") VALUES ("@
        + join(placeholders(s.columns.len() + 1), ", "@) + ")"@
}

fn mark(n: usize) -> (r: String)
    ensures
        r@ == placeholder(n as nat),
{
    let d = text::to_decimal(n as u64);
    text::cat("?", d.as_str())
}

pub fn insert_row_sql(schema: &TableSchema, or_replace: bool) -> (r: String)
    ensures
        r@ == insert_sql(schema@, or_replace),
{
    let ghost names_goal = insert_names(schema@.columns);
    let ghost marks_goal = placeholders(schema@.columns.len() + 1);
    let mut names: Vec<String> = Vec::new();
    let mut marks: Vec<String> = Vec::new();
    names.push(text::copy("id"));
    marks.push(mark(1));
    let mut i: usize = 0;
    proof {
        assert(texts(names@) =~= names_goal.take(1));
        assert(texts(marks@) =~= marks_goal.take(1));
    }
    while i < schema.columns.len()
        invariant
            i <= schema.columns@.len(),
            names_goal == insert_names(schema@.columns),
            marks_goal == placeholders(schema@.columns.len() + 1),
            names@.len() == i + 1,
            texts(names@) == names_goal.take(i + 1),
            texts(marks@) == marks_goal.take(i + 1),
        decreases schema.columns@.len() - i,
    {
        let n = name_in_quotes(schema.columns[i].name.as_str());
        proof {
            text::lemma_texts_push(names@, n);
            assert(names_goal[i + 1] == n@);
            assert(names_goal.take(i + 2) =~= names_goal.take(i + 1).push(names_goal[i + 1]));
        }
        names.push(n);
        let m = mark(names.len());
        proof {
            text::lemma_texts_push(marks@, m);
            assert(marks_goal[i + 1] == m@);
            assert(marks_goal.take(i + 2) =~= marks_goal.take(i + 1).push(marks_goal[i + 1]));
        }
        marks.push(m);
        i = i + 1;
    }
    proof {
        assert(names_goal.take(i + 1) =~= names_goal);
        assert(marks_goal.take(i + 1) =~= marks_goal);
    }
    let head = if or_replace {
        "INSERT OR REPLACE INTO "
    } else {
        "INSERT INTO "
    };
    let t = name_in_quotes(schema.table_name.as_str());
    let a = text::join_all(&names, ", ");
    let b = text::join_all(&marks, ", ");
    let mut out = text::cat3(head, t.as_str(), " (");
    out.append(a.as_str());
    out.append(") VALUES (");
    out.append(b.as_str());
    out.append(")");
    out
}

pub open spec fn or_null(s: Seq<char>) -> Option<Seq<char>> {
    if s.len() == 0 {
        None
    } else {
        Some(s)
    }
}

pub open spec fn opts_view(v: Seq<Option<String>>) -> Seq<Option<Seq<char>>> {
    Seq::new(v.len(), |i: int| opt_text(v[i]))
}

/// The values of a note's row: its identifier and its columns, empty ones null.
pub open spec fn note_values(id: Seq<char>, z: ZettelView, cs: Seq<ColumnView>) -> Seq<
    Option<Seq<char>>,
> {
    seq![Some(id)] + Seq::new(cs.len(), |i: int| or_null(cell(z, cs[i])))
}

fn null_or(s: String) -> (r: Option<String>)
    ensures
        opt_text(r) == or_null(s@),
{
    if s.as_str().is_empty() {
        None
    } else {
        Some(s)
    }
}

/// The values of the row that a note holds.
pub fn materialized_values(schema: &TableSchema, id: &str, zettel: &ParsedZettel) -> (r: Vec<
    Option<String>,
>)
    ensures
        opts_view(r@) == note_values(id@, zettel@, schema@.columns),
{
    let ghost goal = note_values(id@, zettel@, schema@.columns);
    let mut out: Vec<Option<String>> = Vec::new();
    out.push(Some(text::copy(id)));
    let mut i: usize = 0;
    proof {
        assert(opts_view(out@) =~= goal.take(1));
    }
    while i < schema.columns.len()
        invariant
            i <= schema.columns@.len(),
            goal == note_values(id@, zettel@, schema@.columns),
            opts_view(out@) == goal.take(i + 1),
        decreases schema.columns@.len() - i,
    {
        let v = null_or(extract_column_value(zettel, &schema.columns[i]));
        let ghost before = out@;
        out.push(v);
        proof {
            assert(goal[i + 1] == opt_text(v));
            assert(opts_view(out@) =~= opts_view(before).push(opt_text(v)));
            assert(goal.take(i + 2) =~= goal.take(i + 1).push(goal[i + 1]));
        }
        i = i + 1;
    }
    proof {
        assert(goal.take(i + 1) =~= goal);
    }
    out
}

/// The values of a row given by column: its identifier and its columns.
pub open spec fn cell_values(id: Seq<char>, cells: Cells, cs: Seq<ColumnView>) -> Seq<
    Option<Seq<char>>,
> {
    seq![Some(id)] + Seq::new(
        cs.len(),
        |i: int|
            match lookup(cells, cs[i].name) {
                Some(v) => or_null(v),
                None => None,
            },
    )
}

pub fn inserted_values(schema: &TableSchema, id: &str, col_values: &TextMap<String>) -> (r: Vec<
    Option<String>,
>)
    ensures
        opts_view(r@) == cell_values(id@, mapped(col_values@), schema@.columns),
{
    let ghost goal = cell_values(id@, mapped(col_values@), schema@.columns);
    let mut out: Vec<Option<String>> = Vec::new();
    out.push(Some(text::copy(id)));
    let mut i: usize = 0;
    proof {
        assert(opts_view(out@) =~= goal.take(1));
    }
    while i < schema.columns.len()
        invariant
            i <= schema.columns@.len(),
            goal == cell_values(id@, mapped(col_values@), schema@.columns),
            opts_view(out@) == goal.take(i + 1),
        decreases schema.columns@.len() - i,
    {
        let name = schema.columns[i].name.as_str();
        proof {
            textmap::lemma_mapped(col_values@, name@);
            assert(schema@.columns[i as int].name == name@);
        }
        let v = match col_values.get(name) {
            Some(s) => null_or(text::copy(s.as_str())),
            None => None,
        };
        let ghost before = out@;
        out.push(v);
        proof {
            assert(goal[i + 1] == opt_text(v));
            assert(opts_view(out@) =~= opts_view(before).push(opt_text(v)));
            assert(goal.take(i + 2) =~= goal.take(i + 1).push(goal[i + 1]));
        }
        i = i + 1;
    }
    proof {
        assert(goal.take(i + 1) =~= goal);
    }
    out
}

/// The updates that name a column, in order.
pub open spec fn known_updates(cs: Seq<ColumnView>, u: Cells) -> Cells
    decreases u.len(),
{
    if u.len() == 0 {
        u
    } else if find_column(cs, u.last().0) is Some {
        known_updates(cs, u.drop_last()).push(u.last())
    } else {
        known_updates(cs, u.drop_last())
    }
}

pub open spec fn set_clauses(u: Cells) -> Seq<Seq<char>> {
    Seq::new(u.len(), |i: int| name_sql(u[i].0) + " = "@ + placeholder((i + 1) as nat))
}

pub open spec fn cell_texts(u: Cells) -> Seq<Seq<char>> {
    Seq::new(u.len(), |i: int| u[i].1)
}

/// The statement that updates a row, and its values; none where no column is
/// updated.
pub open spec fn update_statement(s: SchemaView, id: Seq<char>, updates: Cells) -> Option<
    (Seq<char>, Seq<Seq<char>>),
> {
    let u = known_updates(s.columns, updates);
    if u.len() == 0 {
        None
    } else {
        Some(
            (
                "UPDATE "@ + name_sql(s.table_name) + " SET "@ + join(set_clauses(u), ", "@)
                    + " WHERE id = "@ + placeholder(u.len() + 1),
                cell_texts(u).push(id),
            ),
        )
    }
}

pub fn update_row_sql(schema: &TableSchema, id: &str, updates: &TextMap<String>) -> (r: Option<
    (String, Vec<String>),
>)
    ensures
        match r {
            Some((sql, vals)) => update_statement(schema@, id@, mapped(updates@)) == Some(
                (sql@, texts(vals@)),
            ),
            None => update_statement(schema@, id@, mapped(updates@)) is None,
        },
{
    let ghost cs = schema@.columns;
    let ghost all = mapped(updates@);
    let mut clauses: Vec<String> = Vec::new();
    let mut vals: Vec<String> = Vec::new();
    let mut i: usize = 0;
    proof {
        assert(all.take(0) =~= Seq::<(Seq<char>, Seq<char>)>::empty());
        assert(texts(clauses@) =~= set_clauses(known_updates(cs, all.take(0))));
        assert(texts(vals@) =~= cell_texts(known_updates(cs, all.take(0))));
    }
    while i < updates.entries.len()
        invariant
            i <= updates.entries@.len() == all.len(),
            all == mapped(updates@),
            cs == columns_view(schema.columns@),
            texts(clauses@) == set_clauses(known_updates(cs, all.take(i as int))),
            texts(vals@) == cell_texts(known_updates(cs, all.take(i as int))),
        decreases updates.entries@.len() - i,
    {
        let name = updates.entries[i].0.as_str();
        let ghost u = known_updates(cs, all.take(i as int));
        proof {
            let t = all.take(i + 1);
            assert(t.drop_last() =~= all.take(i as int));
            assert(t.last() == (updates.entries@[i as int].0@, updates.entries@[i as int].1@));
        }
        if seek_column(&schema.columns, name).is_some() {
            let v = text::copy(updates.entries[i].1.as_str());
            let ghost w = u.push((name@, v@));
            proof {
                text::lemma_texts_push(vals@, v);
                assert(cell_texts(w) =~= cell_texts(u).push(v@));
            }
            vals.push(v);
            let n = name_in_quotes(name);
            let m = mark(vals.len());
            let c = text::cat3(n.as_str(), " = ", m.as_str());
            proof {
                assert(vals@.len() == texts(vals@).len());
                text::lemma_texts_push(clauses@, c);
                assert(set_clauses(w) =~= set_clauses(u).push(c@));
            }
            clauses.push(c);
        }
        i = i + 1;
    }
    proof {
        assert(all.take(i as int) =~= all);
        assert(texts(clauses@).len() == clauses@.len());
    }
    if clauses.len() == 0 {
        return None;
    }
    let last = text::copy(id);
    proof {
        text::lemma_texts_push(vals@, last);
        assert(texts(vals@).len() == vals@.len());
    }
    vals.push(last);
    let t = name_in_quotes(schema.table_name.as_str());
    let j = text::join_all(&clauses, ", ");
    let m = mark(vals.len());
    let mut sql = text::cat3("UPDATE ", t.as_str(), " SET ");
    sql.append(j.as_str());
    sql.append(" WHERE id = ");
    sql.append(m.as_str());
    Some((sql, vals))
}

// ---------------------------------------------------------------------------
// Which tables there are
// ---------------------------------------------------------------------------
/// The schemas of the types that have notes, each merged with the one given for
/// it; one without columns is left out.
pub open spec fn typed_schemas(
    inferred: Seq<SchemaView>,
    given: Seq<(Seq<char>, SchemaView)>,
) -> Seq<SchemaView>
    decreases inferred.len(),
{
    if inferred.len() == 0 {
        Seq::empty()
    } else {
        let p = typed_schemas(inferred.drop_last(), given);
        let s = inferred.last();
        let m = merged_schema(lookup(given, s.table_name), s);
        if m.columns.len() == 0 {
            p
        } else {
            p.push(m)
        }
    }
}

/// The types among them that no schema is given for.
pub open spec fn inferred_types(
    inferred: Seq<SchemaView>,
    given: Seq<(Seq<char>, SchemaView)>,
) -> Seq<Seq<char>>
    decreases inferred.len(),
{
    if inferred.len() == 0 {
        Seq::empty()
    } else {
        let p = inferred_types(inferred.drop_last(), given);
        let s = inferred.last();
        if lookup(given, s.table_name) is None && s.columns.len() > 0 {
            p.push(s.table_name)
        } else {
            p
        }
    }
}

pub open spec fn has_type(inferred: Seq<SchemaView>, t: Seq<char>) -> bool {
    exists|i: int| 0 <= i < inferred.len() && (#[trigger] inferred[i]).table_name == t
}

/// The given schemas of types that have no notes.
pub open spec fn unused_schemas(
    inferred: Seq<SchemaView>,
    given: Seq<(Seq<char>, SchemaView)>,
) -> Seq<SchemaView>
    decreases given.len(),
{
    if given.len() == 0 {
        Seq::empty()
    } else {
        let p = unused_schemas(inferred, given.drop_last());
        let g = given.last();
        if !has_type(inferred, g.0) && g.1.columns.len() > 0 {
            p.push(g.1)
        } else {
            p
        }
    }
}

pub open spec fn schemas_view(s: Seq<TableSchema>) -> Seq<SchemaView> {
    Seq::new(s.len(), |i: int| s[i]@)
}

/// The tables to make: those of the types with notes, to be filled; those of
/// the types without, to stay empty; and the names of the types that only the
/// notes suggest.
#[derive(Debug)]
pub struct TablePlan {
    pub filled: Vec<TableSchema>,
    pub empty: Vec<TableSchema>,
    pub inferred: Vec<String>,
}

fn push_schema(out: &mut Vec<TableSchema>, s: TableSchema)
    ensures
        schemas_view(final(out)@) == schemas_view(old(out)@).push(s@),
{
    let ghost before = out@;
    out.push(s);
    proof {
        assert(schemas_view(out@) =~= schemas_view(before).push(s@));
    }
}

fn is_typed(inferred: &Vec<TableSchema>, t: &str) -> (r: bool)
    ensures
        r == has_type(schemas_view(inferred@), t@),
{
    let ghost all = schemas_view(inferred@);
    let mut i: usize = 0;
    while i < inferred.len()
        invariant
            i <= inferred@.len(),
            all == schemas_view(inferred@),
            forall|j: int| 0 <= j < i ==> (#[trigger] all[j]).table_name != t@,
        decreases inferred@.len() - i,
    {
        proof {
            assert(all[i as int] == inferred@[i as int]@);
        }
        if text::same(inferred[i].table_name.as_str(), t) {
            return true;
        }
        i = i + 1;
    }
    false
}

/// Plans the tables from the schema inferred for each type that has notes, and
/// the schemas given by name.
pub fn plan_tables(inferred: &Vec<TableSchema>, given: &TextMap<TableSchema>) -> (r: TablePlan)
    ensures
        schemas_view(r.filled@) == typed_schemas(schemas_view(inferred@), mapped(given@)),
        schemas_view(r.empty@) == unused_schemas(schemas_view(inferred@), mapped(given@)),
        texts(r.inferred@) == inferred_types(schemas_view(inferred@), mapped(given@)),
{
    let ghost iv = schemas_view(inferred@);
    let ghost gv = mapped(given@);
    let mut filled: Vec<TableSchema> = Vec::new();
    let mut names: Vec<String> = Vec::new();
    let mut i: usize = 0;
    proof {
        assert(iv.take(0) =~= Seq::<SchemaView>::empty());
        assert(schemas_view(filled@) =~= Seq::<SchemaView>::empty());
        assert(texts(names@) =~= Seq::<Seq<char>>::empty());
    }
    while i < inferred.len()
        invariant
            i <= inferred@.len(),
            iv == schemas_view(inferred@),
            gv == mapped(given@),
            schemas_view(filled@) == typed_schemas(iv.take(i as int), gv),
            texts(names@) == inferred_types(iv.take(i as int), gv),
        decreases inferred@.len() - i,
    {
        let t = inferred[i].table_name.as_str();
        proof {
            let p = iv.take(i + 1);
            assert(p.drop_last() =~= iv.take(i as int));
            assert(p.last() == inferred@[i as int]@);
            textmap::lemma_mapped(given@, t@);
        }
        let g = match given.get(t) {
            Some(s) => Some(s.copy()),
            None => None,
        };
        let is_given = g.is_some();
        let m = merge_schemas(g, inferred[i].copy());
        proof {
            assert(m.columns@.len() == m@.columns.len());
            assert(inferred@[i as int]@.columns.len() == inferred@[i as int].columns@.len());
        }
        if m.columns.len() > 0 {
            push_schema(&mut filled, m);
        }
        if !is_given && inferred[i].columns.len() > 0 {
            let n = text::copy(t);
            proof {
                text::lemma_texts_push(names@, n);
            }
            names.push(n);
        }
        i = i + 1;
    }
    let mut empty: Vec<TableSchema> = Vec::new();
    let mut k: usize = 0;
    proof {
        assert(iv.take(i as int) =~= iv);
        assert(gv.take(0) =~= Seq::<(Seq<char>, SchemaView)>::empty());
        assert(schemas_view(empty@) =~= Seq::<SchemaView>::empty());
    }
    while k < given.entries.len()
        invariant
            k <= given.entries@.len() == gv.len(),
            iv == schemas_view(inferred@),
            gv == mapped(given@),
            schemas_view(empty@) == unused_schemas(iv, gv.take(k as int)),
        decreases given.entries@.len() - k,
    {
        proof {
            let p = gv.take(k + 1);
            assert(p.drop_last() =~= gv.take(k as int));
            assert(p.last() == (given.entries@[k as int].0@, given.entries@[k as int].1@));
            assert(given.entries@[k as int].1@.columns.len()
                == given.entries@[k as int].1.columns@.len());
        }
        if !is_typed(inferred, given.entries[k].0.as_str()) && given.entries[k].1.columns.len() > 0 {
            push_schema(&mut empty, given.entries[k].1.copy());
        }
        k = k + 1;
    }
    proof {
        assert(gv.take(k as int) =~= gv);
    }
    TablePlan { filled, empty, inferred: names }
}

// ---------------------------------------------------------------------------
// What to index again
// ---------------------------------------------------------------------------
/// How the index has to be brought up to date.
#[derive(Debug, Clone)]
pub enum Refresh {
    UpToDate,
    Full,
    Since(String),
}

/// Whether the index is older than the head of the repository.
pub fn is_stale(stored: &Option<String>, head: &str) -> (r: bool)
    ensures
        r == (opt_text(*stored) != Some(head@)),
{
    match stored {
        Some(s) => !text::same(s.as_str(), head),
        None => true,
    }
}

/// Decides how to refresh the index: a broken one is rebuilt, one of another
/// head is brought up from there, one that knows no head is rebuilt.
pub fn plan_refresh(corrupt: bool, stored: &Option<String>, head: &str) -> (r: Refresh)
    ensures
        match r {
            Refresh::Full => corrupt || *stored is None,
            Refresh::UpToDate => !corrupt && opt_text(*stored) == Some(head@),
            Refresh::Since(h) => !corrupt && opt_text(*stored) == Some(h@) && h@ != head@,
        },
{
    if corrupt {
        return Refresh::Full;
    }
    match stored {
        Some(s) => if text::same(s.as_str(), head) {
            Refresh::UpToDate
        } else {
            Refresh::Since(text::copy(s.as_str()))
        },
        None => Refresh::Full,
    }
}

/// What to do about a file that changed.
#[derive(Debug, Clone)]
pub enum Step {
    Index(String),
    Remove(String),
    Skip,
}

pub enum StepView {
    Index(Seq<char>),
    Remove(Seq<char>),
    Skip,
}

impl View for Step {
    type V = StepView;

    open spec fn view(&self) -> StepView {
        match *self {
            Step::Index(p) => StepView::Index(p@),
            Step::Remove(id) => StepView::Remove(id@),
            Step::Skip => StepView::Skip,
        }
    }
}

pub open spec fn step_of(kind: DiffKind, path: Seq<char>) -> StepView {
    match kind {
        DiffKind::Deleted => match file_stem(path) {
            Some(id) => StepView::Remove(id),
            None => StepView::Skip,
        },
        _ => StepView::Index(path),
    }
}

pub open spec fn changes_view(s: Seq<(DiffKind, String)>) -> Seq<(DiffKind, Seq<char>)> {
    Seq::new(s.len(), |i: int| (s[i].0, s[i].1@))
}

pub open spec fn steps_view(s: Seq<Step>) -> Seq<StepView> {
    Seq::new(s.len(), |i: int| s[i]@)
}

pub open spec fn steps_of(s: Seq<(DiffKind, Seq<char>)>) -> Seq<StepView> {
    Seq::new(s.len(), |i: int| step_of(s[i].0, s[i].1))
}

/// Whether a change touches a schema.
pub open spec fn touches_schema(s: Seq<(DiffKind, Seq<char>)>) -> bool {
    exists|i: int| 0 <= i < s.len() && text::has_part(#[trigger] s[i].1, "_typedef/"@)
}

/// Plans what to do about changed files, one step for each: a file that is
/// there is indexed, of one that is gone the note is removed. Where a schema
/// changed, all tables have to be made again.
pub fn plan_reindex(changes: &Vec<(DiffKind, String)>) -> (r: (Vec<Step>, bool))
    ensures
        steps_view(r.0@) == steps_of(changes_view(changes@)),
        r.1 == touches_schema(changes_view(changes@)),
{
    let ghost all = changes_view(changes@);
    let ghost goal = steps_of(all);
    let mut out: Vec<Step> = Vec::new();
    let mut typedef_changed = false;
    let mut i: usize = 0;
    while i < changes.len()
        invariant
            i <= changes@.len(),
            all == changes_view(changes@),
            goal == steps_of(all),
            out@.len() == i,
            forall|j: int| 0 <= j < i ==> (#[trigger] out@[j])@ == goal[j],
            typedef_changed == exists|j: int|
                0 <= j < i && text::has_part(#[trigger] all[j].1, "_typedef/"@),
        decreases changes@.len() - i,
    {
        let path = changes[i].1.as_str();
        proof {
            assert(all[i as int] == (changes@[i as int].0, path@));
        }
        if text::contains_part(path, "_typedef/") {
            typedef_changed = true;
        }
        let step = match changes[i].0 {
            DiffKind::Deleted => match extract_id_from_path(path) {
                Some(id) => Step::Remove(id),
                None => Step::Skip,
            },
            _ => Step::Index(text::copy(path)),
        };
        proof {
            assert(step@ == goal[i as int]);
        }
        out.push(step);
        i = i + 1;
    }
    proof {
        assert(steps_view(out@) =~= goal);
    }
    (out, typedef_changed)
}

/// The files of a source, all of which were read.
pub open spec fn read_files(s: Seq<(String, String)>) -> Seq<(Seq<char>, Option<Seq<char>>)> {
    Seq::new(s.len(), |i: int| (s[i].0@, Some(s[i].1@)))
}

/// The notes that a rebuild indexes, from the paths and the texts of the files.
/// One that does not parse gives a warning and is passed over: it does not keep
/// the others from being indexed.
pub fn rebuild(files: &Vec<(String, String)>) -> (r: Vec<ParsedZettel>)
    ensures
        notes_view(r@) == readable(read_files(files@)),
{
    let ghost all = read_files(files@);
    let mut out: Vec<ParsedZettel> = Vec::new();
    let mut i: usize = 0;
    proof {
        assert(notes_view(out@) =~= readable(all.take(0)));
    }
    while i < files.len()
        invariant
            i <= files@.len(),
            all == read_files(files@),
            notes_view(out@) == readable(all.take(i as int)),
        decreases files@.len() - i,
    {
        let ghost before = out@;
        proof {
            assert(all.take(i + 1).drop_last() =~= all.take(i as int));
            assert(all.take(i + 1).last() == all[i as int]);
        }
        match parse(files[i].1.as_str(), files[i].0.as_str()) {
            Ok(z) => {
                out.push(z);
                proof {
                    assert(notes_view(out@) =~= notes_view(before).push(z@));
                }
            },
            Err(_) => {},
        }
        i = i + 1;
    }
    proof {
        assert(all.take(i as int) =~= all);
    }
    out
}

/// Decides where a link leads: to the note of that identifier, to the note at
/// that path, or to the note of that alias.
pub fn resolve_link(
    target: &str,
    path_of_id: Option<String>,
    is_path: bool,
    path_of_alias: Option<String>,
) -> (r: Option<String>)
    ensures
        opt_text(r) == if path_of_id is Some {
            opt_text(path_of_id)
        } else if is_path {
            Some(target@)
        } else {
            opt_text(path_of_alias)
        },
{
    if path_of_id.is_some() {
        return path_of_id;
    }
    if is_path {
        return Some(text::copy(target));
    }
    path_of_alias
}

} // verus!
