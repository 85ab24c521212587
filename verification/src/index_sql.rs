//! The statements that put a note into the index and take it out, and whether
//! the index is whole.
use crate::index_plan::{
    index_rows, rows_of, zone_label, zone_label_text, AttachmentRow, AttachmentRowView, IndexRows,
    RowsView,
};
use crate::text::{self, texts};
use crate::types::{FieldView, InlineField, LinkView, ParsedZettel, WikiLink};
use vstd::prelude::*;

verus! {

broadcast use vstd::string::group_string_axioms;

pub const DROP_SEARCH: &'static str =
    "DELETE FROM _zdb_fts WHERE rowid = (SELECT rowid FROM zettels WHERE id = ?1)";

pub const PUT_NOTE: &'static str =
    "INSERT OR REPLACE INTO zettels (id, title, date, type, path, body, updated_at) VALUES (?1, ?2, ?3, ?4, ?5, ?6, ?7)";

pub const DROP_NOTE: &'static str = "DELETE FROM zettels WHERE id = ?1";

pub const DROP_TAGS: &'static str = "DELETE FROM _zdb_tags WHERE zettel_id = ?1";

pub const DROP_FIELDS: &'static str = "DELETE FROM _zdb_fields WHERE zettel_id = ?1";

pub const DROP_LINKS: &'static str = "DELETE FROM _zdb_links WHERE source_id = ?1";

pub const DROP_ALIASES: &'static str = "DELETE FROM _zdb_aliases WHERE zettel_id = ?1";

pub const DROP_ATTACHMENTS: &'static str = "DELETE FROM _zdb_attachments WHERE zettel_id = ?1";

pub const PUT_TAG: &'static str = "INSERT INTO _zdb_tags (zettel_id, tag) VALUES (?1, ?2)";

pub const PUT_FIELD: &'static str =
    "INSERT INTO _zdb_fields (zettel_id, key, value, zone) VALUES (?1, ?2, ?3, ?4)";

pub const PUT_LINK: &'static str =
    "INSERT INTO _zdb_links (source_id, target_path, display, zone) VALUES (?1, ?2, ?3, ?4)";

pub const PUT_ALIAS: &'static str = "INSERT INTO _zdb_aliases (zettel_id, alias) VALUES (?1, ?2)";

pub const PUT_ATTACHMENT: &'static str =
    "INSERT INTO _zdb_attachments (zettel_id, name, mime, size, path) VALUES (?1, ?2, ?3, ?4, ?5)";

pub const PUT_SEARCH: &'static str =
    "INSERT INTO _zdb_fts (rowid, title, body, tags) VALUES ((SELECT rowid FROM zettels WHERE id = ?1), ?2, ?3, ?4)";

/// A value for a place in a statement.
#[derive(Debug, Clone)]
pub enum Bound {
    Null,
    Text(String),
    Whole(i64),
}

pub enum BoundView {
    Null,
    Text(Seq<char>),
    Whole(i64),
}

impl View for Bound {
    type V = BoundView;

    open spec fn view(&self) -> BoundView {
        match *self {
            Bound::Null => BoundView::Null,
            Bound::Text(s) => BoundView::Text(s@),
            Bound::Whole(n) => BoundView::Whole(n),
        }
    }
}

pub open spec fn bounds_view(s: Seq<Bound>) -> Seq<BoundView> {
    Seq::new(s.len(), |i: int| s[i]@)
}

/// A statement with the values for its places.
#[derive(Debug, Clone)]
pub struct Statement {
    pub sql: &'static str,
    pub values: Vec<Bound>,
}

pub struct StatementView {
    pub sql: Seq<char>,
    pub values: Seq<BoundView>,
}

impl View for Statement {
    type V = StatementView;

    open spec fn view(&self) -> StatementView {
        StatementView { sql: self.sql@, values: bounds_view(self.values@) }
    }
}

pub open spec fn statements_view(s: Seq<Statement>) -> Seq<StatementView> {
    Seq::new(s.len(), |i: int| s[i]@)
}

pub open spec fn text_values(v: Seq<Seq<char>>) -> Seq<BoundView> {
    Seq::new(v.len(), |i: int| BoundView::Text(v[i]))
}

/// A statement whose values are texts.
pub open spec fn with_texts(sql: Seq<char>, v: Seq<Seq<char>>) -> StatementView {
    StatementView { sql, values: text_values(v) }
}

/// The statements that remove what goes with a note.
pub open spec fn cleared(id: Seq<char>) -> Seq<StatementView> {
    seq![
        with_texts(DROP_TAGS@, seq![id]),
        with_texts(DROP_FIELDS@, seq![id]),
        with_texts(DROP_LINKS@, seq![id]),
        with_texts(DROP_ALIASES@, seq![id]),
    ]
}

pub open spec fn tag_statements(id: Seq<char>, tags: Seq<Seq<char>>) -> Seq<StatementView> {
    Seq::new(tags.len(), |i: int| with_texts(PUT_TAG@, seq![id, tags[i]]))
}

pub open spec fn alias_statements(id: Seq<char>, names: Seq<Seq<char>>) -> Seq<StatementView> {
    Seq::new(names.len(), |i: int| with_texts(PUT_ALIAS@, seq![id, names[i]]))
}

pub open spec fn field_statement(id: Seq<char>, f: FieldView) -> StatementView {
    with_texts(PUT_FIELD@, seq![id, f.key, f.value, zone_label_text(f.zone)])
}

pub open spec fn field_statements(id: Seq<char>, fs: Seq<FieldView>) -> Seq<StatementView> {
    Seq::new(fs.len(), |i: int| field_statement(id, fs[i]))
}

pub open spec fn link_statement(id: Seq<char>, l: LinkView) -> StatementView {
    StatementView {
        sql: PUT_LINK@,
        values: seq![
            BoundView::Text(id),
            BoundView::Text(l.target),
            match l.display {
                Some(s) => BoundView::Text(s),
                None => BoundView::Null,
            },
            BoundView::Text(zone_label_text(l.zone)),
        ],
    }
}

pub open spec fn link_statements(id: Seq<char>, ls: Seq<LinkView>) -> Seq<StatementView> {
    Seq::new(ls.len(), |i: int| link_statement(id, ls[i]))
}

pub open spec fn attachment_statement(id: Seq<char>, a: AttachmentRowView) -> StatementView {
    StatementView {
        sql: PUT_ATTACHMENT@,
        values: seq![
            BoundView::Text(id),
            BoundView::Text(a.name),
            BoundView::Text(a.mime),
            BoundView::Whole(a.size),
            BoundView::Text(a.path),
        ],
    }
}

pub open spec fn attachment_statements(id: Seq<char>, l: Seq<AttachmentRowView>) -> Seq<
    StatementView,
> {
    Seq::new(l.len(), |i: int| attachment_statement(id, l[i]))
}

/// The statements that put the rows of a note into the index, in place of those
/// that were there. `present` says whether the note was indexed already, `now`
/// is the time that is noted.
pub open spec fn note_statements(r: RowsView, present: bool, now: Seq<char>) -> Seq<
    StatementView,
> {
    let before = if present {
        seq![with_texts(DROP_SEARCH@, seq![r.id])]
    } else {
        Seq::empty()
    };
    before.push(
        with_texts(
            PUT_NOTE@,
            seq![r.id, r.title, r.date, r.zettel_type, r.path, r.body, now],
        ),
    ) + cleared(r.id) + tag_statements(r.id, r.tags) + field_statements(r.id, r.fields)
        + link_statements(r.id, r.links) + alias_statements(r.id, r.aliases).push(
        with_texts(DROP_ATTACHMENTS@, seq![r.id]),
    ) + attachment_statements(r.id, r.attachments).push(
        with_texts(PUT_SEARCH@, seq![r.id, r.title, r.body, r.tags_text]),
    )
}

fn add_statement(out: &mut Vec<Statement>, s: Statement)
    ensures
        statements_view(final(out)@) == statements_view(old(out)@).push(s@),
{
    let ghost before = out@;
    out.push(s);
    proof {
        assert(statements_view(out@) =~= statements_view(before).push(s@));
    }
}

fn bound(s: &str) -> (r: Bound)
    ensures
        r@ == BoundView::Text(s@),
{
    Bound::Text(text::copy(s))
}

fn one_text(sql: &'static str, a: &str) -> (r: Statement)
    ensures
        r@ == with_texts(sql@, seq![a@]),
{
    let mut values: Vec<Bound> = Vec::new();
    values.push(bound(a));
    proof {
        assert(bounds_view(values@) =~= text_values(seq![a@]));
    }
    Statement { sql, values }
}

fn two_texts(sql: &'static str, a: &str, b: &str) -> (r: Statement)
    ensures
        r@ == with_texts(sql@, seq![a@, b@]),
{
    let mut values: Vec<Bound> = Vec::new();
    values.push(bound(a));
    values.push(bound(b));
    proof {
        assert(bounds_view(values@) =~= text_values(seq![a@, b@]));
    }
    Statement { sql, values }
}

fn four_texts(sql: &'static str, a: &str, b: &str, c: &str, d: &str) -> (r: Statement)
    ensures
        r@ == with_texts(sql@, seq![a@, b@, c@, d@]),
{
    let mut values: Vec<Bound> = Vec::new();
    values.push(bound(a));
    values.push(bound(b));
    values.push(bound(c));
    values.push(bound(d));
    proof {
        assert(bounds_view(values@) =~= text_values(seq![a@, b@, c@, d@]));
    }
    Statement { sql, values }
}

fn put_note(r: &IndexRows, now: &str) -> (s: Statement)
    ensures
        s@ == with_texts(
            PUT_NOTE@,
            seq![r@.id, r@.title, r@.date, r@.zettel_type, r@.path, r@.body, now@],
        ),
{
    let mut values: Vec<Bound> = Vec::new();
    values.push(bound(r.id.as_str()));
    values.push(bound(r.title.as_str()));
    values.push(bound(r.date.as_str()));
    values.push(bound(r.zettel_type.as_str()));
    values.push(bound(r.path.as_str()));
    values.push(bound(r.body.as_str()));
    values.push(bound(now));
    proof {
        assert(bounds_view(values@) =~= text_values(
            seq![r@.id, r@.title, r@.date, r@.zettel_type, r@.path, r@.body, now@],
        ));
    }
    Statement { sql: PUT_NOTE, values }
}

fn put_link(id: &str, l: &WikiLink) -> (s: Statement)
    ensures
        s@ == link_statement(id@, l@),
{
    let display = match &l.display {
        Some(d) => bound(d.as_str()),
        None => Bound::Null,
    };
    let mut values: Vec<Bound> = Vec::new();
    values.push(bound(id));
    values.push(bound(l.target.as_str()));
    values.push(display);
    values.push(bound(zone_label(l.zone)));
    proof {
        assert(bounds_view(values@) =~= link_statement(id@, l@).values);
    }
    Statement { sql: PUT_LINK, values }
}

fn put_attachment(id: &str, a: &AttachmentRow) -> (s: Statement)
    ensures
        s@ == attachment_statement(id@, a@),
{
    let mut values: Vec<Bound> = Vec::new();
    values.push(bound(id));
    values.push(bound(a.name.as_str()));
    values.push(bound(a.mime.as_str()));
    values.push(Bound::Whole(a.size));
    values.push(bound(a.path.as_str()));
    proof {
        assert(bounds_view(values@) =~= attachment_statement(id@, a@).values);
    }
    Statement { sql: PUT_ATTACHMENT, values }
}

fn clear_note(out: &mut Vec<Statement>, id: &str)
    ensures
        statements_view(final(out)@) == statements_view(old(out)@) + cleared(id@),
{
    let ghost before = statements_view(out@);
    add_statement(out, one_text(DROP_TAGS, id));
    add_statement(out, one_text(DROP_FIELDS, id));
    add_statement(out, one_text(DROP_LINKS, id));
    add_statement(out, one_text(DROP_ALIASES, id));
    proof {
        assert(statements_view(out@) =~= before + cleared(id@));
    }
}

fn add_tags(out: &mut Vec<Statement>, id: &str, tags: &Vec<String>)
    ensures
        statements_view(final(out)@) == statements_view(old(out)@) + tag_statements(
            id@,
            texts(tags@),
        ),
{
    let ghost before = statements_view(out@);
    let ghost all = tag_statements(id@, texts(tags@));
    let mut i: usize = 0;
    proof {
        assert(statements_view(out@) =~= before + all.take(0));
    }
    while i < tags.len()
        invariant
            i <= tags@.len(),
            all == tag_statements(id@, texts(tags@)),
            statements_view(out@) == before + all.take(i as int),
        decreases tags@.len() - i,
    {
        add_statement(out, two_texts(PUT_TAG, id, tags[i].as_str()));
        proof {
            assert(before + all.take(i + 1) =~= (before + all.take(i as int)).push(
                all[i as int],
            ));
        }
        i = i + 1;
    }
    proof {
        assert(all.take(i as int) =~= all);
    }
}

fn add_aliases(out: &mut Vec<Statement>, id: &str, names: &Vec<String>)
    ensures
        statements_view(final(out)@) == statements_view(old(out)@) + alias_statements(
            id@,
            texts(names@),
        ),
{
    let ghost before = statements_view(out@);
    let ghost all = alias_statements(id@, texts(names@));
    let mut i: usize = 0;
    proof {
        assert(statements_view(out@) =~= before + all.take(0));
    }
    while i < names.len()
        invariant
            i <= names@.len(),
            all == alias_statements(id@, texts(names@)),
            statements_view(out@) == before + all.take(i as int),
        decreases names@.len() - i,
    {
        add_statement(out, two_texts(PUT_ALIAS, id, names[i].as_str()));
        proof {
            assert(before + all.take(i + 1) =~= (before + all.take(i as int)).push(
                all[i as int],
            ));
        }
        i = i + 1;
    }
    proof {
        assert(all.take(i as int) =~= all);
    }
}

fn add_fields(out: &mut Vec<Statement>, id: &str, fields: &Vec<InlineField>)
    ensures
        statements_view(final(out)@) == statements_view(old(out)@) + field_statements(
            id@,
            crate::types::inline_view(fields@),
        ),
{
    let ghost before = statements_view(out@);
    let ghost all = field_statements(id@, crate::types::inline_view(fields@));
    let mut i: usize = 0;
    proof {
        assert(statements_view(out@) =~= before + all.take(0));
    }
    while i < fields.len()
        invariant
            i <= fields@.len(),
            all == field_statements(id@, crate::types::inline_view(fields@)),
            statements_view(out@) == before + all.take(i as int),
        decreases fields@.len() - i,
    {
        let f = &fields[i];
        add_statement(
            out,
            four_texts(PUT_FIELD, id, f.key.as_str(), f.value.as_str(), zone_label(f.zone)),
        );
        proof {
            assert(before + all.take(i + 1) =~= (before + all.take(i as int)).push(
                all[i as int],
            ));
        }
        i = i + 1;
    }
    proof {
        assert(all.take(i as int) =~= all);
    }
}

fn add_links(out: &mut Vec<Statement>, id: &str, links: &Vec<WikiLink>)
    ensures
        statements_view(final(out)@) == statements_view(old(out)@) + link_statements(
            id@,
            crate::types::links_view(links@),
        ),
{
    let ghost before = statements_view(out@);
    let ghost all = link_statements(id@, crate::types::links_view(links@));
    let mut i: usize = 0;
    proof {
        assert(statements_view(out@) =~= before + all.take(0));
    }
    while i < links.len()
        invariant
            i <= links@.len(),
            all == link_statements(id@, crate::types::links_view(links@)),
            statements_view(out@) == before + all.take(i as int),
        decreases links@.len() - i,
    {
        add_statement(out, put_link(id, &links[i]));
        proof {
            assert(before + all.take(i + 1) =~= (before + all.take(i as int)).push(
                all[i as int],
            ));
        }
        i = i + 1;
    }
    proof {
        assert(all.take(i as int) =~= all);
    }
}

fn add_attachments(out: &mut Vec<Statement>, id: &str, l: &Vec<AttachmentRow>)
    ensures
        statements_view(final(out)@) == statements_view(old(out)@) + attachment_statements(
            id@,
            crate::index_plan::attachment_rows_view(l@),
        ),
{
    let ghost before = statements_view(out@);
    let ghost all = attachment_statements(id@, crate::index_plan::attachment_rows_view(l@));
    let mut i: usize = 0;
    proof {
        assert(statements_view(out@) =~= before + all.take(0));
    }
    while i < l.len()
        invariant
            i <= l@.len(),
            all == attachment_statements(id@, crate::index_plan::attachment_rows_view(l@)),
            statements_view(out@) == before + all.take(i as int),
        decreases l@.len() - i,
    {
        add_statement(out, put_attachment(id, &l[i]));
        proof {
            assert(before + all.take(i + 1) =~= (before + all.take(i as int)).push(
                all[i as int],
            ));
        }
        i = i + 1;
    }
    proof {
        assert(all.take(i as int) =~= all);
    }
}

/// The statements that put a note into the index.
pub fn index_zettel(zettel: &ParsedZettel, present: bool, now: &str) -> (r: Vec<Statement>)
    ensures
        statements_view(r@) == note_statements(rows_of(zettel@), present, now@),
{
    let rows = index_rows(zettel);
    let id = rows.id.as_str();
    let mut out: Vec<Statement> = Vec::new();
    proof {
        assert(statements_view(out@) =~= Seq::<StatementView>::empty());
    }
    if present {
        add_statement(&mut out, one_text(DROP_SEARCH, id));
    }
    let ghost v0 = statements_view(out@);
    add_statement(&mut out, put_note(&rows, now));
    let ghost v1 = statements_view(out@);
    clear_note(&mut out, id);
    add_tags(&mut out, id, &rows.tags);
    add_fields(&mut out, id, &rows.fields);
    add_links(&mut out, id, &rows.links);
    let ghost v2 = statements_view(out@);
    add_aliases(&mut out, id, &rows.aliases);
    add_statement(&mut out, one_text(DROP_ATTACHMENTS, id));
    let ghost v3 = statements_view(out@);
    add_attachments(&mut out, id, &rows.attachments);
    add_statement(
        &mut out,
        four_texts(
            PUT_SEARCH,
            id,
            rows.title.as_str(),
            rows.body.as_str(),
            rows.tags_text.as_str(),
        ),
    );
    proof {
        let r = rows@;
        let before: Seq<StatementView> = if present {
            seq![with_texts(DROP_SEARCH@, seq![r.id])]
        } else {
            Seq::empty()
        };
        assert(v0 =~= before);
        let drop = with_texts(DROP_ATTACHMENTS@, seq![r.id]);
        let search = with_texts(PUT_SEARCH@, seq![r.id, r.title, r.body, r.tags_text]);
        let a = alias_statements(r.id, r.aliases);
        let t = attachment_statements(r.id, r.attachments);
        assert((v2 + a).push(drop) =~= v2 + a.push(drop));
        assert((v3 + t).push(search) =~= v3 + t.push(search));
    }
    out
}

/// The statements that take a note out of the index.
pub open spec fn removal_statements(id: Seq<char>) -> Seq<StatementView> {
    (seq![with_texts(DROP_SEARCH@, seq![id])] + cleared(id)).push(
        with_texts(DROP_NOTE@, seq![id]),
    )
}

pub fn remove_zettel(id: &str) -> (r: Vec<Statement>)
    ensures
        statements_view(r@) == removal_statements(id@),
{
    let mut out: Vec<Statement> = Vec::new();
    proof {
        assert(statements_view(out@) =~= Seq::<StatementView>::empty());
    }
    add_statement(&mut out, one_text(DROP_SEARCH, id));
    proof {
        assert(statements_view(out@) =~= seq![with_texts(DROP_SEARCH@, seq![id@])]);
    }
    clear_note(&mut out, id);
    add_statement(&mut out, one_text(DROP_NOTE, id));
    out
}

// ---------------------------------------------------------------------------
// Whether the index is whole
// ---------------------------------------------------------------------------
/// The tables that an index cannot do without.
pub open spec fn core_table_names() -> Seq<Seq<char>> {
    seq![
        "zettels"@,
        "_zdb_fts"@,
        "_zdb_tags"@,
        "_zdb_fields"@,
        "_zdb_links"@,
        "_zdb_aliases"@,
        "_zdb_meta"@,
    ]
}

pub fn core_tables() -> (r: Vec<String>)
    ensures
        texts(r@) == core_table_names(),
{
    let mut out: Vec<String> = Vec::new();
    out.push(text::copy("zettels"));
    out.push(text::copy("_zdb_fts"));
    out.push(text::copy("_zdb_tags"));
    out.push(text::copy("_zdb_fields"));
    out.push(text::copy("_zdb_links"));
    out.push(text::copy("_zdb_aliases"));
    out.push(text::copy("_zdb_meta"));
    proof {
        assert(texts(out@) =~= core_table_names());
    }
    out
}

/// Whether an index is whole: the database's own check says `ok`, and none of
/// the core tables is missing among those that are there.
pub fn check_integrity(report: &str, present: &Vec<String>) -> (r: bool)
    ensures
        r == (report@ == "ok"@ && forall|i: int|
            0 <= i < core_table_names().len() ==> texts(present@).contains(
                #[trigger] core_table_names()[i],
            )),
{
    if !text::same(report, "ok") {
        return false;
    }
    let names = core_tables();
    let ghost nv = core_table_names();
    let mut i: usize = 0;
    while i < names.len()
        invariant
            i <= names@.len(),
            texts(names@) == nv,
            nv == core_table_names(),
            forall|j: int| 0 <= j < i ==> texts(present@).contains(#[trigger] nv[j]),
        decreases names@.len() - i,
    {
        proof {
            assert(nv[i as int] == names@[i as int]@);
        }
        if !text::contains_text(present, names[i].as_str()) {
            return false;
        }
        i = i + 1;
    }
    proof {
        assert(nv.len() == names@.len());
    }
    true
}

} // verus!
