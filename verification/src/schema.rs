//! Table schemas and the notes that hold them.
use crate::error::{ErrorView, ZettelError};
use crate::front_laws::{
    front_entries, front_lines, is_plain_meta, lemma_front_entries, lemma_front_lines,
};
use crate::parse_laws::lemma_no_body;
use crate::parser::{
    is_reading, is_writing, lemma_no_inline_fields, split_view, unlines, with_path_id,
};
use crate::text::{self, texts};
use crate::textmap::{self, lookup, put, put_if, TextMap};
use crate::types::{
    columns_view, fields_view, lemma_fields_lookup, lemma_fields_put, lemma_pairs_view,
    lemma_values_view, values_view, ColumnDef, ColumnView, MetaView, ParsedZettel, SchemaView,
    TableSchema, Value, ValueView, ZettelId, ZettelMeta, Zone,
};
use crate::yaml::plain_text;
use vstd::prelude::*;

verus! {

broadcast use vstd::string::group_string_axioms;

pub type Fields = Seq<(Seq<char>, ValueView)>;

// ---------------------------------------------------------------------------
// Zones of columns
// ---------------------------------------------------------------------------
/// Whether a data type is numeric, in the front matter's sense.
pub open spec fn numeric(data_type: Seq<char>) -> bool {
    let t = text::uppered(data_type);
    t == "INTEGER"@ || t == "REAL"@ || t == "BOOLEAN"@
}

pub fn is_numeric_type(dt: &str) -> (r: bool)
    ensures
        r == numeric(dt@),
{
    let u = text::to_upper(dt);
    text::same(u.as_str(), "INTEGER") || text::same(u.as_str(), "REAL") || text::same(
        u.as_str(),
        "BOOLEAN",
    )
}

/// The zone in which a column is kept: the one it names; else a reference goes
/// to the reference section, a number to the front matter, a text to the body.
pub open spec fn zone_of_column(c: ColumnView) -> Zone {
    match c.zone {
        Some(z) => z,
        None => if c.references is Some {
            Zone::Reference
        } else if numeric(c.data_type) {
            Zone::Frontmatter
        } else {
            Zone::Body
        },
    }
}

pub fn effective_zone(col: &ColumnDef) -> (r: Zone)
    ensures
        r == zone_of_column(col@),
{
    if let Some(zone) = col.zone {
        return zone;
    }
    if col.references.is_some() {
        Zone::Reference
    } else if is_numeric_type(col.data_type.as_str()) {
        Zone::Frontmatter
    } else {
        Zone::Body
    }
}

// ---------------------------------------------------------------------------
// A schema as a note
// ---------------------------------------------------------------------------
pub open spec fn zone_text(z: Zone) -> Seq<char> {
    match z {
        Zone::Frontmatter => "frontmatter"@,
        Zone::Body => "body"@,
        Zone::Reference => "reference"@,
    }
}

fn zone_name(z: Zone) -> (r: &'static str)
    ensures
        r@ == zone_text(z),
{
    match z {
        Zone::Frontmatter => "frontmatter",
        Zone::Body => "body",
        Zone::Reference => "reference",
    }
}

pub open spec fn text_values(l: Seq<Seq<char>>) -> Seq<ValueView> {
    Seq::new(l.len(), |i: int| ValueView::Text(l[i]))
}

pub open spec fn opt_value(o: Option<Seq<char>>) -> Option<ValueView> {
    match o {
        Some(s) => Some(ValueView::Text(s)),
        None => None,
    }
}

/// The fields that describe a column.
pub open spec fn column_fields(c: ColumnView) -> Fields {
    let f = put(
        put(Seq::empty(), "name"@, ValueView::Text(c.name)),
        "data_type"@,
        ValueView::Text(c.data_type),
    );
    let f = put_if(
        f,
        "zone"@,
        match c.zone {
            Some(z) => Some(ValueView::Text(zone_text(z))),
            None => None,
        },
    );
    let f = put_if(
        f,
        "required"@,
        if c.required {
            Some(ValueView::Bool(true))
        } else {
            None
        },
    );
    let f = put_if(
        f,
        "search_boost"@,
        match c.search_boost {
            Some(b) => Some(ValueView::Number(b)),
            None => None,
        },
    );
    let f = put_if(f, "references"@, opt_value(c.references));
    let f = put_if(
        f,
        "allowed_values"@,
        match c.allowed_values {
            Some(l) => Some(ValueView::List(text_values(l))),
            None => None,
        },
    );
    put_if(f, "default_value"@, opt_value(c.default_value))
}

pub open spec fn column_values(cs: Seq<ColumnView>) -> Seq<ValueView> {
    Seq::new(cs.len(), |i: int| ValueView::Mapping(column_fields(cs[i])))
}

/// The fields that describe a table beside its name.
pub open spec fn schema_fields(s: SchemaView) -> Fields {
    let f = put(Seq::empty(), "columns"@, ValueView::List(column_values(s.columns)));
    let f = put_if(f, "crdt_strategy"@, opt_value(s.crdt_strategy));
    put_if(
        f,
        "template_sections"@,
        if s.template_sections.len() > 0 {
            Some(ValueView::List(text_values(s.template_sections)))
        } else {
            None
        },
    )
}

/// The front matter of the note that holds a schema.
pub open spec fn typedef_meta(id: Seq<char>, s: SchemaView) -> MetaView {
    MetaView {
        id: Some(id),
        title: Some(s.table_name),
        date: None,
        zettel_type: Some("_typedef"@),
        tags: Seq::empty(),
        extra: schema_fields(s),
    }
}

pub open spec fn typedef_path(id: Seq<char>) -> Seq<char> {
    "zettelkasten/_typedef/"@ + id + ".md"@
}

fn put_value(m: &mut TextMap<Value>, key: &str, v: Value)
    ensures
        fields_view(*final(m)) == put(fields_view(*old(m)), key@, v@),
{
    let ghost before = *m;
    m.insert(text::copy(key), v);
    proof {
        lemma_fields_put(before, *m, key@, v);
    }
}

fn put_text(m: &mut TextMap<Value>, key: &str, v: &str)
    ensures
        fields_view(*final(m)) == put(fields_view(*old(m)), key@, ValueView::Text(v@)),
{
    put_value(m, key, Value::String(text::copy(v)));
}

/// A list of texts as values.
pub fn text_list(l: &Vec<String>) -> (r: Vec<Value>)
    ensures
        values_view(r@) == text_values(texts(l@)),
{
    let mut out: Vec<Value> = Vec::new();
    let ghost all = text_values(texts(l@));
    let mut i: usize = 0;
    while i < l.len()
        invariant
            i <= l@.len(),
            out@.len() == i,
            all == text_values(texts(l@)),
            forall|j: int| 0 <= j < i ==> (#[trigger] out@[j])@ == all[j],
        decreases l@.len() - i,
    {
        out.push(Value::String(text::copy(l[i].as_str())));
        i = i + 1;
    }
    proof {
        lemma_values_view(out@);
        assert(values_view(out@) =~= all);
    }
    out
}

fn column_map(c: &ColumnDef) -> (m: TextMap<Value>)
    ensures
        fields_view(m) == column_fields(c@),
{
    let mut m: TextMap<Value> = TextMap::new();
    proof {
        lemma_pairs_view(m.entries@);
        assert(m@.len() == m.entries@.len());
        assert(fields_view(m) =~= Seq::<(Seq<char>, ValueView)>::empty());
    }
    put_text(&mut m, "name", c.name.as_str());
    put_text(&mut m, "data_type", c.data_type.as_str());
    if let Some(z) = c.zone {
        put_text(&mut m, "zone", zone_name(z));
    }
    if c.required {
        put_value(&mut m, "required", Value::Bool(true));
    }
    if let Some(b) = &c.search_boost {
        put_value(&mut m, "search_boost", Value::Number(b.copy()));
    }
    if let Some(r) = &c.references {
        put_text(&mut m, "references", r.as_str());
    }
    if let Some(l) = &c.allowed_values {
        put_value(&mut m, "allowed_values", Value::List(text_list(l)));
    }
    if let Some(d) = &c.default_value {
        put_text(&mut m, "default_value", d.as_str());
    }
    m
}

fn column_list(cs: &Vec<ColumnDef>) -> (r: Vec<Value>)
    ensures
        values_view(r@) == column_values(columns_view(cs@)),
{
    let mut out: Vec<Value> = Vec::new();
    let ghost all = column_values(columns_view(cs@));
    let mut i: usize = 0;
    while i < cs.len()
        invariant
            i <= cs@.len(),
            out@.len() == i,
            all == column_values(columns_view(cs@)),
            forall|j: int| 0 <= j < i ==> (#[trigger] out@[j])@ == all[j],
        decreases cs@.len() - i,
    {
        out.push(Value::Mapping(column_map(&cs[i])));
        i = i + 1;
    }
    proof {
        lemma_values_view(out@);
        assert(values_view(out@) =~= all);
    }
    out
}

/// Whether a note is one that holds a schema: its front matter says all, body
/// and reference section are empty.
pub open spec fn is_typedef_note(z: ParsedZettel, id: Seq<char>, s: SchemaView) -> bool {
    &&& z@.meta == typedef_meta(id, s)
    &&& z@.body.len() == 0 && z@.reference.len() == 0
    &&& z@.fields.len() == 0 && z@.links.len() == 0
    &&& z@.path == typedef_path(id)
}

/// The note that holds a schema.
pub fn build_typedef_zettel(id: &ZettelId, schema: &TableSchema) -> (z: ParsedZettel)
    ensures
        is_typedef_note(z, id.0@, schema@),
{
    let mut extra: TextMap<Value> = TextMap::new();
    proof {
        lemma_pairs_view(extra.entries@);
        assert(extra@.len() == extra.entries@.len());
        assert(fields_view(extra) =~= Seq::<(Seq<char>, ValueView)>::empty());
    }
    put_value(&mut extra, "columns", Value::List(column_list(&schema.columns)));
    if let Some(s) = &schema.crdt_strategy {
        put_text(&mut extra, "crdt_strategy", s.as_str());
    }
    if schema.template_sections.len() > 0 {
        put_value(
            &mut extra,
            "template_sections",
            Value::List(text_list(&schema.template_sections)),
        );
    }
    let meta = ZettelMeta {
        id: Some(ZettelId(id.to_text())),
        title: Some(text::copy(schema.table_name.as_str())),
        date: None,
        zettel_type: Some(text::copy("_typedef")),
        tags: Vec::new(),
        extra,
    };
    proof {
        assert(meta@.tags =~= Seq::<Seq<char>>::empty());
    }
    ParsedZettel {
        meta,
        body: String::new(),
        reference_section: String::new(),
        inline_fields: Vec::new(),
        wikilinks: Vec::new(),
        path: text::cat3("zettelkasten/_typedef/", id.0.as_str(), ".md"),
    }
}

// ---------------------------------------------------------------------------
// A schema read from a note
// ---------------------------------------------------------------------------
pub open spec fn text_at(m: Fields, key: Seq<char>) -> Option<Seq<char>> {
    match lookup(m, key) {
        Some(ValueView::Text(s)) => Some(s),
        _ => None,
    }
}

pub open spec fn zone_of_text(s: Seq<char>) -> Zone {
    if s == "frontmatter"@ {
        Zone::Frontmatter
    } else if s == "reference"@ {
        Zone::Reference
    } else {
        Zone::Body
    }
}

/// The texts among values.
pub open spec fn only_texts(l: Seq<ValueView>) -> Seq<Seq<char>>
    decreases l.len(),
{
    if l.len() == 0 {
        Seq::empty()
    } else {
        match l.last() {
            ValueView::Text(s) => only_texts(l.drop_last()).push(s),
            _ => only_texts(l.drop_last()),
        }
    }
}

pub open spec fn texts_at(m: Fields, key: Seq<char>) -> Option<Seq<Seq<char>>> {
    match lookup(m, key) {
        Some(ValueView::List(l)) => Some(only_texts(l)),
        _ => None,
    }
}

pub open spec fn engine_error(s: Seq<char>) -> ErrorView {
    ErrorView::SqlEngine(s)
}

/// The column that a value describes.
pub open spec fn column_of(v: ValueView) -> Result<ColumnView, ErrorView> {
    match v {
        ValueView::Mapping(m) => match (text_at(m, "name"@), text_at(m, "data_type"@)) {
            (None, _) => Err(engine_error("column missing name"@)),
            (Some(_), None) => Err(engine_error("column missing data_type"@)),
            (Some(name), Some(data_type)) => Ok(
                ColumnView {
                    name,
                    data_type,
                    references: text_at(m, "references"@),
                    zone: match text_at(m, "zone"@) {
                        Some(s) => Some(zone_of_text(s)),
                        None => None,
                    },
                    required: lookup(m, "required"@) == Some(ValueView::Bool(true)),
                    search_boost: match lookup(m, "search_boost"@) {
                        Some(ValueView::Number(n)) => Some(n),
                        _ => None,
                    },
                    allowed_values: texts_at(m, "allowed_values"@),
                    default_value: text_at(m, "default_value"@),
                },
            ),
        },
        _ => Err(engine_error("column must be a mapping"@)),
    }
}

pub open spec fn columns_of(l: Seq<ValueView>) -> Result<Seq<ColumnView>, ErrorView>
    decreases l.len(),
{
    if l.len() == 0 {
        Ok(Seq::empty())
    } else {
        match columns_of(l.drop_last()) {
            Err(e) => Err(e),
            Ok(cs) => match column_of(l.last()) {
                Err(e) => Err(e),
                Ok(c) => Ok(cs.push(c)),
            },
        }
    }
}

/// The schema that a note's front matter holds.
pub open spec fn schema_of(m: MetaView) -> Result<SchemaView, ErrorView> {
    match m.title {
        None => Err(engine_error("typedef zettel missing title"@)),
        Some(table_name) => match lookup(m.extra, "columns"@) {
            None => Err(engine_error("typedef zettel missing columns"@)),
            Some(ValueView::List(l)) => match columns_of(l) {
                Err(e) => Err(e),
                Ok(columns) => Ok(
                    SchemaView {
                        table_name,
                        columns,
                        crdt_strategy: text_at(m.extra, "crdt_strategy"@),
                        template_sections: match texts_at(m.extra, "template_sections"@) {
                            Some(l) => l,
                            None => Seq::empty(),
                        },
                    },
                ),
            },
            Some(_) => Err(engine_error("columns must be a sequence"@)),
        },
    }
}

pub fn read_text(m: &TextMap<Value>, key: &str) -> (r: Option<String>)
    ensures
        text::opt_text(r) == text_at(fields_view(*m), key@),
{
    proof {
        lemma_fields_lookup(*m, key@);
    }
    match m.get(key) {
        Some(v) => match v.as_str() {
            Some(s) => Some(text::copy(s)),
            None => None,
        },
        None => None,
    }
}

pub fn pick_texts(l: &Vec<Value>) -> (r: Vec<String>)
    ensures
        texts(r@) == only_texts(values_view(l@)),
{
    let mut out: Vec<String> = Vec::new();
    let ghost all = values_view(l@);
    let mut i: usize = 0;
    proof {
        lemma_values_view(l@);
        assert(all.take(0) =~= Seq::<ValueView>::empty());
        assert(texts(out@) =~= Seq::<Seq<char>>::empty());
    }
    while i < l.len()
        invariant
            i <= l@.len() == all.len(),
            forall|j: int| 0 <= j < all.len() ==> #[trigger] all[j] == l@[j]@,
            texts(out@) == only_texts(all.take(i as int)),
        decreases l@.len() - i,
    {
        proof {
            let t = all.take(i + 1);
            assert(t.drop_last() =~= all.take(i as int));
            assert(t.last() == l@[i as int]@);
        }
        if let Some(s) = l[i].as_str() {
            let c = text::copy(s);
            proof {
                text::lemma_texts_push(out@, c);
            }
            out.push(c);
        }
        i = i + 1;
    }
    proof {
        assert(all.take(i as int) =~= all);
    }
    out
}

fn read_texts(m: &TextMap<Value>, key: &str) -> (r: Option<Vec<String>>)
    ensures
        crate::types::opt_texts(r) == texts_at(fields_view(*m), key@),
{
    proof {
        lemma_fields_lookup(*m, key@);
    }
    match m.get(key) {
        Some(v) => match v.as_sequence() {
            Some(l) => Some(pick_texts(l)),
            None => None,
        },
        None => None,
    }
}

fn read_zone(s: &str) -> (z: Zone)
    ensures
        z == zone_of_text(s@),
{
    if text::same(s, "frontmatter") {
        Zone::Frontmatter
    } else if text::same(s, "reference") {
        Zone::Reference
    } else {
        Zone::Body
    }
}

fn engine(msg: &str) -> (e: ZettelError)
    ensures
        e@ == engine_error(msg@),
{
    ZettelError::SqlEngine(text::copy(msg))
}

fn read_column(v: &Value) -> (r: Result<ColumnDef, ZettelError>)
    ensures
        match r {
            Ok(c) => column_of(v@) == Ok::<ColumnView, ErrorView>(c@),
            Err(e) => column_of(v@) == Err::<ColumnView, ErrorView>(e@),
        },
{
    let m = match v.as_mapping() {
        Some(m) => m,
        None => {
            return Err(engine("column must be a mapping"));
        },
    };
    let name = match read_text(m, "name") {
        Some(s) => s,
        None => {
            return Err(engine("column missing name"));
        },
    };
    let data_type = match read_text(m, "data_type") {
        Some(s) => s,
        None => {
            return Err(engine("column missing data_type"));
        },
    };
    let references = read_text(m, "references");
    let zone = match read_text(m, "zone") {
        Some(s) => Some(read_zone(s.as_str())),
        None => None,
    };
    proof {
        lemma_fields_lookup(*m, "required"@);
        lemma_fields_lookup(*m, "search_boost"@);
    }
    let required = match m.get("required") {
        Some(v) => match v.as_bool() {
            Some(b) => b,
            None => false,
        },
        None => false,
    };
    let search_boost = match m.get("search_boost") {
        Some(v) => match v.as_number() {
            Some(n) => Some(n.copy()),
            None => None,
        },
        None => None,
    };
    let allowed_values = read_texts(m, "allowed_values");
    let default_value = read_text(m, "default_value");
    Ok(
        ColumnDef {
            name,
            data_type,
            references,
            zone,
            required,
            search_boost,
            allowed_values,
            default_value,
        },
    )
}

proof fn lemma_columns_error(l: Seq<ValueView>, k: int)
    requires
        0 <= k <= l.len(),
        columns_of(l.take(k)) is Err,
    ensures
        columns_of(l) == columns_of(l.take(k)),
    decreases l.len(),
{
    if k < l.len() {
        assert(l.drop_last().take(k) =~= l.take(k));
        lemma_columns_error(l.drop_last(), k);
    } else {
        assert(l.take(k) =~= l);
    }
}

/// Reads the schema that a note holds.
pub fn schema_from_parsed(zettel: &ParsedZettel) -> (r: Result<TableSchema, ZettelError>)
    ensures
        match r {
            Ok(s) => schema_of(zettel@.meta) == Ok::<SchemaView, ErrorView>(s@),
            Err(e) => schema_of(zettel@.meta) == Err::<SchemaView, ErrorView>(e@),
        },
{
    let table_name = match &zettel.meta.title {
        Some(s) => text::copy(s.as_str()),
        None => {
            return Err(engine("typedef zettel missing title"));
        },
    };
    proof {
        lemma_fields_lookup(zettel.meta.extra, "columns"@);
    }
    let l = match zettel.meta.extra.get("columns") {
        Some(v) => match v.as_sequence() {
            Some(l) => l,
            None => {
                return Err(engine("columns must be a sequence"));
            },
        },
        None => {
            return Err(engine("typedef zettel missing columns"));
        },
    };
    let ghost all = values_view(l@);
    let mut columns: Vec<ColumnDef> = Vec::new();
    let mut i: usize = 0;
    proof {
        lemma_values_view(l@);
        assert(all.take(0) =~= Seq::<ValueView>::empty());
        assert(columns_view(columns@) =~= Seq::<ColumnView>::empty());
    }
    while i < l.len()
        invariant
            i <= l@.len() == all.len(),
            all == values_view(l@),
            forall|j: int| 0 <= j < all.len() ==> #[trigger] all[j] == l@[j]@,
            columns_of(all.take(i as int)) == Ok::<Seq<ColumnView>, ErrorView>(
                columns_view(columns@),
            ),
        decreases l@.len() - i,
    {
        proof {
            let t = all.take(i + 1);
            assert(t.drop_last() =~= all.take(i as int));
            assert(t.last() == l@[i as int]@);
        }
        match read_column(&l[i]) {
            Ok(c) => {
                let ghost before = columns@;
                columns.push(c);
                proof {
                    assert(columns_view(columns@) =~= columns_view(before).push(c@));
                }
            },
            Err(e) => {
                proof {
                    lemma_columns_error(all, i + 1);
                }
                return Err(e);
            },
        }
        i = i + 1;
    }
    proof {
        assert(all.take(i as int) =~= all);
    }
    let crdt_strategy = read_text(&zettel.meta.extra, "crdt_strategy");
    let template_sections = match read_texts(&zettel.meta.extra, "template_sections") {
        Some(l) => l,
        None => {
            let v: Vec<String> = Vec::new();
            proof {
                assert(texts(v@) =~= Seq::<Seq<char>>::empty());
            }
            v
        },
    };
    Ok(TableSchema { table_name, columns, crdt_strategy, template_sections })
}

// ---------------------------------------------------------------------------
// Laws
// ---------------------------------------------------------------------------
proof fn lemma_only_texts(l: Seq<Seq<char>>)
    ensures
        only_texts(text_values(l)) == l,
    decreases l.len(),
{
    let v = text_values(l);
    if l.len() > 0 {
        lemma_only_texts(l.drop_last());
        assert(v.drop_last() =~= text_values(l.drop_last()));
        assert(only_texts(v) =~= l);
    } else {
        assert(only_texts(v) =~= l);
    }
}

proof fn lemma_key_names()
    ensures
        "name"@.len() == 4,
        "zone"@.len() == 4,
        "name"@ != "zone"@,
        "required"@.len() == 8,
        "data_type"@.len() == 9,
        "references"@.len() == 10,
        "search_boost"@.len() == 12,
        "default_value"@.len() == 13,
        "allowed_values"@.len() == 14,
        "columns"@.len() == 7,
        "crdt_strategy"@.len() == 13,
        "template_sections"@.len() == 17,
        "frontmatter"@ != "reference"@,
        "body"@ != "frontmatter"@,
        "body"@ != "reference"@,
{
    reveal_strlit("name");
    reveal_strlit("zone");
    reveal_strlit("required");
    reveal_strlit("data_type");
    reveal_strlit("references");
    reveal_strlit("search_boost");
    reveal_strlit("default_value");
    reveal_strlit("allowed_values");
    reveal_strlit("columns");
    reveal_strlit("crdt_strategy");
    reveal_strlit("template_sections");
    reveal_strlit("frontmatter");
    reveal_strlit("reference");
    reveal_strlit("body");
    assert("name"@[0] != "zone"@[0]);
    assert("frontmatter"@.len() == 11 && "reference"@.len() == 9 && "body"@.len() == 4);
}

/// Reading a column from the fields that describe it gives the column.
pub proof fn law_column_round_trip(c: ColumnView)
    ensures
        column_of(ValueView::Mapping(column_fields(c))) == Ok::<ColumnView, ErrorView>(c),
{
    lemma_key_names();
    textmap::lemma_empty::<ValueView>();
    let e = Seq::<(Seq<char>, ValueView)>::empty();
    let nv = ValueView::Text(c.name);
    let f0 = put(e, "name"@, nv);
    textmap::law_put_sorted(e, "name"@, nv);
    textmap::lemma_lookup_put(e, "name"@, nv);
    let dv = ValueView::Text(c.data_type);
    let f1 = put(f0, "data_type"@, dv);
    textmap::law_put_sorted(f0, "data_type"@, dv);
    textmap::lemma_lookup_put(f0, "data_type"@, dv);
    let z = match c.zone {
        Some(z) => Some(ValueView::Text(zone_text(z))),
        None => None,
    };
    let f2 = put_if(f1, "zone"@, z);
    textmap::lemma_put_if(f1, "zone"@, z);
    let r = if c.required {
        Some(ValueView::Bool(true))
    } else {
        None
    };
    let f3 = put_if(f2, "required"@, r);
    textmap::lemma_put_if(f2, "required"@, r);
    let b = match c.search_boost {
        Some(b) => Some(ValueView::Number(b)),
        None => None,
    };
    let f4 = put_if(f3, "search_boost"@, b);
    textmap::lemma_put_if(f3, "search_boost"@, b);
    let f5 = put_if(f4, "references"@, opt_value(c.references));
    textmap::lemma_put_if(f4, "references"@, opt_value(c.references));
    let a = match c.allowed_values {
        Some(l) => Some(ValueView::List(text_values(l))),
        None => None,
    };
    let f6 = put_if(f5, "allowed_values"@, a);
    textmap::lemma_put_if(f5, "allowed_values"@, a);
    let f7 = put_if(f6, "default_value"@, opt_value(c.default_value));
    textmap::lemma_put_if(f6, "default_value"@, opt_value(c.default_value));
    assert(f7 == column_fields(c));
    if let Some(l) = c.allowed_values {
        lemma_only_texts(l);
    }
    assert(lookup(f7, "name"@) == Some(nv));
    assert(lookup(f7, "data_type"@) == Some(dv));
    assert(lookup(f7, "zone"@) == z);
    assert(lookup(f7, "required"@) == r);
    assert(lookup(f7, "search_boost"@) == b);
    assert(lookup(f7, "references"@) == opt_value(c.references));
    assert(lookup(f7, "allowed_values"@) == a);
    assert(lookup(f7, "default_value"@) == opt_value(c.default_value));
}

/// Reading the schema from the note that was built for it gives the schema.
pub proof fn law_schema_round_trip(id: Seq<char>, s: SchemaView)
    ensures
        schema_of(typedef_meta(id, s)) == Ok::<SchemaView, ErrorView>(s),
{
    lemma_key_names();
    textmap::lemma_empty::<ValueView>();
    lemma_columns_round_trip(s.columns);
    lemma_only_texts(s.template_sections);
    let e = Seq::<(Seq<char>, ValueView)>::empty();
    let cv = ValueView::List(column_values(s.columns));
    let f0 = put(e, "columns"@, cv);
    textmap::law_put_sorted(e, "columns"@, cv);
    textmap::lemma_lookup_put(e, "columns"@, cv);
    let f1 = put_if(f0, "crdt_strategy"@, opt_value(s.crdt_strategy));
    textmap::lemma_put_if(f0, "crdt_strategy"@, opt_value(s.crdt_strategy));
    let t = if s.template_sections.len() > 0 {
        Some(ValueView::List(text_values(s.template_sections)))
    } else {
        None
    };
    let f2 = put_if(f1, "template_sections"@, t);
    textmap::lemma_put_if(f1, "template_sections"@, t);
    assert(f2 == schema_fields(s));
    assert(lookup(f2, "columns"@) == Some(cv));
    assert(lookup(f2, "crdt_strategy"@) == opt_value(s.crdt_strategy));
    assert(lookup(f2, "template_sections"@) == t);
    if s.template_sections.len() == 0 {
        assert(s.template_sections =~= Seq::<Seq<char>>::empty());
    }
}

/// The schema of plain values that a note was built for is read again from the
/// text that was written of the note.
pub proof fn law_stored_schema_read_back(
    note: ParsedZettel,
    id: Seq<char>,
    s: SchemaView,
    content: Seq<char>,
    path: Seq<char>,
    r: Result<ParsedZettel, ZettelError>,
)
    requires
        is_typedef_note(note, id, s),
        is_plain_meta(note@.meta),
        is_writing(note@, content),
        is_reading(content, path, r),
    ensures
        r matches Ok(z) && z@.meta == note@.meta && schema_of(z@.meta) == Ok::<
            SchemaView,
            ErrorView,
        >(s),
{
    let m = note@.meta;
    let e = Seq::<char>::empty();
    lemma_front_lines(m);
    lemma_no_body(front_lines(m));
    assert(note@.body =~= e && note@.reference =~= e);
    assert(content =~= "---\n"@ + unlines(front_lines(m)) + "---\n"@ + e);
    assert(with_path_id(m, path) == m);
    lemma_front_entries(m);
    assert(split_view(content)->Ok_0.frontmatter == plain_text(front_entries(m)));
    lemma_no_inline_fields();
    law_schema_round_trip(id, s);
}

proof fn lemma_columns_round_trip(cs: Seq<ColumnView>)
    ensures
        columns_of(column_values(cs)) == Ok::<Seq<ColumnView>, ErrorView>(cs),
    decreases cs.len(),
{
    let v = column_values(cs);
    if cs.len() > 0 {
        lemma_columns_round_trip(cs.drop_last());
        assert(v.drop_last() =~= column_values(cs.drop_last()));
        law_column_round_trip(cs.last());
        assert(v.last() == ValueView::Mapping(column_fields(cs.last())));
        assert(cs.drop_last().push(cs.last()) =~= cs);
    } else {
        assert(cs =~= Seq::<ColumnView>::empty());
    }
}

} // verus!
