//! What the index holds of a note: rows of the index, values of typed columns,
//! schemas inferred from notes, and warnings.
use crate::error::{error_text, ErrorView, ZettelError};
use crate::parser::{self, parse, parsed_zettel};
use crate::rows::{find_column, heading_of, next_heading, seek_column};
use crate::schema::{effective_zone, schema_from_parsed, schema_of, zone_of_column, Fields};
use crate::text::{self, join, lines, texts, trimmed};
use crate::textmap::{self, lemma_mapped_put, lookup, mapped, put, TextMap};
use crate::types::{
    columns_view, copy_columns, fields_view, inline_view, lemma_fields_lookup, lemma_pairs_view,
    lemma_values_view, pairs_view, value_view, values_view, warnings_view, ColumnDef, ColumnView,
    ConsistencyWarning, FieldView, ParsedZettel, SchemaView, TableSchema, Value, ValueView,
    WarningView, ZettelView, Zone,
};
use crate::yaml::{real_from_text, real_written};
use vstd::prelude::*;

verus! {

broadcast use vstd::string::group_string_axioms;

// ---------------------------------------------------------------------------
// Sections of a body
// ---------------------------------------------------------------------------
/// The first line that is a heading; the number of lines where there is none.
pub open spec fn heading_line(ls: Seq<Seq<char>>, heading: Seq<char>, i: int) -> int
    decreases ls.len() - i,
{
    if i < 0 || i >= ls.len() {
        ls.len() as int
    } else if trimmed(ls[i]) == heading {
        i
    } else {
        heading_line(ls, heading, i + 1)
    }
}

/// Lines without the blank ones at their end.
pub open spec fn without_blank_end(ls: Seq<Seq<char>>) -> Seq<Seq<char>>
    decreases ls.len(),
{
    if ls.len() > 0 && text::is_blank(ls.last()) {
        without_blank_end(ls.drop_last())
    } else {
        ls
    }
}

/// Where the text of a section begins: after its heading and one blank line.
pub open spec fn section_start(ls: Seq<Seq<char>>, h: int) -> int {
    if h + 1 < ls.len() && text::is_blank(ls[h + 1]) {
        h + 2
    } else {
        h + 1
    }
}

/// The text of a section, from lines.
pub open spec fn section_in(ls: Seq<Seq<char>>, name: Seq<char>) -> Seq<char> {
    let h = heading_line(ls, heading_of(name), 0);
    if h >= ls.len() {
        Seq::empty()
    } else {
        let s = section_start(ls, h);
        join(without_blank_end(ls.subrange(s, next_heading(ls, s))), "\n"@)
    }
}

/// The text under a heading of second level.
pub fn extract_body_section(body: &str, section_name: &str) -> (r: String)
    ensures
        r@ == section_in(lines(body@), section_name@),
{
    let heading = text::cat("## ", section_name);
    let ls = text::split_lines(body);
    let ghost all = lines(body@);
    let ghost h = heading_of(section_name@);
    let n: usize = ls.len();
    let mut i: usize = 0;
    while i < n
        invariant
            i <= n == ls@.len(),
            all == texts(ls@),
            h == heading@,
            heading_line(all, h, i as int) == heading_line(all, h, 0),
        decreases n - i,
    {
        proof {
            assert(all[i as int] == ls@[i as int]@);
        }
        let t = text::trim(ls[i].as_str());
        if text::same(t.as_str(), heading.as_str()) {
            let mut s: usize = i + 1;
            if s < n {
                proof {
                    assert(all[s as int] == ls@[s as int]@);
                }
                if text::blank(ls[s].as_str()) {
                    s = s + 1;
                }
            }
            let mut e: usize = s;
            while e < n && !text::starts_with(ls[e].as_str(), "## ")
                invariant
                    s <= e <= n == ls@.len(),
                    all == texts(ls@),
                    next_heading(all, e as int) == next_heading(all, s as int),
                decreases n - e,
            {
                proof {
                    assert(all[e as int] == ls@[e as int]@);
                }
                e = e + 1;
            }
            proof {
                if e < n {
                    assert(all[e as int] == ls@[e as int]@);
                }
                assert(e == next_heading(all, s as int));
            }
            let ghost content = all.subrange(s as int, e as int);
            let mut k: usize = e;
            proof {
                assert(content.take(k - s) =~= content);
            }
            while k > s && text::blank(ls[k - 1].as_str())
                invariant
                    s <= k <= e <= n == ls@.len(),
                    all == texts(ls@),
                    content == all.subrange(s as int, e as int),
                    without_blank_end(content.take(k - s)) == without_blank_end(content),
                decreases k,
            {
                proof {
                    assert(content.take(k - s).last() == ls@[k - 1]@);
                    assert(content.take(k - s).drop_last() =~= content.take(k - s - 1));
                }
                k = k - 1;
            }
            proof {
                if k > s {
                    assert(content.take(k - s).last() == ls@[k - 1]@);
                }
                assert(all.subrange(s as int, k as int) =~= content.take(k - s));
            }
            return text::join_range(&ls, s, k, "\n");
        }
        i = i + 1;
    }
    let r = String::new();
    proof {
        assert(r@ =~= Seq::<char>::empty());
    }
    r
}

/// The names of the headings among lines.
pub open spec fn heading_names(ls: Seq<Seq<char>>) -> Seq<Seq<char>>
    decreases ls.len(),
{
    if ls.len() == 0 {
        Seq::empty()
    } else {
        let t = trimmed(ls.last());
        if text::has_prefix(t, "## "@) {
            heading_names(ls.drop_last()).push(trimmed(t.skip("## "@.len() as int)))
        } else {
            heading_names(ls.drop_last())
        }
    }
}

/// The names of the headings of second level.
pub fn extract_body_headings(body: &str) -> (r: Vec<String>)
    ensures
        texts(r@) == heading_names(lines(body@)),
{
    let ls = text::split_lines(body);
    let ghost all = lines(body@);
    let mut out: Vec<String> = Vec::new();
    let mut i: usize = 0;
    proof {
        assert(all.take(0) =~= Seq::<Seq<char>>::empty());
        assert(texts(out@) =~= Seq::<Seq<char>>::empty());
    }
    while i < ls.len()
        invariant
            i <= ls@.len(),
            all == texts(ls@),
            texts(out@) == heading_names(all.take(i as int)),
        decreases ls@.len() - i,
    {
        proof {
            let t = all.take(i + 1);
            assert(t.drop_last() =~= all.take(i as int));
            assert(t.last() == ls@[i as int]@);
        }
        let t = text::trim(ls[i].as_str());
        if let Some(rest) = text::strip_prefix(t.as_str(), "## ") {
            let name = text::trim(rest.as_str());
            proof {
                text::lemma_texts_push(out@, name);
            }
            out.push(name);
        }
        i = i + 1;
    }
    proof {
        assert(all.take(i as int) =~= all);
    }
    out
}

// ---------------------------------------------------------------------------
// Values of columns
// ---------------------------------------------------------------------------
pub open spec fn bool_text(b: bool) -> Seq<char> {
    if b {
        "true"@
    } else {
        "false"@
    }
}

fn bool_name(b: bool) -> (r: &'static str)
    ensures
        r@ == bool_text(b),
{
    if b {
        "true"
    } else {
        "false"
    }
}

/// A value as it is debugged.
pub open spec fn value_debug(v: ValueView) -> Seq<char>
    decreases v,
{
    match v {
        ValueView::Text(s) => "String("@ + text::debugged_one(s) + ")"@,
        ValueView::Number(n) => "Number("@ + n.debug + ")"@,
        ValueView::Bool(b) => "Bool("@ + bool_text(b) + ")"@,
        ValueView::List(l) => "List(["@ + list_debug(l) + "])"@,
        ValueView::Mapping(m) => "Map({"@ + map_debug(m) + "})"@,
    }
}

pub open spec fn list_debug(l: Seq<ValueView>) -> Seq<char>
    decreases l,
{
    if l.len() == 0 {
        Seq::empty()
    } else if l.len() == 1 {
        value_debug(l.last())
    } else {
        list_debug(l.drop_last()) + ", "@ + value_debug(l.last())
    }
}

pub open spec fn map_debug(m: Fields) -> Seq<char>
    decreases m,
{
    if m.len() == 0 {
        Seq::empty()
    } else {
        let e = text::debugged_one(m.last().0) + ": "@ + value_debug(m.last().1);
        if m.len() == 1 {
            e
        } else {
            map_debug(m.drop_last()) + ", "@ + e
        }
    }
}

fn debug_value(v: &Value) -> (r: String)
    ensures
        r@ == value_debug(v@),
    decreases v,
{
    match v {
        Value::String(s) => {
            let d = text::debug_text(s.as_str());
            text::cat3("String(", d.as_str(), ")")
        },
        Value::Number(n) => text::cat3("Number(", n.debug.as_str(), ")"),
        Value::Bool(b) => text::cat3("Bool(", bool_name(*b), ")"),
        Value::List(l) => {
            let mut out = String::new();
            let ghost all = values_view(l@);
            let mut i: usize = 0;
            proof {
                lemma_values_view(l@);
                assert(all.take(0) =~= Seq::<ValueView>::empty());
                assert(out@ =~= Seq::<char>::empty());
            }
            while i < l.len()
                invariant
                    i <= l@.len() == all.len(),
                    all == values_view(l@),
                    forall|j: int| 0 <= j < all.len() ==> #[trigger] all[j] == value_view(l@[j]),
                    out@ == list_debug(all.take(i as int)),
                decreases l@.len() - i,
            {
                let ghost before = out@;
                let d = debug_value(&l[i]);
                if i > 0 {
                    out.append(", ");
                }
                out.append(d.as_str());
                proof {
                    let t = all.take(i + 1);
                    assert(t.drop_last() =~= all.take(i as int));
                    assert(t.last() == value_view(l@[i as int]));
                    if i == 0 {
                        assert(out@ =~= d@);
                    }
                }
                i = i + 1;
            }
            proof {
                assert(all.take(i as int) =~= all);
            }
            text::cat3("List([", out.as_str(), "])")
        },
        Value::Mapping(m) => {
            let mut out = String::new();
            let ghost all = pairs_view(m.entries@);
            let mut i: usize = 0;
            proof {
                lemma_pairs_view(m.entries@);
                assert(all.take(0) =~= Seq::<(Seq<char>, ValueView)>::empty());
                assert(out@ =~= Seq::<char>::empty());
            }
            while i < m.entries.len()
                invariant
                    i <= m.entries@.len() == all.len(),
                    all == pairs_view(m.entries@),
                    forall|j: int|
                        0 <= j < all.len() ==> #[trigger] all[j] == (
                            m.entries@[j].0@,
                            value_view(m.entries@[j].1),
                        ),
                    out@ == map_debug(all.take(i as int)),
                decreases m.entries@.len() - i,
            {
                let ghost before = out@;
                let k = text::debug_text(m.entries[i].0.as_str());
                let d = debug_value(&m.entries[i].1);
                let e = text::cat3(k.as_str(), ": ", d.as_str());
                if i > 0 {
                    out.append(", ");
                }
                out.append(e.as_str());
                proof {
                    let t = all.take(i + 1);
                    assert(t.drop_last() =~= all.take(i as int));
                    assert(t.last() == all[i as int]);
                    if i == 0 {
                        assert(out@ =~= e@);
                    }
                }
                i = i + 1;
            }
            proof {
                assert(all.take(i as int) =~= all);
            }
            text::cat3("Map({", out.as_str(), "})")
        },
    }
}

/// A value of the front matter as a column shows it.
pub open spec fn shown_value(v: ValueView) -> Seq<char> {
    match v {
        ValueView::Number(n) => n.display,
        ValueView::Bool(b) => bool_text(b),
        ValueView::Text(s) => s,
        _ => value_debug(v),
    }
}

fn show_value(v: &Value) -> (r: String)
    ensures
        r@ == shown_value(v@),
{
    match v {
        Value::Number(n) => text::copy(n.display.as_str()),
        Value::Bool(b) => text::copy(bool_name(*b)),
        Value::String(s) => text::copy(s.as_str()),
        _ => debug_value(v),
    }
}

pub open spec fn after_prefix(s: Seq<char>, p: Seq<char>) -> Seq<char> {
    if text::has_prefix(s, p) {
        s.skip(p.len() as int)
    } else {
        s
    }
}

pub open spec fn before_suffix(s: Seq<char>, p: Seq<char>) -> Seq<char> {
    if text::has_suffix(s, p) {
        s.take(s.len() - p.len())
    } else {
        s
    }
}

/// The target that a field's value links to: without brackets and displayed text.
pub open spec fn link_target(value: Seq<char>) -> Seq<char> {
    let v = before_suffix(after_prefix(trimmed(value), "[["@), "]]"@);
    text::split(v, '|')[0]
}

fn target_of(value: &str) -> (r: String)
    ensures
        r@ == link_target(value@),
{
    let t = text::trim(value);
    let a = match text::strip_prefix(t.as_str(), "[[") {
        Some(s) => s,
        None => t,
    };
    let b = if text::ends_with(a.as_str(), "]]") {
        let cs = text::chars(a.as_str());
        let ps = text::chars("]]");
        let n: usize = cs.len() - ps.len();
        let s = text::slice(&cs, 0, n);
        proof {
            assert(s@ =~= a@.take(a@.len() - "]]"@.len()));
        }
        s
    } else {
        a
    };
    let parts = text::split_on(b.as_str(), '|');
    proof {
        text::lemma_split_nonempty(b@, '|');
        assert(texts(parts@)[0] == parts@[0]@);
    }
    text::copy(parts[0].as_str())
}

/// The value of the first field of a key.
pub open spec fn field_value(fs: Seq<FieldView>, key: Seq<char>) -> Option<Seq<char>>
    decreases fs.len(),
{
    if fs.len() == 0 {
        None
    } else if fs[0].key == key {
        Some(fs[0].value)
    } else {
        field_value(fs.drop_first(), key)
    }
}

/// The value of a column in the row that a note holds.
pub open spec fn cell(z: ZettelView, c: ColumnView) -> Seq<char> {
    match zone_of_column(c) {
        Zone::Reference => match field_value(z.fields, c.name) {
            Some(v) => link_target(v),
            None => Seq::empty(),
        },
        Zone::Frontmatter => match lookup(z.meta.extra, c.name) {
            Some(v) => shown_value(v),
            None => Seq::empty(),
        },
        Zone::Body => section_in(lines(z.body), c.name),
    }
}

fn nothing() -> (r: String)
    ensures
        r@ == Seq::<char>::empty(),
{
    let s = String::new();
    proof {
        assert(s@ =~= Seq::<char>::empty());
    }
    s
}

/// The value of a column in the row that a note holds, by the column's zone.
pub fn extract_column_value(zettel: &ParsedZettel, col: &ColumnDef) -> (r: String)
    ensures
        r@ == cell(zettel@, col@),
{
    match effective_zone(col) {
        Zone::Reference => {
            let ghost all = inline_view(zettel.inline_fields@);
            let mut i: usize = 0;
            proof {
                assert(all.skip(0) =~= all);
            }
            while i < zettel.inline_fields.len()
                invariant
                    i <= zettel.inline_fields@.len(),
                    all == inline_view(zettel.inline_fields@),
                    field_value(all.skip(i as int), col@.name) == field_value(all, col@.name),
                decreases zettel.inline_fields@.len() - i,
            {
                proof {
                    assert(all.skip(i as int)[0] == zettel.inline_fields@[i as int]@);
                    assert(all.skip(i as int).drop_first() =~= all.skip(i + 1));
                }
                if text::same(zettel.inline_fields[i].key.as_str(), col.name.as_str()) {
                    return target_of(zettel.inline_fields[i].value.as_str());
                }
                i = i + 1;
            }
            nothing()
        },
        Zone::Frontmatter => {
            proof {
                lemma_fields_lookup(zettel.meta.extra, col@.name);
            }
            match zettel.meta.extra.get(col.name.as_str()) {
                Some(v) => show_value(v),
                None => nothing(),
            }
        },
        Zone::Body => extract_body_section(zettel.body.as_str(), col.name.as_str()),
    }
}

// ---------------------------------------------------------------------------
// Types of values
// ---------------------------------------------------------------------------
/// Two to the power of 63 as a floating-point number is shown.
pub const LARGEST_WHOLE: u64 = 9223372036854776000;

/// Whether a floating-point number, as it is shown, is a whole number within
/// the range of 64-bit integers.
pub open spec fn is_whole(shown: Seq<char>) -> bool {
    let d = if shown.len() > 0 && shown[0] == '-' {
        shown.drop_first()
    } else {
        shown
    };
    d.len() > 0 && text::scanned(d, LARGEST_WHOLE as int) is Ok
}

/// The data type that a value suggests.
pub open spec fn type_of_value(v: ValueView) -> Seq<char> {
    match v {
        ValueView::Bool(_) => "BOOLEAN"@,
        ValueView::Number(n) => if is_whole(n.display) {
            "INTEGER"@
        } else {
            "REAL"@
        },
        ValueView::Text(s) => if text::parsed_signed(s) is Some {
            "INTEGER"@
        } else if real_written(s) is Some {
            "REAL"@
        } else if s == "true"@ || s == "false"@ {
            "BOOLEAN"@
        } else {
            "TEXT"@
        },
        _ => "TEXT"@,
    }
}

fn whole(shown: &str) -> (r: bool)
    ensures
        r == is_whole(shown@),
{
    let cs = text::chars(shown);
    let n: usize = cs.len();
    let start: usize = if n > 0 && cs[0] == '-' {
        1
    } else {
        0
    };
    if start >= n {
        return false;
    }
    proof {
        assert(cs@.skip(1) =~= shown@.drop_first());
        assert(cs@.skip(0) =~= shown@);
    }
    match text::scan(&cs, start, LARGEST_WHOLE) {
        Ok(_) => true,
        Err(_) => false,
    }
}

/// The data type that a value suggests.
pub fn infer_yaml_type(value: &Value) -> (r: String)
    ensures
        r@ == type_of_value(value@),
{
    match value {
        Value::Bool(_) => text::copy("BOOLEAN"),
        Value::Number(n) => if whole(n.display.as_str()) {
            text::copy("INTEGER")
        } else {
            text::copy("REAL")
        },
        Value::String(s) => {
            if text::parse_signed(s.as_str()).is_some() {
                text::copy("INTEGER")
            } else if real_from_text(s.as_str()).is_some() {
                text::copy("REAL")
            } else if text::same(s.as_str(), "true") || text::same(s.as_str(), "false") {
                text::copy("BOOLEAN")
            } else {
                text::copy("TEXT")
            }
        },
        _ => text::copy("TEXT"),
    }
}

pub open spec fn all_are(ts: Seq<Seq<char>>, t: Seq<char>) -> bool {
    forall|i: int| 0 <= i < ts.len() ==> #[trigger] ts[i] == t
}

pub open spec fn all_numbers(ts: Seq<Seq<char>>) -> bool {
    forall|i: int| 0 <= i < ts.len() ==> #[trigger] ts[i] == "INTEGER"@ || ts[i] == "REAL"@
}

/// The type that covers some types: the one they all are, the wider of the two
/// numeric ones, else text.
pub open spec fn widened(ts: Seq<Seq<char>>) -> Seq<char> {
    if ts.len() == 0 {
        "TEXT"@
    } else if all_are(ts, ts[0]) {
        ts[0]
    } else if all_numbers(ts) {
        "REAL"@
    } else {
        "TEXT"@
    }
}

pub fn widen_types(types: &Vec<String>) -> (r: String)
    ensures
        r@ == widened(texts(types@)),
{
    let ghost all = texts(types@);
    if types.len() == 0 {
        return text::copy("TEXT");
    }
    let mut same = true;
    let mut numbers = true;
    let mut i: usize = 0;
    proof {
        assert(all[0] == types@[0]@);
    }
    while i < types.len()
        invariant
            i <= types@.len(),
            all == texts(types@),
            types@.len() > 0,
            same == all_are(all.take(i as int), all[0]),
            numbers == all_numbers(all.take(i as int)),
        decreases types@.len() - i,
    {
        proof {
            let p = all.take(i as int);
            let q = all.take(i + 1);
            assert(q =~= p.push(all[i as int]));
            assert(all[i as int] == types@[i as int]@);
            assert(q[i as int] == all[i as int]);
            assert forall|j: int| 0 <= j < i implies #[trigger] q[j] == p[j] by {
            }
        }
        let ghost same0 = same;
        let ghost numbers0 = numbers;
        if !text::same(types[i].as_str(), types[0].as_str()) {
            same = false;
        }
        if !text::same(types[i].as_str(), "INTEGER") && !text::same(types[i].as_str(), "REAL") {
            numbers = false;
        }
        proof {
            let p = all.take(i as int);
            let q = all.take(i + 1);
            if same0 && same {
                assert(all_are(q, all[0]));
            }
            if !same0 {
                let j = choose|j: int| 0 <= j < p.len() && #[trigger] p[j] != all[0];
                assert(q[j] == p[j]);
            }
            if numbers0 && numbers {
                assert(all_numbers(q));
            }
            if !numbers0 {
                let j = choose|j: int|
                    0 <= j < p.len() && !(#[trigger] p[j] == "INTEGER"@ || p[j] == "REAL"@);
                assert(q[j] == p[j]);
            }
        }
        i = i + 1;
    }
    proof {
        assert(all.take(i as int) =~= all);
    }
    if same {
        text::copy(types[0].as_str())
    } else if numbers {
        text::copy("REAL")
    } else {
        text::copy("TEXT")
    }
}

// ---------------------------------------------------------------------------
// Inferring a schema
// ---------------------------------------------------------------------------
/// What was seen of a column: its zone and the types of its values.
#[derive(Debug)]
pub struct Seen {
    pub zone: Zone,
    pub types: Vec<String>,
}

pub struct SeenView {
    pub zone: Zone,
    pub types: Seq<Seq<char>>,
}

impl View for Seen {
    type V = SeenView;

    open spec fn view(&self) -> SeenView {
        SeenView { zone: self.zone, types: texts(self.types@) }
    }
}

pub type SeenColumns = Seq<(Seq<char>, SeenView)>;

/// A type seen for a column; the zone is that of the first sight.
pub open spec fn saw(m: SeenColumns, key: Seq<char>, zone: Zone, t: Seq<char>) -> SeenColumns {
    match lookup(m, key) {
        Some(s) => put(m, key, SeenView { zone: s.zone, types: s.types.push(t) }),
        None => put(m, key, SeenView { zone, types: seq![t] }),
    }
}

/// A heading seen: a text column of the body, where nothing was seen before.
pub open spec fn saw_heading(m: SeenColumns, key: Seq<char>) -> SeenColumns {
    match lookup(m, key) {
        Some(_) => m,
        None => put(m, key, SeenView { zone: Zone::Body, types: seq!["TEXT"@] }),
    }
}

pub open spec fn saw_extras(m: SeenColumns, e: Fields) -> SeenColumns
    decreases e.len(),
{
    if e.len() == 0 {
        m
    } else {
        saw(
            saw_extras(m, e.drop_last()),
            text::lowered(e.last().0),
            Zone::Frontmatter,
            type_of_value(e.last().1),
        )
    }
}

pub open spec fn saw_headings(m: SeenColumns, hs: Seq<Seq<char>>) -> SeenColumns
    decreases hs.len(),
{
    if hs.len() == 0 {
        m
    } else {
        saw_heading(saw_headings(m, hs.drop_last()), text::lowered(hs.last()))
    }
}

pub open spec fn saw_fields(m: SeenColumns, fs: Seq<FieldView>) -> SeenColumns
    decreases fs.len(),
{
    if fs.len() == 0 {
        m
    } else {
        let p = saw_fields(m, fs.drop_last());
        if fs.last().zone == Zone::Reference {
            saw(p, text::lowered(fs.last().key), Zone::Reference, "TEXT"@)
        } else {
            p
        }
    }
}

/// What a note adds to what was seen.
pub open spec fn saw_note(m: SeenColumns, z: ZettelView) -> SeenColumns {
    saw_fields(
        saw_headings(saw_extras(m, z.meta.extra), heading_names(lines(z.body))),
        z.fields,
    )
}

pub open spec fn saw_notes(zs: Seq<ZettelView>) -> SeenColumns
    decreases zs.len(),
{
    if zs.len() == 0 {
        Seq::empty()
    } else {
        saw_note(saw_notes(zs.drop_last()), zs.last())
    }
}

pub open spec fn inferred_column(e: (Seq<char>, SeenView)) -> ColumnView {
    ColumnView {
        name: e.0,
        data_type: widened(e.1.types),
        references: None,
        zone: Some(e.1.zone),
        required: false,
        search_boost: None,
        allowed_values: None,
        default_value: None,
    }
}

/// The schema that the notes of a type suggest: a column for each key that they
/// have, in the order of the names.
pub open spec fn inferred_schema(name: Seq<char>, zs: Seq<ZettelView>) -> SchemaView {
    let m = saw_notes(zs);
    SchemaView {
        table_name: name,
        columns: Seq::new(m.len(), |i: int| inferred_column(m[i])),
        crdt_strategy: None,
        template_sections: Seq::empty(),
    }
}

pub open spec fn notes_view(s: Seq<ParsedZettel>) -> Seq<ZettelView> {
    Seq::new(s.len(), |i: int| s[i]@)
}

fn see(m: &mut TextMap<Seen>, key: String, zone: Zone, t: String)
    ensures
        mapped(final(m)@) == saw(mapped(old(m)@), key@, zone, t@),
        old(m).sorted() ==> final(m).sorted(),
{
    proof {
        textmap::lemma_mapped(m@, key@);
    }
    let mut types: Vec<String> = Vec::new();
    let mut z = zone;
    if let Some(s) = m.get(key.as_str()) {
        types = text::copy_all(&s.types);
        z = s.zone;
    } else {
        proof {
            assert(texts(types@) =~= Seq::<Seq<char>>::empty());
        }
    }
    proof {
        text::lemma_texts_push(types@, t);
        assert(Seq::<Seq<char>>::empty().push(t@) =~= seq![t@]);
    }
    types.push(t);
    let s = Seen { zone: z, types };
    proof {
        textmap::lemma_mapped_put(m@, key@, s);
    }
    m.insert(key, s);
}

fn see_heading(m: &mut TextMap<Seen>, key: String)
    ensures
        mapped(final(m)@) == saw_heading(mapped(old(m)@), key@),
        old(m).sorted() ==> final(m).sorted(),
{
    proof {
        textmap::lemma_mapped(m@, key@);
    }
    if !m.contains_key(key.as_str()) {
        let mut types: Vec<String> = Vec::new();
        types.push(text::copy("TEXT"));
        let s = Seen { zone: Zone::Body, types };
        proof {
            assert(s@.types =~= seq!["TEXT"@]);
            textmap::lemma_mapped_put(m@, key@, s);
        }
        m.insert(key, s);
    }
}

fn see_note(m: &mut TextMap<Seen>, z: &ParsedZettel)
    ensures
        mapped(final(m)@) == saw_note(mapped(old(m)@), z@),
        old(m).sorted() ==> final(m).sorted(),
{
    let ghost m0 = mapped(m@);
    let ghost sorted = m.sorted();
    let ghost ex = fields_view(z.meta.extra);
    let mut i: usize = 0;
    proof {
        lemma_pairs_view(z.meta.extra.entries@);
        assert(ex.take(0) =~= Seq::<(Seq<char>, ValueView)>::empty());
    }
    while i < z.meta.extra.entries.len()
        invariant
            i <= z.meta.extra.entries@.len() == ex.len(),
            forall|j: int|
                0 <= j < ex.len() ==> #[trigger] ex[j] == (
                    z.meta.extra.entries@[j].0@,
                    z.meta.extra.entries@[j].1@,
                ),
            mapped(m@) == saw_extras(m0, ex.take(i as int)),
            sorted ==> m.sorted(),
        decreases z.meta.extra.entries@.len() - i,
    {
        let key = text::to_lower(z.meta.extra.entries[i].0.as_str());
        let t = infer_yaml_type(&z.meta.extra.entries[i].1);
        proof {
            let p = ex.take(i + 1);
            assert(p.drop_last() =~= ex.take(i as int));
            assert(p.last() == ex[i as int]);
        }
        see(m, key, Zone::Frontmatter, t);
        i = i + 1;
    }
    proof {
        assert(ex.take(i as int) =~= ex);
    }
    let hs = extract_body_headings(z.body.as_str());
    let ghost hv = texts(hs@);
    let ghost m1 = mapped(m@);
    let mut j: usize = 0;
    proof {
        assert(hv.take(0) =~= Seq::<Seq<char>>::empty());
    }
    while j < hs.len()
        invariant
            j <= hs@.len(),
            hv == texts(hs@),
            mapped(m@) == saw_headings(m1, hv.take(j as int)),
            sorted ==> m.sorted(),
        decreases hs@.len() - j,
    {
        proof {
            let p = hv.take(j + 1);
            assert(p.drop_last() =~= hv.take(j as int));
            assert(p.last() == hs@[j as int]@);
        }
        see_heading(m, text::to_lower(hs[j].as_str()));
        j = j + 1;
    }
    proof {
        assert(hv.take(j as int) =~= hv);
    }
    let ghost fv = inline_view(z.inline_fields@);
    let ghost m2 = mapped(m@);
    let mut k: usize = 0;
    proof {
        assert(fv.take(0) =~= Seq::<FieldView>::empty());
    }
    while k < z.inline_fields.len()
        invariant
            k <= z.inline_fields@.len(),
            fv == inline_view(z.inline_fields@),
            mapped(m@) == saw_fields(m2, fv.take(k as int)),
            sorted ==> m.sorted(),
        decreases z.inline_fields@.len() - k,
    {
        proof {
            let p = fv.take(k + 1);
            assert(p.drop_last() =~= fv.take(k as int));
            assert(p.last() == z.inline_fields@[k as int]@);
        }
        if z.inline_fields[k].zone == Zone::Reference {
            let key = text::to_lower(z.inline_fields[k].key.as_str());
            see(m, key, Zone::Reference, text::copy("TEXT"));
        }
        k = k + 1;
    }
    proof {
        assert(fv.take(k as int) =~= fv);
    }
}

/// Infers the schema of a type from its notes.
pub fn infer_schema(name: &str, notes: &Vec<ParsedZettel>) -> (r: TableSchema)
    ensures
        r@ == inferred_schema(name@, notes_view(notes@)),
        text::ascending(Seq::new(r@.columns.len(), |i: int| r@.columns[i].name)),
{
    let ghost zs = notes_view(notes@);
    let mut m: TextMap<Seen> = TextMap::new();
    let mut i: usize = 0;
    proof {
        assert(mapped(m@) =~= Seq::<(Seq<char>, SeenView)>::empty());
        assert(zs.take(0) =~= Seq::<ZettelView>::empty());
    }
    while i < notes.len()
        invariant
            i <= notes@.len(),
            zs == notes_view(notes@),
            mapped(m@) == saw_notes(zs.take(i as int)),
            m.sorted(),
        decreases notes@.len() - i,
    {
        proof {
            let p = zs.take(i + 1);
            assert(p.drop_last() =~= zs.take(i as int));
            assert(p.last() == notes@[i as int]@);
        }
        see_note(&mut m, &notes[i]);
        i = i + 1;
    }
    let ghost mv = mapped(m@);
    let ghost goal = Seq::new(mv.len(), |j: int| inferred_column(mv[j]));
    let mut columns: Vec<ColumnDef> = Vec::new();
    let mut k: usize = 0;
    proof {
        assert(zs.take(i as int) =~= zs);
        assert(columns_view(columns@) =~= goal.take(0));
    }
    while k < m.entries.len()
        invariant
            k <= m.entries@.len() == mv.len(),
            mv == mapped(m@),
            goal == Seq::new(mv.len(), |j: int| inferred_column(mv[j])),
            columns_view(columns@) == goal.take(k as int),
        decreases m.entries@.len() - k,
    {
        let c = ColumnDef {
            name: text::copy(m.entries[k].0.as_str()),
            data_type: widen_types(&m.entries[k].1.types),
            references: None,
            zone: Some(m.entries[k].1.zone),
            required: false,
            search_boost: None,
            allowed_values: None,
            default_value: None,
        };
        let ghost before = columns@;
        columns.push(c);
        proof {
            assert(mv[k as int] == (m.entries@[k as int].0@, m.entries@[k as int].1@));
            assert(c@ == inferred_column(mv[k as int]));
            assert(columns_view(columns@) =~= columns_view(before).push(c@));
            assert(goal.take(k + 1) =~= goal.take(k as int).push(goal[k as int]));
        }
        k = k + 1;
    }
    let r = TableSchema {
        table_name: text::copy(name),
        columns,
        crdt_strategy: None,
        template_sections: Vec::new(),
    };
    proof {
        assert(goal.take(k as int) =~= goal);
        assert(r@.template_sections =~= Seq::<Seq<char>>::empty());
        textmap::lemma_mapped(m@, Seq::<char>::empty());
        let names = Seq::new(r@.columns.len(), |j: int| r@.columns[j].name);
        assert(names =~= textmap::keys(mv));
    }
    r
}

/// The columns that a list does not have by name.
pub open spec fn new_columns(have: Seq<ColumnView>, more: Seq<ColumnView>) -> Seq<ColumnView>
    decreases more.len(),
{
    if more.len() == 0 {
        Seq::empty()
    } else if find_column(have, more.last().name) is Some {
        new_columns(have, more.drop_last())
    } else {
        new_columns(have, more.drop_last()).push(more.last())
    }
}

/// A schema given and one inferred, merged: the given columns come first and
/// stay as they are, inferred ones fill the gaps.
pub open spec fn merged_schema(given: Option<SchemaView>, inferred: SchemaView) -> SchemaView {
    match given {
        None => inferred,
        Some(g) => SchemaView {
            columns: g.columns + new_columns(g.columns, inferred.columns),
            ..g
        },
    }
}

pub open spec fn opt_schema(o: Option<TableSchema>) -> Option<SchemaView> {
    match o {
        Some(s) => Some(s@),
        None => None,
    }
}

pub fn merge_schemas(typedef: Option<TableSchema>, inferred: TableSchema) -> (r: TableSchema)
    ensures
        r@ == merged_schema(opt_schema(typedef), inferred@),
{
    let td = match typedef {
        None => {
            return inferred;
        },
        Some(td) => td,
    };
    let ghost have = columns_view(td.columns@);
    let ghost more = columns_view(inferred.columns@);
    let mut columns = copy_columns(&td.columns);
    let mut i: usize = 0;
    proof {
        assert(more.take(0) =~= Seq::<ColumnView>::empty());
        assert(have + Seq::<ColumnView>::empty() =~= have);
    }
    while i < inferred.columns.len()
        invariant
            i <= inferred.columns@.len(),
            have == columns_view(td.columns@),
            more == columns_view(inferred.columns@),
            columns_view(columns@) == have + new_columns(have, more.take(i as int)),
        decreases inferred.columns@.len() - i,
    {
        proof {
            let t = more.take(i + 1);
            assert(t.drop_last() =~= more.take(i as int));
            assert(t.last() == inferred.columns@[i as int]@);
        }
        if seek_column(&td.columns, inferred.columns[i].name.as_str()).is_none() {
            let c = inferred.columns[i].copy();
            let ghost before = columns@;
            columns.push(c);
            proof {
                assert(columns_view(columns@) =~= columns_view(before).push(c@));
                let p = new_columns(have, more.take(i as int));
                assert((have + p).push(c@) =~= have + p.push(c@));
            }
        }
        i = i + 1;
    }
    proof {
        assert(more.take(i as int) =~= more);
    }
    TableSchema {
        table_name: td.table_name,
        columns,
        crdt_strategy: td.crdt_strategy,
        template_sections: td.template_sections,
    }
}

// ---------------------------------------------------------------------------
// Warnings
// ---------------------------------------------------------------------------
/// The keys that are in the front matter and in the reference section.
pub open spec fn duplicates(path: Seq<char>, extra: Fields, fs: Seq<FieldView>) -> Seq<WarningView>
    decreases fs.len(),
{
    if fs.len() == 0 {
        Seq::empty()
    } else {
        let p = duplicates(path, extra, fs.drop_last());
        let f = fs.last();
        if f.zone == Zone::Reference && lookup(extra, f.key) is Some {
            p.push(WarningView::CrossZoneDuplicate { path, key: f.key })
        } else {
            p
        }
    }
}

pub open spec fn has_field(fs: Seq<FieldView>, key: Seq<char>) -> bool {
    exists|i: int| 0 <= i < fs.len() && (#[trigger] fs[i]).key == key
}

/// Whether a note has a value for a column.
pub open spec fn has_cell(z: ZettelView, c: ColumnView) -> bool {
    match c.zone {
        Some(Zone::Reference) => has_field(z.fields, c.name),
        Some(Zone::Body) => text::has_part(z.body, heading_of(c.name)),
        _ => lookup(z.meta.extra, c.name) is Some,
    }
}

/// The required columns for which a note has no value.
pub open spec fn missing_cells(
    path: Seq<char>,
    z: ZettelView,
    zettel_type: Seq<char>,
    cs: Seq<ColumnView>,
) -> Seq<WarningView>
    decreases cs.len(),
{
    if cs.len() == 0 {
        Seq::empty()
    } else {
        let p = missing_cells(path, z, zettel_type, cs.drop_last());
        let c = cs.last();
        if c.required && !has_cell(z, c) {
            p.push(WarningView::MissingRequired { path, zettel_type, field: c.name })
        } else {
            p
        }
    }
}

/// The warnings about a note.
pub open spec fn note_warnings_view(
    path: Seq<char>,
    parsed: Result<ZettelView, ErrorView>,
    typedefs: Seq<(Seq<char>, SchemaView)>,
) -> Seq<WarningView> {
    match parsed {
        Err(e) => seq![WarningView::MalformedYaml { path, error: error_text(e) }],
        Ok(z) => duplicates(path, z.meta.extra, z.fields) + match z.meta.zettel_type {
            None => Seq::empty(),
            Some(t) => match lookup(typedefs, t) {
                None => Seq::empty(),
                Some(s) => missing_cells(path, z, t, s.columns),
            },
        },
    }
}

pub open spec fn all_warnings(
    notes: Seq<(Seq<char>, Seq<char>)>,
    typedefs: Seq<(Seq<char>, SchemaView)>,
) -> Seq<WarningView>
    decreases notes.len(),
{
    if notes.len() == 0 {
        Seq::empty()
    } else {
        all_warnings(notes.drop_last(), typedefs) + note_warnings_view(
            notes.last().0,
            parsed_zettel(notes.last().1, notes.last().0),
            typedefs,
        )
    }
}

pub open spec fn result_view(r: Result<ParsedZettel, ZettelError>) -> Result<
    ZettelView,
    ErrorView,
> {
    match r {
        Ok(z) => Ok(z@),
        Err(e) => Err(e@),
    }
}

fn cell_present(z: &ParsedZettel, c: &ColumnDef) -> (r: bool)
    ensures
        r == has_cell(z@, c@),
{
    match c.zone {
        Some(Zone::Reference) => {
            let ghost all = inline_view(z.inline_fields@);
            let mut i: usize = 0;
            while i < z.inline_fields.len()
                invariant
                    i <= z.inline_fields@.len(),
                    all == inline_view(z.inline_fields@),
                    forall|j: int| 0 <= j < i ==> (#[trigger] all[j]).key != c@.name,
                decreases z.inline_fields@.len() - i,
            {
                proof {
                    assert(all[i as int] == z.inline_fields@[i as int]@);
                }
                if text::same(z.inline_fields[i].key.as_str(), c.name.as_str()) {
                    return true;
                }
                i = i + 1;
            }
            false
        },
        Some(Zone::Body) => {
            let h = text::cat("## ", c.name.as_str());
            text::contains_part(z.body.as_str(), h.as_str())
        },
        _ => {
            proof {
                lemma_fields_lookup(z.meta.extra, c@.name);
            }
            z.meta.extra.contains_key(c.name.as_str())
        },
    }
}

fn push_warning(out: &mut Vec<ConsistencyWarning>, w: ConsistencyWarning)
    ensures
        warnings_view(final(out)@) == warnings_view(old(out)@).push(w@),
{
    let ghost before = out@;
    out.push(w);
    proof {
        assert(warnings_view(out@) =~= warnings_view(before).push(w@));
    }
}

/// Adds the warnings about a note that was read, or could not be.
pub fn note_warnings(
    out: &mut Vec<ConsistencyWarning>,
    path: &str,
    parsed: &Result<ParsedZettel, ZettelError>,
    typedefs: &TextMap<TableSchema>,
)
    ensures
        warnings_view(final(out)@) == warnings_view(old(out)@) + note_warnings_view(
            path@,
            result_view(*parsed),
            mapped(typedefs@),
        ),
{
    let ghost before = warnings_view(out@);
    let z = match parsed {
        Err(e) => {
            push_warning(
                out,
                ConsistencyWarning::MalformedYaml { path: text::copy(path), error: e.message() },
            );
            proof {
                assert(warnings_view(out@) =~= before + note_warnings_view(
                    path@,
                    result_view(*parsed),
                    mapped(typedefs@),
                ));
            }
            return;
        },
        Ok(z) => z,
    };
    let ghost zv = z@;
    let ghost fs = zv.fields;
    let mut i: usize = 0;
    proof {
        assert(fs.take(0) =~= Seq::<FieldView>::empty());
        assert(before + Seq::<WarningView>::empty() =~= before);
    }
    while i < z.inline_fields.len()
        invariant
            i <= z.inline_fields@.len(),
            fs == inline_view(z.inline_fields@),
            zv == z@,
            warnings_view(out@) == before + duplicates(path@, zv.meta.extra, fs.take(i as int)),
        decreases z.inline_fields@.len() - i,
    {
        let f = &z.inline_fields[i];
        proof {
            let t = fs.take(i + 1);
            assert(t.drop_last() =~= fs.take(i as int));
            assert(t.last() == f@);
            lemma_fields_lookup(z.meta.extra, f@.key);
        }
        if f.zone == Zone::Reference && z.meta.extra.contains_key(f.key.as_str()) {
            let ghost now = duplicates(path@, zv.meta.extra, fs.take(i as int));
            let w = ConsistencyWarning::CrossZoneDuplicate {
                path: text::copy(path),
                key: text::copy(f.key.as_str()),
            };
            push_warning(out, w);
            proof {
                assert((before + now).push(w@) =~= before + now.push(w@));
            }
        }
        i = i + 1;
    }
    let ghost dups = duplicates(path@, zv.meta.extra, fs);
    proof {
        assert(fs.take(i as int) =~= fs);
        assert(before + dups + Seq::<WarningView>::empty() =~= before + (dups + Seq::<
            WarningView,
        >::empty()));
    }
    if let Some(t) = &z.meta.zettel_type {
        proof {
            textmap::lemma_mapped(typedefs@, t@);
        }
        if let Some(schema) = typedefs.get(t.as_str()) {
            let ghost cs = schema@.columns;
            let ghost head = warnings_view(out@);
            let mut k: usize = 0;
            proof {
                assert(cs.take(0) =~= Seq::<ColumnView>::empty());
                assert(head + Seq::<WarningView>::empty() =~= head);
            }
            while k < schema.columns.len()
                invariant
                    k <= schema.columns@.len(),
                    cs == columns_view(schema.columns@),
                    zv == z@,
                    warnings_view(out@) == head + missing_cells(
                        path@,
                        zv,
                        t@,
                        cs.take(k as int),
                    ),
                decreases schema.columns@.len() - k,
            {
                let c = &schema.columns[k];
                proof {
                    let p = cs.take(k + 1);
                    assert(p.drop_last() =~= cs.take(k as int));
                    assert(p.last() == c@);
                }
                if c.required && !cell_present(z, c) {
                    let ghost now = missing_cells(path@, zv, t@, cs.take(k as int));
                    let w = ConsistencyWarning::MissingRequired {
                        path: text::copy(path),
                        zettel_type: text::copy(t.as_str()),
                        field: text::copy(c.name.as_str()),
                    };
                    push_warning(out, w);
                    proof {
                        assert((head + now).push(w@) =~= head + now.push(w@));
                    }
                }
                k = k + 1;
            }
            proof {
                assert(cs.take(k as int) =~= cs);
                assert(before + dups + missing_cells(path@, zv, t@, cs) =~= before + (dups
                    + missing_cells(path@, zv, t@, cs)));
            }
        }
    }
}

pub open spec fn contents_view(s: Seq<(String, String)>) -> Seq<(Seq<char>, Seq<char>)> {
    Seq::new(s.len(), |i: int| (s[i].0@, s[i].1@))
}

/// The warnings about notes, given as path and content: notes that cannot be
/// read, keys in two zones, and required columns without a value.
pub fn collect_consistency_warnings(
    notes: &Vec<(String, String)>,
    typedefs: &TextMap<TableSchema>,
) -> (r: Vec<ConsistencyWarning>)
    ensures
        warnings_view(r@) == all_warnings(contents_view(notes@), mapped(typedefs@)),
{
    let ghost all = contents_view(notes@);
    let ghost tv = mapped(typedefs@);
    let mut out: Vec<ConsistencyWarning> = Vec::new();
    let mut i: usize = 0;
    proof {
        assert(all.take(0) =~= Seq::<(Seq<char>, Seq<char>)>::empty());
        assert(warnings_view(out@) =~= Seq::<WarningView>::empty());
    }
    while i < notes.len()
        invariant
            i <= notes@.len(),
            all == contents_view(notes@),
            tv == mapped(typedefs@),
            warnings_view(out@) == all_warnings(all.take(i as int), tv),
        decreases notes@.len() - i,
    {
        proof {
            let t = all.take(i + 1);
            assert(t.drop_last() =~= all.take(i as int));
            assert(t.last() == (notes@[i as int].0@, notes@[i as int].1@));
        }
        let parsed = parser::parse(notes[i].1.as_str(), notes[i].0.as_str());
        note_warnings(&mut out, notes[i].0.as_str(), &parsed, typedefs);
        i = i + 1;
    }
    proof {
        assert(all.take(i as int) =~= all);
    }
    out
}

/// The schemas that notes (path and content of each) define, by name. A note
/// that cannot be read, or that defines none, is passed over; of two with the
/// same name the later counts.
pub open spec fn defined_schemas(notes: Seq<(Seq<char>, Seq<char>)>) -> Seq<
    (Seq<char>, SchemaView),
>
    decreases notes.len(),
{
    if notes.len() == 0 {
        Seq::empty()
    } else {
        let before = defined_schemas(notes.drop_last());
        match parsed_zettel(notes.last().1, notes.last().0) {
            Err(_) => before,
            Ok(z) => match schema_of(z.meta) {
                Err(_) => before,
                Ok(s) => put(before, s.table_name, s),
            },
        }
    }
}

/// Reads the schemas that notes define.
pub fn load_all_typedefs(notes: &Vec<(String, String)>) -> (r: TextMap<TableSchema>)
    ensures
        mapped(r@) == defined_schemas(contents_view(notes@)),
        r.sorted(),
{
    let ghost all = contents_view(notes@);
    let mut out: TextMap<TableSchema> = TextMap::new();
    let mut i: usize = 0;
    proof {
        assert(all.take(0) =~= Seq::<(Seq<char>, Seq<char>)>::empty());
        assert(mapped(out@) =~= Seq::<(Seq<char>, SchemaView)>::empty());
    }
    while i < notes.len()
        invariant
            i <= notes@.len(),
            all == contents_view(notes@),
            mapped(out@) == defined_schemas(all.take(i as int)),
            out.sorted(),
        decreases notes@.len() - i,
    {
        proof {
            let t = all.take(i + 1);
            assert(t.drop_last() =~= all.take(i as int));
            assert(t.last() == (notes@[i as int].0@, notes@[i as int].1@));
        }
        if let Ok(z) = parse(notes[i].1.as_str(), notes[i].0.as_str()) {
            if let Ok(s) = schema_from_parsed(&z) {
                let name = text::copy(s.table_name.as_str());
                proof {
                    lemma_mapped_put(out@, name@, s);
                }
                out.insert(name, s);
            }
        }
        i = i + 1;
    }
    proof {
        assert(all.take(i as int) =~= all);
    }
    out
}

// ---------------------------------------------------------------------------
// Laws
// ---------------------------------------------------------------------------
/// The type that covers some types does not depend on their order, nor on how
/// often each occurs.
pub proof fn law_widened_by_members(a: Seq<Seq<char>>, b: Seq<Seq<char>>)
    requires
        a.len() > 0,
        b.len() > 0,
        forall|t: Seq<char>| #[trigger] a.contains(t) == b.contains(t),
    ensures
        widened(a) == widened(b),
{
    assert(a.contains(a[0]));
    assert(b.contains(b[0]));
    if all_are(a, a[0]) {
        assert forall|i: int| 0 <= i < b.len() implies #[trigger] b[i] == b[0] by {
            assert(b.contains(b[i]));
            assert(a.contains(b[i]));
            assert(a.contains(b[0]));
        }
    }
    if all_are(b, b[0]) {
        assert forall|i: int| 0 <= i < a.len() implies #[trigger] a[i] == a[0] by {
            assert(a.contains(a[i]));
            assert(b.contains(a[i]));
            assert(b.contains(a[0]));
        }
    }
    if all_numbers(a) {
        assert forall|i: int| 0 <= i < b.len() implies #[trigger] b[i] == "INTEGER"@ || b[i]
            == "REAL"@ by {
            assert(b.contains(b[i]));
            assert(a.contains(b[i]));
        }
    }
    if all_numbers(b) {
        assert forall|i: int| 0 <= i < a.len() implies #[trigger] a[i] == "INTEGER"@ || a[i]
            == "REAL"@ by {
            assert(a.contains(a[i]));
        }
    }
}

/// Whether a column of a name is there.
pub open spec fn has_column(cs: Seq<ColumnView>, name: Seq<char>) -> bool {
    exists|i: int| 0 <= i < cs.len() && (#[trigger] cs[i]).name == name
}

pub open spec fn distinct_names(cs: Seq<ColumnView>) -> bool {
    forall|i: int, j: int|
        0 <= i < j < cs.len() ==> (#[trigger] cs[i]).name != (#[trigger] cs[j]).name
}

proof fn lemma_found_column(cs: Seq<ColumnView>, name: Seq<char>)
    ensures
        find_column(cs, name) is Some == has_column(cs, name),
    decreases cs.len(),
{
    if cs.len() > 0 {
        let d = cs.drop_last();
        lemma_found_column(d, name);
        if has_column(d, name) {
            let i = choose|i: int| 0 <= i < d.len() && (#[trigger] d[i]).name == name;
            assert(cs[i].name == name);
        }
        if has_column(cs, name) {
            let i = choose|i: int| 0 <= i < cs.len() && (#[trigger] cs[i]).name == name;
            if i < d.len() {
                assert(d[i].name == name);
            }
        }
    }
}

proof fn lemma_new_columns(have: Seq<ColumnView>, more: Seq<ColumnView>)
    ensures
        forall|i: int|
            0 <= i < more.len() ==> has_column(have, (#[trigger] more[i]).name) || has_column(
                new_columns(have, more),
                more[i].name,
            ),
        forall|i: int|
            0 <= i < new_columns(have, more).len() ==> !has_column(
                have,
                (#[trigger] new_columns(have, more)[i]).name,
            ) && has_column(more, new_columns(have, more)[i].name),
        distinct_names(more) ==> distinct_names(new_columns(have, more)),
    decreases more.len(),
{
    if more.len() > 0 {
        let d = more.drop_last();
        let last = more.last();
        let before = new_columns(have, d);
        let r = new_columns(have, more);
        lemma_new_columns(have, d);
        lemma_found_column(have, last.name);
        assert forall|i: int| 0 <= i < more.len() implies has_column(have, (#[trigger] more[i]).name)
            || has_column(r, more[i].name) by {
            if i < d.len() {
                assert(d[i] == more[i]);
                if has_column(before, more[i].name) {
                    let k = choose|k: int|
                        0 <= k < before.len() && (#[trigger] before[k]).name == more[i].name;
                    assert(r[k] == before[k]);
                }
            } else if !has_column(have, last.name) {
                assert(r[before.len() as int] == last);
            }
        }
        assert forall|i: int| 0 <= i < r.len() implies !has_column(have, (#[trigger] r[i]).name)
            && has_column(more, r[i].name) by {
            if i < before.len() {
                assert(r[i] == before[i]);
                let k = choose|k: int| 0 <= k < d.len() && (#[trigger] d[k]).name == r[i].name;
                assert(more[k].name == r[i].name);
            } else {
                assert(more[more.len() - 1].name == r[i].name);
            }
        }
        if distinct_names(more) {
            assert forall|i: int, j: int| 0 <= i < j < d.len() implies (#[trigger] d[i]).name != (
            #[trigger] d[j]).name by {
                assert(d[i] == more[i] && d[j] == more[j]);
            }
            assert forall|i: int, j: int| 0 <= i < j < r.len() implies (#[trigger] r[i]).name != (
            #[trigger] r[j]).name by {
                assert(r[i] == before[i]);
                if j < before.len() {
                    assert(r[j] == before[j]);
                } else {
                    let k = choose|k: int|
                        0 <= k < d.len() && (#[trigger] d[k]).name == before[i].name;
                    assert(more[k] == d[k]);
                    assert(more[more.len() - 1].name != more[k].name);
                }
            }
        }
    }
}

/// A schema that is given wins over one that is inferred: its columns stay as
/// they are and come first, every inferred column is there too, and no column is
/// there twice unless it was twice in one of the two.
pub proof fn law_given_schema_wins(g: SchemaView, inferred: SchemaView)
    ensures
        ({
            let m = merged_schema(Some(g), inferred);
            &&& m.table_name == g.table_name
            &&& m.columns.take(g.columns.len() as int) == g.columns
            &&& forall|i: int|
                0 <= i < inferred.columns.len() ==> has_column(
                    m.columns,
                    (#[trigger] inferred.columns[i]).name,
                )
            &&& distinct_names(g.columns) && distinct_names(inferred.columns) ==> distinct_names(
                m.columns,
            )
        }),
{
    let m = merged_schema(Some(g), inferred);
    let more = new_columns(g.columns, inferred.columns);
    lemma_new_columns(g.columns, inferred.columns);
    assert(m.columns.take(g.columns.len() as int) =~= g.columns);
    assert forall|i: int| 0 <= i < inferred.columns.len() implies has_column(
        m.columns,
        (#[trigger] inferred.columns[i]).name,
    ) by {
        let name = inferred.columns[i].name;
        if has_column(g.columns, name) {
            let k = choose|k: int| 0 <= k < g.columns.len() && (#[trigger] g.columns[k]).name == name;
            assert(m.columns[k] == g.columns[k]);
        } else {
            let k = choose|k: int| 0 <= k < more.len() && (#[trigger] more[k]).name == name;
            assert(m.columns[g.columns.len() + k] == more[k]);
        }
    }
    if distinct_names(g.columns) && distinct_names(inferred.columns) {
        let n = g.columns.len();
        assert forall|i: int, j: int| 0 <= i < j < m.columns.len() implies (
        #[trigger] m.columns[i]).name != (#[trigger] m.columns[j]).name by {
            if i < n {
                assert(m.columns[i] == g.columns[i]);
                if j < n {
                    assert(m.columns[j] == g.columns[j]);
                } else {
                    assert(m.columns[j] == more[j - n]);
                }
            } else {
                assert(m.columns[i] == more[i - n] && m.columns[j] == more[j - n]);
            }
        }
    }
}

} // verus!
