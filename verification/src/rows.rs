//! Rows of tables as notes: building a note from column values, and changing
//! the values in one.
use crate::schema::{
    effective_zone, zone_of_column, Fields,
};
use crate::text::{self, join, lines, opt_text, texts, trimmed};
use crate::textmap::{self, lookup, mapped, put, TextMap};
use crate::types::{
    columns_view, fields_view, inline_view, lemma_fields_lookup, lemma_fields_put,
    lemma_fields_without, lemma_pairs_view, links_view, ColumnDef, ColumnView, FieldView,
    InlineField, LinkView, MetaView, ParsedZettel, SchemaView, TableSchema, Value, ValueView,
    WikiLink, ZettelId, ZettelMeta, ZettelView, Zone,
};
use crate::yaml::{real_from_i64, real_from_text, real_of_signed, real_written};
use vstd::prelude::*;

verus! {

broadcast use vstd::string::group_string_axioms;

/// Column values by name, as texts.
pub type Cells = Seq<(Seq<char>, Seq<char>)>;

// ---------------------------------------------------------------------------
// Values of columns
// ---------------------------------------------------------------------------
/// The value that a text stands for in a column of a data type: a number or a
/// truth value where the type asks for one and the text writes one.
pub open spec fn typed_value(val: Seq<char>, data_type: Seq<char>) -> ValueView {
    let t = text::uppered(data_type);
    if t == "INTEGER"@ {
        match text::parsed_signed(val) {
            Some(i) => ValueView::Number(real_of_signed(i)),
            None => ValueView::Text(val),
        }
    } else if t == "REAL"@ {
        match real_written(val) {
            Some(n) => ValueView::Number(n),
            None => ValueView::Text(val),
        }
    } else if t == "BOOLEAN"@ {
        let l = text::lowered(val);
        ValueView::Bool(l == "true"@ || l == "1"@ || l == "yes"@)
    } else {
        ValueView::Text(val)
    }
}

/// The value that a text stands for in a column of a data type.
pub fn to_yaml_value(val: &str, data_type: &str) -> (r: Value)
    ensures
        r@ == typed_value(val@, data_type@),
{
    let t = text::to_upper(data_type);
    if text::same(t.as_str(), "INTEGER") {
        match text::parse_signed(val) {
            Some(i) => Value::Number(real_from_i64(i)),
            None => Value::String(text::copy(val)),
        }
    } else if text::same(t.as_str(), "REAL") {
        match real_from_text(val) {
            Some(n) => Value::Number(n),
            None => Value::String(text::copy(val)),
        }
    } else if text::same(t.as_str(), "BOOLEAN") {
        let l = text::to_lower(val);
        Value::Bool(
            text::same(l.as_str(), "true") || text::same(l.as_str(), "1") || text::same(
                l.as_str(),
                "yes",
            ),
        )
    } else {
        Value::String(text::copy(val))
    }
}

// ---------------------------------------------------------------------------
// A row as a note
// ---------------------------------------------------------------------------
/// What the columns of a row put into each zone.
pub struct RowParts {
    pub extra: Fields,
    pub sections: Seq<Seq<char>>,
    pub refs: Seq<Seq<char>>,
    pub links: Seq<LinkView>,
    pub fields: Seq<FieldView>,
    pub title: Option<Seq<char>>,
}

pub open spec fn ref_line(name: Seq<char>, val: Seq<char>) -> Seq<char> {
    "- "@ + name + ":: [["@ + val + "]]"@
}

pub open spec fn section_text(name: Seq<char>, val: Seq<char>) -> Seq<char> {
    "## "@ + name + "\n\n"@ + val
}

/// The parts with one more column.
pub open spec fn with_cell(p: RowParts, c: ColumnView, val: Seq<char>) -> RowParts {
    match zone_of_column(c) {
        Zone::Reference => RowParts {
            refs: p.refs.push(ref_line(c.name, val)),
            links: p.links.push(LinkView { target: val, display: None, zone: Zone::Reference }),
            fields: p.fields.push(
                FieldView { key: c.name, value: "[["@ + val + "]]"@, zone: Zone::Reference },
            ),
            ..p
        },
        Zone::Frontmatter => RowParts {
            extra: put(p.extra, c.name, typed_value(val, c.data_type)),
            ..p
        },
        Zone::Body => RowParts {
            title: if p.title is None {
                Some(val)
            } else {
                p.title
            },
            sections: p.sections.push(section_text(c.name, val)),
            ..p
        },
    }
}

pub open spec fn row_parts(cs: Seq<ColumnView>, cells: Cells) -> RowParts
    decreases cs.len(),
{
    if cs.len() == 0 {
        RowParts {
            extra: Seq::empty(),
            sections: Seq::empty(),
            refs: Seq::empty(),
            links: Seq::empty(),
            fields: Seq::empty(),
            title: None,
        }
    } else {
        let p = row_parts(cs.drop_last(), cells);
        match lookup(cells, cs.last().name) {
            Some(val) => with_cell(p, cs.last(), val),
            None => p,
        }
    }
}

pub open spec fn row_body(sections: Seq<Seq<char>>) -> Seq<char> {
    if sections.len() == 0 {
        Seq::empty()
    } else {
        "\n"@ + join(sections, "\n\n"@) + "\n"@
    }
}

pub open spec fn row_reference(refs: Seq<Seq<char>>) -> Seq<char> {
    if refs.len() == 0 {
        Seq::empty()
    } else {
        join(refs, "\n"@) + "\n"@
    }
}

/// The note that holds a row.
pub open spec fn row_note(id: Seq<char>, s: SchemaView, cells: Cells) -> ZettelView {
    let p = row_parts(s.columns, cells);
    ZettelView {
        meta: MetaView {
            id: Some(id),
            title: p.title,
            date: None,
            zettel_type: Some(s.table_name),
            tags: Seq::empty(),
            extra: p.extra,
        },
        body: row_body(p.sections),
        reference: row_reference(p.refs),
        fields: p.fields,
        links: p.links,
        path: "zettelkasten/"@ + id + ".md"@,
    }
}

/// The note that holds a row of column values: each goes to the zone of its
/// column, and the first one in the body is the title.
pub fn build_data_zettel(
    id: &ZettelId,
    schema: &TableSchema,
    col_values: &TextMap<String>,
) -> (z: ParsedZettel)
    ensures
        z@ == row_note(id.0@, schema@, mapped(col_values@)),
{
    let ghost cs = schema@.columns;
    let ghost cells = mapped(col_values@);
    let mut extra: TextMap<Value> = TextMap::new();
    let mut sections: Vec<String> = Vec::new();
    let mut refs: Vec<String> = Vec::new();
    let mut wikilinks: Vec<WikiLink> = Vec::new();
    let mut inline_fields: Vec<InlineField> = Vec::new();
    let mut title: Option<String> = None;
    let mut i: usize = 0;
    proof {
        lemma_pairs_view(extra.entries@);
        assert(extra@.len() == extra.entries@.len());
        assert(fields_view(extra) =~= Seq::<(Seq<char>, ValueView)>::empty());
        assert(texts(sections@) =~= Seq::<Seq<char>>::empty());
        assert(texts(refs@) =~= Seq::<Seq<char>>::empty());
        assert(links_view(wikilinks@) =~= Seq::<LinkView>::empty());
        assert(inline_view(inline_fields@) =~= Seq::<FieldView>::empty());
        assert(cs.take(0) =~= Seq::<ColumnView>::empty());
    }
    while i < schema.columns.len()
        invariant
            i <= schema.columns@.len(),
            cs == columns_view(schema.columns@),
            cells == mapped(col_values@),
            ({
                let p = row_parts(cs.take(i as int), cells);
                &&& p.extra == fields_view(extra)
                &&& p.sections == texts(sections@)
                &&& p.refs == texts(refs@)
                &&& p.links == links_view(wikilinks@)
                &&& p.fields == inline_view(inline_fields@)
                &&& p.title == opt_text(title)
            }),
        decreases schema.columns@.len() - i,
    {
        let col = &schema.columns[i];
        let name = col.name.as_str();
        proof {
            let t = cs.take(i + 1);
            assert(t.drop_last() =~= cs.take(i as int));
            assert(t.last() == col@);
            textmap::lemma_mapped(col_values@, name@);
        }
        if let Some(v) = col_values.get(name) {
            let val = v.as_str();
            match effective_zone(col) {
                Zone::Reference => {
                    let mut line = text::cat3("- ", name, ":: [[");
                    line.append(val);
                    line.append("]]");
                    proof {
                        text::lemma_texts_push(refs@, line);
                    }
                    refs.push(line);
                    let link = WikiLink {
                        target: text::copy(val),
                        display: None,
                        zone: Zone::Reference,
                    };
                    let ghost lb = wikilinks@;
                    wikilinks.push(link);
                    let field = InlineField {
                        key: text::copy(name),
                        value: text::cat3("[[", val, "]]"),
                        zone: Zone::Reference,
                    };
                    let ghost fb = inline_fields@;
                    inline_fields.push(field);
                    proof {
                        assert(links_view(wikilinks@) =~= links_view(lb).push(link@));
                        assert(inline_view(inline_fields@) =~= inline_view(fb).push(field@));
                    }
                },
                Zone::Frontmatter => {
                    let value = to_yaml_value(val, col.data_type.as_str());
                    let ghost before = extra;
                    extra.insert(text::copy(name), value);
                    proof {
                        lemma_fields_put(before, extra, name@, value);
                    }
                },
                Zone::Body => {
                    if title.is_none() {
                        title = Some(text::copy(val));
                    }
                    let mut s = text::cat3("## ", name, "\n\n");
                    s.append(val);
                    proof {
                        text::lemma_texts_push(sections@, s);
                    }
                    sections.push(s);
                },
            }
        }
        i = i + 1;
    }
    proof {
        assert(cs.take(i as int) =~= cs);
    }
    let body = if sections.len() == 0 {
        let s = String::new();
        proof {
            assert(s@ =~= Seq::<char>::empty());
        }
        s
    } else {
        let j = text::join_all(&sections, "\n\n");
        text::cat3("\n", j.as_str(), "\n")
    };
    let reference_section = if refs.len() == 0 {
        let s = String::new();
        proof {
            assert(s@ =~= Seq::<char>::empty());
        }
        s
    } else {
        let j = text::join_all(&refs, "\n");
        text::cat(j.as_str(), "\n")
    };
    let meta = ZettelMeta {
        id: Some(ZettelId(id.to_text())),
        title,
        date: None,
        zettel_type: Some(text::copy(schema.table_name.as_str())),
        tags: Vec::new(),
        extra,
    };
    proof {
        assert(meta@.tags =~= Seq::<Seq<char>>::empty());
    }
    ParsedZettel {
        meta,
        body,
        reference_section,
        inline_fields,
        wikilinks,
        path: text::cat3("zettelkasten/", id.0.as_str(), ".md"),
    }
}

// ---------------------------------------------------------------------------
// Sections of a body
// ---------------------------------------------------------------------------
pub open spec fn heading_of(name: Seq<char>) -> Seq<char> {
    "## "@ + name
}

/// The first line at or after `i` that begins a section; `i` where it is past
/// the end.
pub open spec fn next_heading(ls: Seq<Seq<char>>, i: int) -> int
    decreases ls.len() - i,
{
    if i < 0 || i >= ls.len() || text::has_prefix(ls[i], "## "@) {
        i
    } else {
        next_heading(ls, i + 1)
    }
}

pub open spec fn blank_after(ls: Seq<Seq<char>>, i: int) -> bool {
    i + 1 < ls.len() && text::is_blank(ls[i + 1])
}

/// The lines from `i` on, with the value under each heading replaced: the
/// heading, a blank line where one followed, the value, and a blank line where
/// another section follows.
pub open spec fn section_replaced(
    ls: Seq<Seq<char>>,
    i: int,
    heading: Seq<char>,
    val: Seq<char>,
) -> Seq<Seq<char>>
    decreases ls.len() - i,
    when 0 <= i
{
    if i >= ls.len() {
        Seq::empty()
    } else if trimmed(ls[i]) == heading {
        let k = next_heading(ls, i + 1);
        seq![ls[i]] + (if blank_after(ls, i) {
            seq![Seq::<char>::empty()]
        } else {
            Seq::empty()
        }) + seq![val] + (if k < ls.len() {
            seq![Seq::<char>::empty()]
        } else {
            Seq::empty()
        }) + if i < k <= ls.len() {
            section_replaced(ls, k, heading, val)
        } else {
            Seq::empty()
        }
    } else {
        seq![ls[i]] + section_replaced(ls, i + 1, heading, val)
    }
}

pub open spec fn has_heading(ls: Seq<Seq<char>>, heading: Seq<char>) -> bool {
    exists|i: int| 0 <= i < ls.len() && trimmed(#[trigger] ls[i]) == heading
}

/// The lines of a body with the value of a section set; a section that is not
/// there is added at the end.
pub open spec fn with_section(ls: Seq<Seq<char>>, name: Seq<char>, val: Seq<char>) -> Seq<Seq<char>> {
    let h = heading_of(name);
    if has_heading(ls, h) {
        section_replaced(ls, 0, h, val)
    } else {
        ls + (if ls.len() > 0 && !text::is_blank(ls.last()) {
            seq![Seq::<char>::empty()]
        } else {
            Seq::empty()
        }) + seq![h, Seq::empty(), val]
    }
}

pub proof fn lemma_next_heading(ls: Seq<Seq<char>>, i: int)
    requires
        0 <= i,
    ensures
        next_heading(ls, i) >= i,
        forall|j: int|
            i <= j < next_heading(ls, i) ==> j < ls.len() && !text::has_prefix(
                #[trigger] ls[j],
                "## "@,
            ),
        next_heading(ls, i) < ls.len() ==> text::has_prefix(ls[next_heading(ls, i)], "## "@),
        i <= ls.len() ==> next_heading(ls, i) <= ls.len(),
    decreases ls.len() - i,
{
    if i < ls.len() && !text::has_prefix(ls[i], "## "@) {
        lemma_next_heading(ls, i + 1);
    }
}

fn push_copy(out: &mut Vec<String>, s: &str)
    ensures
        texts(final(out)@) == texts(old(out)@).push(s@),
{
    let c = text::copy(s);
    proof {
        text::lemma_texts_push(out@, c);
    }
    out.push(c);
}

/// Sets the value of a section of a body.
pub fn update_body_section(body: &mut String, section_name: &str, new_val: &str)
    ensures
        final(body)@ == join(with_section(lines(old(body)@), section_name@, new_val@), "\n"@),
{
    let heading = text::cat("## ", section_name);
    let ls = text::split_lines(body.as_str());
    let ghost all = lines(body@);
    let ghost h = heading_of(section_name@);
    let ghost goal = section_replaced(all, 0, h, new_val@);
    let n: usize = ls.len();
    let mut out: Vec<String> = Vec::new();
    let mut found = false;
    let mut i: usize = 0;
    proof {
        reveal_strlit("");
        assert(""@ =~= Seq::<char>::empty());
        assert(texts(out@) + goal =~= goal);
    }
    while i < n
        invariant
            n == ls@.len() == all.len(),
            all == texts(ls@),
            h == heading@,
            h == heading_of(section_name@),
            goal == section_replaced(all, 0, h, new_val@),
            found ==> has_heading(all, h),
            !found ==> texts(out@) == all.take(i as int) && i <= n && forall|j: int|
                0 <= j < i ==> trimmed(#[trigger] all[j]) != h,
            texts(out@) + section_replaced(all, i as int, h, new_val@) == goal,
            i <= n,
        decreases n - i,
    {
        let ghost before = texts(out@);
        let t = text::trim(ls[i].as_str());
        proof {
            assert(all[i as int] == ls@[i as int]@);
        }
        if text::same(t.as_str(), heading.as_str()) {
            found = true;
            let ghost start = i as int;
            let ghost k = next_heading(all, i + 1);
            proof {
                lemma_next_heading(all, i + 1);
            }
            push_copy(&mut out, ls[i].as_str());
            i = i + 1;
            if i < n {
                proof {
                    assert(all[i as int] == ls@[i as int]@);
                }
                if text::blank(ls[i].as_str()) {
                    push_copy(&mut out, "");
                }
            }
            while i < n && !text::starts_with(ls[i].as_str(), "## ")
                invariant
                    start < i <= n,
                    n == ls@.len() == all.len(),
                    all == texts(ls@),
                    k == next_heading(all, i as int),
                decreases n - i,
            {
                proof {
                    assert(all[i as int] == ls@[i as int]@);
                }
                i = i + 1;
            }
            if i < n {
                proof {
                    assert(all[i as int] == ls@[i as int]@);
                }
            }
            push_copy(&mut out, new_val);
            if i < n {
                push_copy(&mut out, "");
            }
            proof {
                assert(i == k);
                let rest = section_replaced(all, i as int, h, new_val@);
                assert(texts(out@) + rest =~= before + section_replaced(all, start, h, new_val@));
            }
        } else {
            push_copy(&mut out, ls[i].as_str());
            proof {
                let rest = section_replaced(all, i + 1, h, new_val@);
                assert(texts(out@) + rest =~= before + (seq![all[i as int]] + rest));
                assert(all.take(i + 1) =~= all.take(i as int).push(all[i as int]));
            }
            i = i + 1;
        }
    }
    proof {
        assert(texts(out@) + Seq::<Seq<char>>::empty() =~= texts(out@));
        assert(all.take(n as int) =~= all);
    }
    if !found {
        let m: usize = out.len();
        if m > 0 && !text::blank(out[m - 1].as_str()) {
            proof {
                assert(texts(out@).last() == out@[m - 1]@);
            }
            push_copy(&mut out, "");
        } else if m > 0 {
            proof {
                assert(texts(out@).last() == out@[m - 1]@);
            }
        }
        push_copy(&mut out, heading.as_str());
        push_copy(&mut out, "");
        push_copy(&mut out, new_val);
        proof {
            assert(texts(out@) =~= with_section(all, section_name@, new_val@));
        }
    }
    *body = text::join_all(&out, "\n");
}

// ---------------------------------------------------------------------------
// Lines of a reference section
// ---------------------------------------------------------------------------
pub open spec fn ref_prefix(key: Seq<char>) -> Seq<char> {
    "- "@ + key + "::"@
}

pub open spec fn has_ref(ls: Seq<Seq<char>>, key: Seq<char>) -> bool {
    exists|i: int| 0 <= i < ls.len() && text::has_prefix(#[trigger] ls[i], ref_prefix(key))
}

pub open spec fn refs_replaced(ls: Seq<Seq<char>>, key: Seq<char>, val: Seq<char>) -> Seq<Seq<char>> {
    Seq::new(
        ls.len(),
        |i: int|
            if text::has_prefix(ls[i], ref_prefix(key)) {
                ref_line(key, val)
            } else {
                ls[i]
            },
    )
}

/// The lines of a reference section with a reference set.
pub open spec fn with_ref(ls: Seq<Seq<char>>, key: Seq<char>, val: Seq<char>) -> Seq<Seq<char>> {
    if has_ref(ls, key) {
        refs_replaced(ls, key, val)
    } else {
        ls.push(ref_line(key, val))
    }
}

/// Sets a reference in a reference section.
pub fn update_reference_line(reference: &mut String, key: &str, new_val: &str)
    ensures
        final(reference)@ == join(with_ref(lines(old(reference)@), key@, new_val@), "\n"@) + "\n"@,
{
    let prefix = text::cat3("- ", key, "::");
    let mut new_line = text::cat3("- ", key, ":: [[");
    new_line.append(new_val);
    new_line.append("]]");
    let ls = text::split_lines(reference.as_str());
    let ghost all = lines(reference@);
    let ghost goal = refs_replaced(all, key@, new_val@);
    let mut out: Vec<String> = Vec::new();
    let mut found = false;
    let mut i: usize = 0;
    proof {
        assert(texts(out@) =~= goal.take(0));
    }
    while i < ls.len()
        invariant
            i <= ls@.len(),
            all == texts(ls@),
            goal == refs_replaced(all, key@, new_val@),
            prefix@ == ref_prefix(key@),
            new_line@ == ref_line(key@, new_val@),
            texts(out@) == goal.take(i as int),
            found ==> has_ref(all, key@),
            !found ==> texts(out@) == all.take(i as int) && forall|j: int|
                0 <= j < i ==> !text::has_prefix(#[trigger] all[j], ref_prefix(key@)),
        decreases ls@.len() - i,
    {
        proof {
            assert(all[i as int] == ls@[i as int]@);
            assert(goal.take(i + 1) =~= goal.take(i as int).push(goal[i as int]));
            assert(all.take(i + 1) =~= all.take(i as int).push(all[i as int]));
        }
        if text::starts_with(ls[i].as_str(), prefix.as_str()) {
            push_copy(&mut out, new_line.as_str());
            found = true;
        } else {
            push_copy(&mut out, ls[i].as_str());
        }
        i = i + 1;
    }
    proof {
        assert(goal.take(i as int) =~= goal);
        assert(all.take(i as int) =~= all);
    }
    if !found {
        push_copy(&mut out, new_line.as_str());
    }
    let j = text::join_all(&out, "\n");
    *reference = text::cat(j.as_str(), "\n");
}

// ---------------------------------------------------------------------------
// Renaming a column in a note
// ---------------------------------------------------------------------------
/// A line of a body with a section's name changed: only the heading's own line is
/// another, and what white space is round the heading stays.
pub open spec fn heading_renamed(line: Seq<char>, old_name: Seq<char>, new_name: Seq<char>) -> Seq<char> {
    if trimmed(line) == heading_of(old_name) {
        text::replaced(line, heading_of(old_name), heading_of(new_name))
    } else {
        line
    }
}

/// A line of a reference section with a key's name changed: only a line that
/// begins with the key is another.
pub open spec fn key_renamed(line: Seq<char>, old_name: Seq<char>, new_name: Seq<char>) -> Seq<char> {
    if text::has_prefix(line, ref_prefix(old_name)) {
        ref_prefix(new_name) + line.skip(ref_prefix(old_name).len() as int)
    } else {
        line
    }
}

/// A body with a section's name changed.
pub open spec fn section_renamed(body: Seq<char>, old_name: Seq<char>, new_name: Seq<char>) -> Seq<char> {
    let ls = text::split(body, '\n');
    join(Seq::new(ls.len(), |i: int| heading_renamed(ls[i], old_name, new_name)), "\n"@)
}

/// A reference section with a key's name changed.
pub open spec fn refs_renamed(reference: Seq<char>, old_name: Seq<char>, new_name: Seq<char>) -> Seq<
    char,
> {
    let ls = text::split(reference, '\n');
    join(Seq::new(ls.len(), |i: int| key_renamed(ls[i], old_name, new_name)), "\n"@)
}

/// Changes the name of a section of a body.
pub fn rename_section(body: &str, old_name: &str, new_name: &str) -> (r: String)
    ensures
        r@ == section_renamed(body@, old_name@, new_name@),
{
    let a = text::cat("## ", old_name);
    let b = text::cat("## ", new_name);
    let ls = text::split_on(body, '\n');
    let ghost all = text::split(body@, '\n');
    let ghost goal = Seq::new(all.len(), |i: int| heading_renamed(all[i], old_name@, new_name@));
    let mut out: Vec<String> = Vec::new();
    let mut i: usize = 0;
    proof {
        reveal_strlit("## ");
        assert(texts(out@) =~= goal.take(0));
    }
    while i < ls.len()
        invariant
            i <= ls@.len(),
            all == texts(ls@),
            goal == Seq::new(all.len(), |i: int| heading_renamed(all[i], old_name@, new_name@)),
            a@ == heading_of(old_name@),
            b@ == heading_of(new_name@),
            a@.len() > 0,
            texts(out@) == goal.take(i as int),
        decreases ls@.len() - i,
    {
        proof {
            assert(all[i as int] == ls@[i as int]@);
            assert(goal.take(i + 1) =~= goal.take(i as int).push(goal[i as int]));
        }
        let t = text::trim(ls[i].as_str());
        if text::same(t.as_str(), a.as_str()) {
            let line = text::replace(ls[i].as_str(), a.as_str(), b.as_str());
            push_copy(&mut out, line.as_str());
        } else {
            push_copy(&mut out, ls[i].as_str());
        }
        i = i + 1;
    }
    proof {
        assert(goal.take(i as int) =~= goal);
    }
    text::join_all(&out, "\n")
}

/// Changes the name of a key of a reference section.
pub fn rename_reference(reference: &str, old_name: &str, new_name: &str) -> (r: String)
    ensures
        r@ == refs_renamed(reference@, old_name@, new_name@),
{
    let a = text::cat3("- ", old_name, "::");
    let b = text::cat3("- ", new_name, "::");
    let ls = text::split_on(reference, '\n');
    let ghost all = text::split(reference@, '\n');
    let ghost goal = Seq::new(all.len(), |i: int| key_renamed(all[i], old_name@, new_name@));
    let mut out: Vec<String> = Vec::new();
    let mut i: usize = 0;
    proof {
        assert(texts(out@) =~= goal.take(0));
    }
    while i < ls.len()
        invariant
            i <= ls@.len(),
            all == texts(ls@),
            goal == Seq::new(all.len(), |i: int| key_renamed(all[i], old_name@, new_name@)),
            a@ == ref_prefix(old_name@),
            b@ == ref_prefix(new_name@),
            texts(out@) == goal.take(i as int),
        decreases ls@.len() - i,
    {
        proof {
            assert(all[i as int] == ls@[i as int]@);
            assert(goal.take(i + 1) =~= goal.take(i as int).push(goal[i as int]));
        }
        match text::strip_prefix(ls[i].as_str(), a.as_str()) {
            Some(rest) => {
                let line = text::cat(b.as_str(), rest.as_str());
                push_copy(&mut out, line.as_str());
            },
            None => {
                push_copy(&mut out, ls[i].as_str());
            },
        }
        i = i + 1;
    }
    proof {
        assert(goal.take(i as int) =~= goal);
    }
    text::join_all(&out, "\n")
}

/// The note with a column renamed, in the zone where it is kept.
pub open spec fn renamed(z: ZettelView, old_name: Seq<char>, new_name: Seq<char>, zone: Zone) -> ZettelView {
    match zone {
        Zone::Frontmatter => match lookup(z.meta.extra, old_name) {
            Some(v) => ZettelView {
                meta: MetaView {
                    extra: put(textmap::without(z.meta.extra, old_name), new_name, v),
                    ..z.meta
                },
                ..z
            },
            None => z,
        },
        Zone::Body => ZettelView {
            body: section_renamed(z.body, old_name, new_name),
            ..z
        },
        Zone::Reference => ZettelView {
            reference: refs_renamed(z.reference, old_name, new_name),
            ..z
        },
    }
}

/// Renames a column in a note.
pub fn rename_key_in_zettel(zettel: &mut ParsedZettel, old_name: &str, new_name: &str, zone: Zone)
    ensures
        final(zettel)@ == renamed(old(zettel)@, old_name@, new_name@, zone),
{
    match zone {
        Zone::Frontmatter => {
            let ghost e0 = zettel.meta.extra;
            proof {
                lemma_fields_lookup(e0, old_name@);
            }
            let removed = zettel.meta.extra.remove(old_name);
            let ghost e1 = zettel.meta.extra;
            proof {
                lemma_fields_without(e0, e1, old_name@);
            }
            match removed {
                Some(v) => {
                    zettel.meta.extra.insert(text::copy(new_name), v);
                    proof {
                        lemma_fields_put(e1, zettel.meta.extra, new_name@, v);
                    }
                },
                None => {
                    proof {
                        textmap::lemma_place(fields_view(e0), old_name@);
                        assert(textmap::without(fields_view(e0), old_name@) == fields_view(e0));
                    }
                },
            }
        },
        Zone::Body => {
            zettel.body = rename_section(zettel.body.as_str(), old_name, new_name);
        },
        Zone::Reference => {
            zettel.reference_section = rename_reference(
                zettel.reference_section.as_str(),
                old_name,
                new_name,
            );
        },
    }
}

// ---------------------------------------------------------------------------
// Updating a row
// ---------------------------------------------------------------------------
/// The first column of a name.
pub open spec fn find_column(cs: Seq<ColumnView>, name: Seq<char>) -> Option<int>
    decreases cs.len(),
{
    if cs.len() == 0 {
        None
    } else {
        match find_column(cs.drop_last(), name) {
            Some(i) => Some(i),
            None => if cs.last().name == name {
                Some(cs.len() - 1)
            } else {
                None
            },
        }
    }
}

/// The first column that is kept in the body: the title of a row.
pub open spec fn title_column(cs: Seq<ColumnView>) -> Option<int>
    decreases cs.len(),
{
    if cs.len() == 0 {
        None
    } else {
        match title_column(cs.drop_last()) {
            Some(i) => Some(i),
            None => if zone_of_column(cs.last()) == Zone::Body {
                Some(cs.len() - 1)
            } else {
                None
            },
        }
    }
}

pub fn seek_column(cs: &Vec<ColumnDef>, name: &str) -> (r: Option<usize>)
    ensures
        match r {
            Some(i) => i < cs@.len() && find_column(columns_view(cs@), name@) == Some(i as int)
                && cs@[i as int].name@ == name@,
            None => find_column(columns_view(cs@), name@) is None,
        },
{
    let ghost all = columns_view(cs@);
    let mut i: usize = 0;
    proof {
        assert(all.take(0) =~= Seq::<ColumnView>::empty());
    }
    while i < cs.len()
        invariant
            i <= cs@.len(),
            all == columns_view(cs@),
            find_column(all.take(i as int), name@) is None,
        decreases cs@.len() - i,
    {
        proof {
            let t = all.take(i + 1);
            assert(t.drop_last() =~= all.take(i as int));
            assert(t.last() == cs@[i as int]@);
        }
        if text::same(cs[i].name.as_str(), name) {
            proof {
                lemma_find_stays(all, name@, i + 1);
            }
            return Some(i);
        }
        i = i + 1;
    }
    proof {
        assert(all.take(i as int) =~= all);
    }
    None
}

proof fn lemma_find_stays(cs: Seq<ColumnView>, name: Seq<char>, k: int)
    requires
        0 <= k <= cs.len(),
        find_column(cs.take(k), name) is Some,
    ensures
        find_column(cs, name) == find_column(cs.take(k), name),
    decreases cs.len(),
{
    if k < cs.len() {
        assert(cs.drop_last().take(k) =~= cs.take(k));
        lemma_find_stays(cs.drop_last(), name, k);
    } else {
        assert(cs.take(k) =~= cs);
    }
}

proof fn lemma_title_stays(cs: Seq<ColumnView>, k: int)
    requires
        0 <= k <= cs.len(),
        title_column(cs.take(k)) is Some,
    ensures
        title_column(cs) == title_column(cs.take(k)),
    decreases cs.len(),
{
    if k < cs.len() {
        assert(cs.drop_last().take(k) =~= cs.take(k));
        lemma_title_stays(cs.drop_last(), k);
    } else {
        assert(cs.take(k) =~= cs);
    }
}

fn seek_title(cs: &Vec<ColumnDef>) -> (r: Option<usize>)
    ensures
        match r {
            Some(i) => i < cs@.len() && title_column(columns_view(cs@)) == Some(i as int),
            None => title_column(columns_view(cs@)) is None,
        },
{
    let ghost all = columns_view(cs@);
    let mut i: usize = 0;
    proof {
        assert(all.take(0) =~= Seq::<ColumnView>::empty());
    }
    while i < cs.len()
        invariant
            i <= cs@.len(),
            all == columns_view(cs@),
            title_column(all.take(i as int)) is None,
        decreases cs@.len() - i,
    {
        proof {
            let t = all.take(i + 1);
            assert(t.drop_last() =~= all.take(i as int));
            assert(t.last() == cs@[i as int]@);
        }
        let z = effective_zone(&cs[i]);
        if z == Zone::Body {
            proof {
                lemma_title_stays(all, i + 1);
            }
            return Some(i);
        }
        i = i + 1;
    }
    proof {
        assert(all.take(i as int) =~= all);
    }
    None
}

/// The note with one column set; a name that is no column changes nothing.
pub open spec fn with_update(
    z: ZettelView,
    cs: Seq<ColumnView>,
    name: Seq<char>,
    val: Seq<char>,
) -> ZettelView {
    match find_column(cs, name) {
        None => z,
        Some(i) => match zone_of_column(cs[i]) {
            Zone::Reference => ZettelView {
                reference: join(with_ref(lines(z.reference), name, val), "\n"@) + "\n"@,
                ..z
            },
            Zone::Frontmatter => ZettelView {
                meta: MetaView {
                    extra: put(
                        z.meta.extra,
                        name,
                        typed_value(val, cs[i].data_type),
                    ),
                    ..z.meta
                },
                ..z
            },
            Zone::Body => ZettelView {
                body: join(with_section(lines(z.body), name, val), "\n"@),
                meta: MetaView {
                    title: match title_column(cs) {
                        Some(j) => if cs[j].name == name {
                            Some(val)
                        } else {
                            z.meta.title
                        },
                        None => z.meta.title,
                    },
                    ..z.meta
                },
                ..z
            },
        },
    }
}

/// The note with columns set, in the order of their names.
pub open spec fn with_updates(
    z: ZettelView,
    cs: Seq<ColumnView>,
    updates: Cells,
) -> ZettelView
    decreases updates.len(),
{
    if updates.len() == 0 {
        z
    } else {
        with_update(
            with_updates(z, cs, updates.drop_last()),
            cs,
            updates.last().0,
            updates.last().1,
        )
    }
}

/// Sets columns of the row that a note holds.
pub fn apply_updates_to_zettel(
    zettel: &mut ParsedZettel,
    schema: &TableSchema,
    updates: &TextMap<String>,
)
    ensures
        final(zettel)@ == with_updates(
            old(zettel)@,
            schema@.columns,
            mapped(updates@),
        ),
{
    let ghost z0 = zettel@;
    let ghost cs = schema@.columns;
    let ghost all = mapped(updates@);
    let title = seek_title(&schema.columns);
    let mut k: usize = 0;
    proof {
        assert(all.take(0) =~= Seq::<(Seq<char>, Seq<char>)>::empty());
    }
    while k < updates.entries.len()
        invariant
            k <= updates.entries@.len() == all.len(),
            cs == columns_view(schema.columns@),
            all == mapped(updates@),
            match title {
                Some(i) => i < cs.len() && title_column(cs) == Some(i as int),
                None => title_column(cs) is None,
            },
            zettel@ == with_updates(z0, cs, all.take(k as int)),
        decreases updates.entries@.len() - k,
    {
        let name = updates.entries[k].0.as_str();
        let val = updates.entries[k].1.as_str();
        let ghost before = zettel@;
        proof {
            let t = all.take(k + 1);
            assert(t.drop_last() =~= all.take(k as int));
            assert(t.last() == (name@, val@));
        }
        if let Some(i) = seek_column(&schema.columns, name) {
            proof {
                assert(cs[i as int] == schema.columns@[i as int]@);
            }
            match effective_zone(&schema.columns[i]) {
                Zone::Reference => {
                    update_reference_line(&mut zettel.reference_section, name, val);
                },
                Zone::Frontmatter => {
                    let v = to_yaml_value(val, schema.columns[i].data_type.as_str());
                    let ghost e0 = zettel.meta.extra;
                    zettel.meta.extra.insert(text::copy(name), v);
                    proof {
                        lemma_fields_put(e0, zettel.meta.extra, name@, v);
                    }
                },
                Zone::Body => {
                    update_body_section(&mut zettel.body, name, val);
                    if let Some(j) = title {
                        proof {
                            assert(cs[j as int] == schema.columns@[j as int]@);
                        }
                        if text::same(schema.columns[j].name.as_str(), name) {
                            zettel.meta.title = Some(text::copy(val));
                        }
                    }
                },
            }
            proof {
                assert(zettel@ == with_update(before, cs, name@, val@));
            }
        }
        k = k + 1;
    }
    proof {
        assert(all.take(k as int) =~= all);
    }
}

} // verus!
