//! The type definitions that come with the library are notes that hold a schema.
use crate::bundled_types::{
    bundled_type, CONTACT_TYPEDEF, KANBAN_TYPEDEF, LITERATURE_NOTE_TYPEDEF, MEETING_MINUTES_TYPEDEF,
    PROJECT_TYPEDEF,
};
use crate::error::ZettelError;
use crate::front_laws::{
    is_front, is_name, lemma_keys, lemma_plain_lines, lemma_no_quotes, lemma_plain_scalar,
    lemma_sound, lemma_tag_text, lemma_unlines_cat, lemma_unlines_one, meta_from, texts_value,
    value_read, with_plain, is_sound, Entry,
};
use crate::parse_laws::lemma_no_body;
use crate::parser::{
    is_line, is_reading, is_rule, lemma_no_inline_fields, split_view, tag_lines, unlines,
};
use crate::schema::{column_of, columns_of, schema_of, text_at};
use crate::text;
use crate::textmap::{self, lookup, put};
use crate::types::{empty_meta, ParsedZettel, RealView, ValueView};
use crate::yaml::{
    coloned, dashed_lines, entries_of, entry_lines, field_lines, fields_of, indented, is_coloned,
    is_key, is_letter, is_plain_real, is_plain_text, is_plain_value, is_scalar, is_word,
    is_word_char, item_lines, plain_lines, plain_text, real_written, value_lines, value_of,
    values_of, yaml_of, yamls_of, Plain,
};
use vstd::prelude::*;

verus! {

broadcast use vstd::string::group_string_axioms;

pub type Field = (Seq<char>, ValueView);

/// The parts of a type definition: its name, the fields of each column, its
/// strategy and its sections.
pub struct Definition {
    pub name: Seq<char>,
    pub columns: Seq<Seq<Field>>,
    pub strategy: Seq<char>,
    pub sections: Seq<Seq<char>>,
}

pub open spec fn column_list(cs: Seq<Seq<Field>>) -> Seq<ValueView> {
    Seq::new(cs.len(), |i: int| ValueView::Mapping(cs[i]))
}

/// The entries of a type definition.
pub open spec fn definition_entries(t: Definition) -> Seq<Entry> {
    seq![
        ("title"@, Plain::Scalar(t.name)),
        ("type"@, Plain::Scalar("_typedef"@)),
        ("columns"@, Plain::Value(ValueView::List(column_list(t.columns)), true)),
        ("crdt_strategy"@, Plain::Scalar(t.strategy)),
        ("template_sections"@, Plain::Items(t.sections)),
    ]
}

/// A type definition as text.
pub open spec fn definition_text(t: Definition) -> Seq<char> {
    "---\n"@ + unlines(plain_lines(definition_entries(t))) + "---\n"@
}

/// Whether fields are those of a column: a name, a data type, and others.
pub open spec fn is_column(c: Seq<Field>) -> bool {
    &&& c.len() >= 2
    &&& c[0].0 == "name"@ && c[0].1 is Text
    &&& c[1].0 == "data_type"@ && c[1].1 is Text
    &&& is_plain_value(ValueView::Mapping(c), 3)
}

/// Whether a definition is one of plain values.
pub open spec fn is_definition(t: Definition) -> bool {
    &&& is_word(t.name)
    &&& t.columns.len() > 0
    &&& forall|i: int| 0 <= i < t.columns.len() ==> is_column(#[trigger] t.columns[i])
    &&& is_coloned(t.strategy)
    &&& t.sections.len() > 0
    &&& forall|i: int| 0 <= i < t.sections.len() ==> is_plain_text(#[trigger] t.sections[i])
}

// ---------------------------------------------------------------------------
// Reading a definition
// ---------------------------------------------------------------------------
proof fn lemma_definition_keys()
    ensures
        is_key("columns"@) && is_key("crdt_strategy"@) && is_key("template_sections"@),
        is_name("columns"@) && is_name("crdt_strategy"@) && is_name("template_sections"@),
        "columns"@.len() == 7 && "crdt_strategy"@.len() == 13 && "template_sections"@.len() == 17,
        is_word("_typedef"@),
{
    reveal_strlit("columns");
    reveal_strlit("crdt_strategy");
    reveal_strlit("template_sections");
    reveal_strlit("_typedef");
    lemma_keys();
    lemma_literal("columns"@);
    lemma_literal("crdt_strategy"@);
    lemma_literal("template_sections"@);
    lemma_literal("_typedef"@);
}

/// A text of letters that is not as long as a reserved word, or has another second
/// letter, is a word.
proof fn lemma_literal(w: Seq<char>)
    requires
        w.len() > 0,
        is_letter(w[0]),
        w.last() != ' ',
        forall|i: int| 0 <= i < w.len() ==> is_word_char(#[trigger] w[i]),
        w.len() == 4 ==> w[1] != 'u' && w[1] != 'U' && w[1] != 'r' && w[1] != 'R',
        w.len() == 5 ==> w[1] != 'a' && w[1] != 'A',
    ensures
        is_word(w),
{
    reveal_strlit("null");
    reveal_strlit("Null");
    reveal_strlit("NULL");
    reveal_strlit("true");
    reveal_strlit("True");
    reveal_strlit("TRUE");
    reveal_strlit("false");
    reveal_strlit("False");
    reveal_strlit("FALSE");
}

/// The fields of a mapping as they are read.
proof fn lemma_fields_read(m: Seq<Field>)
    requires
        forall|i: int, j: int|
            0 <= i < j < m.len() ==> (#[trigger] m[i]).0 != (#[trigger] m[j]).0,
    ensures
        text::ascending(textmap::keys(fields_of(entries_of(m)))),
        forall|i: int|
            0 <= i < m.len() ==> lookup(fields_of(entries_of(m)), (#[trigger] m[i]).0) == Some(
                value_of(yaml_of(m[i].1)),
            ),
    decreases m.len(),
{
    if m.len() > 0 {
        let d = m.drop_last();
        let n = m.len() - 1;
        assert forall|i: int, j: int| 0 <= i < j < d.len() implies (#[trigger] d[i]).0 != (
        #[trigger] d[j]).0 by {
            assert(d[i] == m[i] && d[j] == m[j]);
        }
        lemma_fields_read(d);
        let y = entries_of(m);
        assert(y.drop_last() =~= entries_of(d));
        let f = fields_of(entries_of(d));
        let v = value_of(yaml_of(m.last().1));
        textmap::law_put_sorted(f, m.last().0, v);
        textmap::lemma_lookup_put(f, m.last().0, v);
        assert(fields_of(y) == put(f, m.last().0, v));
        assert forall|i: int| 0 <= i < m.len() implies lookup(
            fields_of(y),
            (#[trigger] m[i]).0,
        ) == Some(value_of(yaml_of(m[i].1))) by {
            if i < n {
                assert(d[i] == m[i]);
                assert(m[i].0 != m[n].0);
            }
        }
    } else {
        assert(fields_of(entries_of(m)) =~= Seq::<Field>::empty());
    }
}

proof fn lemma_column_read(c: Seq<Field>)
    requires
        is_column(c),
    ensures
        column_of(value_of(yaml_of(ValueView::Mapping(c)))) is Ok,
{
    lemma_fields_read(c);
    let f = fields_of(entries_of(c));
    assert(lookup(f, c[0].0) == Some(value_of(yaml_of(c[0].1))));
    assert(lookup(f, c[1].0) == Some(value_of(yaml_of(c[1].1))));
    assert(text_at(f, "name"@) is Some);
    assert(text_at(f, "data_type"@) is Some);
}

proof fn lemma_columns_read(cs: Seq<Seq<Field>>)
    requires
        forall|i: int| 0 <= i < cs.len() ==> is_column(#[trigger] cs[i]),
    ensures
        columns_of(values_of(yamls_of(column_list(cs)))) is Ok,
    decreases cs.len(),
{
    let l = column_list(cs);
    if cs.len() > 0 {
        let d = cs.drop_last();
        assert forall|i: int| 0 <= i < d.len() implies is_column(#[trigger] d[i]) by {
            assert(d[i] == cs[i]);
        }
        lemma_columns_read(d);
        assert(l.drop_last() =~= column_list(d));
        assert(is_column(cs[cs.len() - 1]));
        lemma_column_read(cs.last());
        let y = yamls_of(l);
        assert(y.drop_last() =~= yamls_of(column_list(d)));
        let v = values_of(y);
        assert(v.drop_last() =~= values_of(yamls_of(column_list(d))));
        assert(v.last() == value_of(yaml_of(ValueView::Mapping(cs.last()))));
    }
}

/// The entries of a definition are those of a front matter.
#[verifier::spinoff_prover]
proof fn lemma_definition_front(t: Definition)
    requires
        is_definition(t),
    ensures
        is_front(definition_entries(t)),
{
    let d = definition_entries(t);
    let l = column_list(t.columns);
    lemma_keys();
    lemma_definition_keys();
    lemma_plain_scalar(t.name);
    lemma_plain_scalar("_typedef"@);
    assert forall|i: int| 0 <= i < l.len() implies !(#[trigger] l[i] is List) && is_plain_value(
        l[i],
        3,
    ) by {
        assert(is_column(t.columns[i]));
    }
    assert(is_plain_value(ValueView::List(l), 4));
    assert forall|i: int| 0 <= i < t.sections.len() implies is_scalar(#[trigger] t.sections[i]) by {
        lemma_plain_scalar(t.sections[i]);
    }
}

/// What a definition is read as.
#[verifier::spinoff_prover]
proof fn lemma_definition_meta(t: Definition)
    requires
        is_definition(t),
    ensures
        ({
            let m = meta_from(definition_entries(t));
            &&& m.title == Some(t.name)
            &&& m.zettel_type == Some("_typedef"@)
            &&& schema_of(m) matches Ok(s) && s.table_name == t.name
        }),
{
    let d = definition_entries(t);
    let d4 = d.drop_last();
    let d3 = d4.drop_last();
    let d2 = d3.drop_last();
    let d1 = d2.drop_last();
    lemma_keys();
    lemma_definition_keys();
    assert(d1.drop_last() =~= Seq::<Entry>::empty());
    assert(d1.last() == d[0] && d2.last() == d[1] && d3.last() == d[2] && d4.last() == d[3]);
    let e = empty_meta();
    assert(meta_from(d1.drop_last()) == e);
    let m1 = meta_from(d1);
    assert(m1 == with_plain(e, d[0]));
    let m2 = meta_from(d2);
    assert(m2 == with_plain(m1, d[1]));
    let m3 = meta_from(d3);
    assert(m3 == with_plain(m2, d[2]));
    let m4 = meta_from(d4);
    assert(m4 == with_plain(m3, d[3]));
    let m = meta_from(d);
    assert(m == with_plain(m4, d[4]));
    let x0 = Seq::<Field>::empty();
    assert(e.extra =~= x0);
    let cv = value_read(d[2].1);
    textmap::lemma_empty::<ValueView>();
    textmap::law_put_sorted(x0, "columns"@, cv);
    textmap::lemma_lookup_put(x0, "columns"@, cv);
    let x1 = put(x0, "columns"@, cv);
    textmap::law_put_sorted(x1, "crdt_strategy"@, value_read(d[3].1));
    textmap::lemma_lookup_put(x1, "crdt_strategy"@, value_read(d[3].1));
    let x2 = put(x1, "crdt_strategy"@, value_read(d[3].1));
    textmap::lemma_lookup_put(x2, "template_sections"@, value_read(d[4].1));
    assert(lookup(m.extra, "columns"@) == Some(cv));
    lemma_columns_read(t.columns);
    assert(cv == ValueView::List(values_of(yamls_of(column_list(t.columns)))));
}

/// A definition that is read is a note of its name, of the type of type
/// definitions, and holds a schema.
proof fn lemma_definition_read(
    t: Definition,
    path: Seq<char>,
    r: Result<ParsedZettel, ZettelError>,
)
    requires
        is_definition(t),
        is_reading(definition_text(t), path, r),
    ensures
        defines(t.name, r),
{
    let d = definition_entries(t);
    let ls = plain_lines(d);
    let e = Seq::<char>::empty();
    lemma_definition_front(t);
    lemma_definition_meta(t);
    lemma_plain_lines(d);
    assert forall|i: int| 0 <= i < ls.len() implies is_line(#[trigger] ls[i]) && !is_rule(ls[i]) by {
        assert(is_sound(ls[i]));
        lemma_sound(ls[i]);
    }
    lemma_no_body(ls);
    assert(definition_text(t) =~= "---\n"@ + unlines(ls) + "---\n"@ + e);
    lemma_no_inline_fields();
    assert(split_view(definition_text(t))->Ok_0.frontmatter == plain_text(d));
}

/// Whether a result is a note of a name that holds a schema of that name.
pub open spec fn defines(name: Seq<char>, r: Result<ParsedZettel, ZettelError>) -> bool {
    match r {
        Ok(z) => {
            &&& z@.meta.title == Some(name)
            &&& z@.meta.zettel_type == Some("_typedef"@)
            &&& match schema_of(z@.meta) {
                Ok(s) => s.table_name == name,
                Err(_) => false,
            }
        },
        Err(_) => false,
    }
}

// ---------------------------------------------------------------------------
// The text of a definition
// ---------------------------------------------------------------------------
/// A field of a column as text.
spec fn field_text(f: Field) -> Seq<char> {
    match f.1 {
        ValueView::Text(w) => "    "@ + f.0 + ": "@ + w + "\n"@,
        ValueView::Number(n) => "    "@ + f.0 + ": "@ + n.yaml + "\n"@,
        ValueView::List(l) => "    "@ + f.0 + ":\n"@ + choices_text(l),
        _ => Seq::empty(),
    }
}

spec fn choices_text(l: Seq<ValueView>) -> Seq<char>
    decreases l.len(),
{
    if l.len() == 0 {
        Seq::empty()
    } else {
        choices_text(l.drop_last()) + "      - "@ + l.last()->Text_0 + "\n"@
    }
}

/// The fields of a column as text, from the second on.
spec fn fields_text(c: Seq<Field>) -> Seq<char>
    decreases c.len(),
{
    if c.len() <= 1 {
        Seq::empty()
    } else {
        fields_text(c.drop_last()) + field_text(c.last())
    }
}

spec fn column_text(c: Seq<Field>) -> Seq<char> {
    "  - name: "@ + c[0].1->Text_0 + "\n"@ + fields_text(c)
}

spec fn columns_text(cs: Seq<Seq<Field>>) -> Seq<char>
    decreases cs.len(),
{
    if cs.len() == 0 {
        Seq::empty()
    } else {
        columns_text(cs.drop_last()) + column_text(cs.last())
    }
}

/// Whether the fields of a column are texts, numbers and lists of texts.
spec fn is_simple(c: Seq<Field>) -> bool {
    &&& c.len() > 0 && c[0].0 == "name"@ && c[0].1 is Text
    &&& forall|i: int| 0 < i < c.len() ==> is_simple_value((#[trigger] c[i]).1)
}

spec fn is_simple_value(v: ValueView) -> bool {
    match v {
        ValueView::Text(_) => true,
        ValueView::Number(_) => true,
        ValueView::List(l) => forall|i: int| 0 <= i < l.len() ==> (#[trigger] l[i]) is Text,
        _ => false,
    }
}

proof fn lemma_choices(l: Seq<ValueView>)
    requires
        forall|i: int| 0 <= i < l.len() ==> (#[trigger] l[i]) is Text,
    ensures
        unlines(indented(indented(item_lines(l, "  "@), "  "@), "    "@)) == choices_text(l),
    decreases l.len(),
{
    let ls = item_lines(l, "  "@);
    let s = indented(indented(ls, "  "@), "    "@);
    if l.len() > 0 {
        let d = l.drop_last();
        assert forall|i: int| 0 <= i < d.len() implies (#[trigger] d[i]) is Text by {
            assert(d[i] == l[i]);
        }
        lemma_choices(d);
        assert(l[l.len() - 1] is Text);
        let w = l.last()->Text_0;
        let it = item_lines(d, "  "@);
        assert(ls =~= it + seq!["- "@ + w]);
        let x = "    "@ + ("  "@ + ("- "@ + w));
        assert(s =~= indented(indented(it, "  "@), "    "@) + seq![x]);
        lemma_unlines_cat(indented(indented(it, "  "@), "    "@), seq![x]);
        lemma_unlines_one(x);
        reveal_strlit("    ");
        reveal_strlit("  ");
        reveal_strlit("- ");
        reveal_strlit("      - ");
        assert("      - "@ =~= "    "@ + "  "@ + "- "@);
        assert(unlines(s) =~= choices_text(l));
    } else {
        assert(ls =~= Seq::<Seq<char>>::empty());
        assert(s =~= Seq::<Seq<char>>::empty());
    }
}

proof fn lemma_field_text(f: Field)
    requires
        is_simple_value(f.1),
    ensures
        unlines(indented(value_lines(f.0, f.1, "  "@), "    "@)) == field_text(f),
{
    let k = f.0;
    let ls = value_lines(k, f.1, "  "@);
    let s = indented(ls, "    "@);
    reveal_strlit(":");
    reveal_strlit("\n");
    reveal_strlit(":\n");
    assert(":\n"@ =~= ":"@ + "\n"@);
    match f.1 {
        ValueView::Text(w) => {
            assert(s =~= seq!["    "@ + (k + ": "@ + w)]);
            lemma_unlines_one("    "@ + (k + ": "@ + w));
            assert(unlines(s) =~= field_text(f));
        },
        ValueView::Number(n) => {
            assert(s =~= seq!["    "@ + (k + ": "@ + n.yaml)]);
            lemma_unlines_one("    "@ + (k + ": "@ + n.yaml));
            assert(unlines(s) =~= field_text(f));
        },
        ValueView::List(l) => {
            lemma_choices(l);
            let t = indented(item_lines(l, "  "@), "  "@);
            assert(s =~= seq!["    "@ + (k + ":"@)] + indented(t, "    "@));
            lemma_unlines_cat(seq!["    "@ + (k + ":"@)], indented(t, "    "@));
            lemma_unlines_one("    "@ + (k + ":"@));
            assert(unlines(s) =~= field_text(f));
        },
        _ => {},
    }
}

proof fn lemma_column_text(c: Seq<Field>)
    requires
        is_simple(c),
    ensures
        field_lines(c, "  "@).len() > 0,
        unlines(indented(dashed_lines(field_lines(c, "  "@)), "  "@)) == column_text(c),
    decreases c.len(),
{
    let ls = field_lines(c, "  "@);
    let s = indented(dashed_lines(ls), "  "@);
    let d = c.drop_last();
    reveal_strlit("  ");
    reveal_strlit("    ");
    reveal_strlit("- ");
    reveal_strlit(": ");
    reveal_strlit("name");
    reveal_strlit("  - name: ");
    assert("    "@ =~= "  "@ + "  "@);
    if c.len() == 1 {
        let w = c[0].1->Text_0;
        assert(d =~= Seq::<Field>::empty());
        assert(field_lines(d, "  "@) =~= Seq::<Seq<char>>::empty());
        let x = "name"@ + ": "@ + w;
        assert(c.last() == c[0] && c[0].1 == ValueView::Text(w));
        assert(value_lines(c.last().0, c.last().1, "  "@) == seq![x]);
        assert(ls == field_lines(d, "  "@) + value_lines(c.last().0, c.last().1, "  "@));
        assert(ls =~= seq![x]);
        assert(s =~= seq!["  "@ + ("- "@ + x)]);
        lemma_unlines_one("  "@ + ("- "@ + x));
        assert("  - name: "@ =~= "  "@ + "- "@ + "name"@ + ": "@);
        assert(unlines(s) =~= column_text(c));
    } else {
        assert forall|i: int| 0 < i < d.len() implies is_simple_value((#[trigger] d[i]).1) by {
            assert(d[i] == c[i]);
        }
        assert(d[0] == c[0]);
        lemma_column_text(d);
        let f = c[c.len() - 1];
        assert(is_simple_value(f.1));
        lemma_field_text(f);
        let a = field_lines(d, "  "@);
        let b = value_lines(f.0, f.1, "  "@);
        let u = indented(dashed_lines(a), "  "@);
        let v = indented(b, "    "@);
        assert(ls == a + b);
        assert(s =~= u + v) by {
            assert forall|i: int| 0 <= i < s.len() implies s[i] == (u + v)[i] by {
                if i >= a.len() {
                    assert(ls[i] == b[i - a.len()]);
                    assert("  "@ + ("  "@ + ls[i]) =~= "    "@ + ls[i]);
                } else {
                    assert(ls[i] == a[i]);
                }
            }
        }
        lemma_unlines_cat(u, v);
        assert(column_text(c) =~= column_text(d) + field_text(f));
    }
}

proof fn lemma_columns_text(cs: Seq<Seq<Field>>)
    requires
        forall|i: int| 0 <= i < cs.len() ==> is_simple(#[trigger] cs[i]),
    ensures
        unlines(indented(item_lines(column_list(cs), "  "@), "  "@)) == columns_text(cs),
    decreases cs.len(),
{
    let l = column_list(cs);
    let ls = item_lines(l, "  "@);
    let s = indented(ls, "  "@);
    if cs.len() > 0 {
        let d = cs.drop_last();
        assert forall|i: int| 0 <= i < d.len() implies is_simple(#[trigger] d[i]) by {
            assert(d[i] == cs[i]);
        }
        lemma_columns_text(d);
        let c = cs[cs.len() - 1];
        assert(is_simple(c));
        lemma_column_text(c);
        assert(l.drop_last() =~= column_list(d));
        assert(l.last() == ValueView::Mapping(c));
        let a = item_lines(column_list(d), "  "@);
        let b = dashed_lines(field_lines(c, "  "@));
        assert(ls == a + b);
        assert(s =~= indented(a, "  "@) + indented(b, "  "@));
        lemma_unlines_cat(indented(a, "  "@), indented(b, "  "@));
    } else {
        assert(ls =~= Seq::<Seq<char>>::empty());
        assert(s =~= Seq::<Seq<char>>::empty());
    }
}

/// The text of a definition, part by part.
spec fn spelled(t: Definition) -> Seq<char> {
    "---\ntitle: "@ + t.name + "\ntype: _typedef\ncolumns:\n"@ + columns_text(t.columns)
        + "crdt_strategy: "@ + t.strategy + "\ntemplate_sections:\n"@ + tag_lines(t.sections)
        + "---\n"@
}

#[verifier::spinoff_prover]
proof fn lemma_spelled(t: Definition)
    requires
        is_definition(t),
        forall|i: int| 0 <= i < t.columns.len() ==> is_simple(#[trigger] t.columns[i]),
    ensures
        definition_text(t) == spelled(t),
{
    let d = definition_entries(t);
    let d4 = d.drop_last();
    let d3 = d4.drop_last();
    let d2 = d3.drop_last();
    let d1 = d2.drop_last();
    let z = Seq::<Entry>::empty();
    assert(d1.drop_last() =~= z);
    assert(plain_lines(z) =~= Seq::<Seq<char>>::empty());
    assert(d1.last() == d[0] && d2.last() == d[1] && d3.last() == d[2] && d4.last() == d[3]);
    let e0 = entry_lines(d[0].0, d[0].1);
    let e1 = entry_lines(d[1].0, d[1].1);
    let e2 = entry_lines(d[2].0, d[2].1);
    let e3 = entry_lines(d[3].0, d[3].1);
    let e4 = entry_lines(d[4].0, d[4].1);
    assert(plain_lines(d1) =~= e0);
    assert(plain_lines(d2) == e0 + e1);
    assert(plain_lines(d3) == e0 + e1 + e2);
    assert(plain_lines(d4) == e0 + e1 + e2 + e3);
    assert(plain_lines(d) == e0 + e1 + e2 + e3 + e4);
    lemma_unlines_cat(e0, e1);
    lemma_unlines_cat(e0 + e1, e2);
    lemma_unlines_cat(e0 + e1 + e2, e3);
    lemma_unlines_cat(e0 + e1 + e2 + e3, e4);
    lemma_unlines_one("title"@ + ": "@ + t.name);
    lemma_unlines_one("type"@ + ": "@ + "_typedef"@);
    lemma_unlines_one("crdt_strategy"@ + ": "@ + t.strategy);
    lemma_columns_text(t.columns);
    let s2 = indented(item_lines(column_list(t.columns), "  "@), "  "@);
    lemma_unlines_cat(seq!["columns"@ + ":"@], s2);
    lemma_unlines_one("columns"@ + ":"@);
    assert forall|i: int| 0 <= i < t.sections.len() implies is_scalar(#[trigger] t.sections[i]) by {
        lemma_plain_scalar(t.sections[i]);
    }
    lemma_tag_text(t.sections);
    let s4 = Seq::new(t.sections.len(), |i: int| "  - "@ + t.sections[i]);
    lemma_unlines_cat(seq!["template_sections"@ + ":"@], s4);
    lemma_unlines_one("template_sections"@ + ":"@);
    assert(e2 == seq!["columns"@ + ":"@] + s2);
    assert(e4 == seq!["template_sections"@ + ":"@] + s4);
    reveal_strlit("---\n");
    reveal_strlit("title");
    reveal_strlit("type");
    reveal_strlit("columns");
    reveal_strlit("crdt_strategy");
    reveal_strlit("template_sections");
    reveal_strlit("_typedef");
    reveal_strlit(": ");
    reveal_strlit(":");
    reveal_strlit("\n");
    reveal_strlit("---\ntitle: ");
    reveal_strlit("\ntype: _typedef\ncolumns:\n");
    reveal_strlit("crdt_strategy: ");
    reveal_strlit("\ntemplate_sections:\n");
    assert("---\ntitle: "@ =~= "---\n"@ + "title"@ + ": "@);
    assert("\ntype: _typedef\ncolumns:\n"@ =~= "\n"@ + "type"@ + ": "@ + "_typedef"@ + "\n"@
        + "columns"@ + ":"@ + "\n"@);
    assert("crdt_strategy: "@ =~= "crdt_strategy"@ + ": "@);
    assert("\ntemplate_sections:\n"@ =~= "\n"@ + "template_sections"@ + ":"@ + "\n"@);
    assert(definition_text(t) =~= spelled(t));
}

/// Two stretches of a text that meet.
proof fn lemma_meet(s: Seq<char>, a: int, b: int, c: int)
    requires
        0 <= a <= b <= c <= s.len(),
    ensures
        s.subrange(a, b) + s.subrange(b, c) == s.subrange(a, c),
{
    assert(s.subrange(a, b) + s.subrange(b, c) =~= s.subrange(a, c));
}

pub open spec fn said(k: Seq<char>, w: Seq<char>) -> Field {
    (k, ValueView::Text(w))
}

/// The fields of a column that has a zone.
pub open spec fn column(name: Seq<char>, data_type: Seq<char>, zone: Seq<char>) -> Seq<Field> {
    seq![said("name"@, name), said("data_type"@, data_type), said("zone"@, zone)]
}

spec fn column_spelled(name: Seq<char>, data_type: Seq<char>, zone: Seq<char>) -> Seq<char> {
    "  - name: "@ + name + "\n    data_type: "@ + data_type + "\n    zone: "@ + zone + "\n"@
}

proof fn lemma_column_keys()
    ensures
        is_key("name"@) && is_key("data_type"@) && is_key("zone"@) && is_key("references"@) && is_key(
            "search_boost"@,
        ) && is_key("allowed_values"@) && is_key("default_value"@),
        "name"@ != "zone"@,
        "name"@.len() == 4 && "data_type"@.len() == 9 && "zone"@.len() == 4 && "references"@.len()
            == 10 && "search_boost"@.len() == 12 && "allowed_values"@.len() == 14
            && "default_value"@.len() == 13,
{
    reveal_strlit("name");
    reveal_strlit("data_type");
    reveal_strlit("zone");
    reveal_strlit("references");
    reveal_strlit("search_boost");
    reveal_strlit("allowed_values");
    reveal_strlit("default_value");
    lemma_literal("name"@);
    lemma_literal("data_type"@);
    lemma_literal("zone"@);
    lemma_literal("references"@);
    lemma_literal("search_boost"@);
    lemma_literal("allowed_values"@);
    lemma_literal("default_value"@);
    assert("name"@[0] == 'n' && "zone"@[0] == 'z');
}

proof fn lemma_column(name: Seq<char>, data_type: Seq<char>, zone: Seq<char>)
    requires
        is_word(name),
        is_word(data_type),
        is_word(zone),
    ensures
        is_column(column(name, data_type, zone)),
        is_simple(column(name, data_type, zone)),
        column_text(column(name, data_type, zone)) == column_spelled(name, data_type, zone),
{
    let c = column(name, data_type, zone);
    lemma_column_keys();
    assert forall|i: int| 0 <= i < c.len() implies is_key((#[trigger] c[i]).0) && is_plain_value(
        c[i].1,
        2,
    ) by {}
    let d = c.drop_last();
    let e = d.drop_last();
    assert(d.last() == c[1]);
    assert(fields_text(e) =~= Seq::<char>::empty());
    reveal_strlit("name");
    reveal_strlit("data_type");
    reveal_strlit("zone");
    reveal_strlit(": ");
    reveal_strlit("    ");
    reveal_strlit("\n");
    reveal_strlit("\n    data_type: ");
    reveal_strlit("\n    zone: ");
    assert("\n    data_type: "@ =~= "\n"@ + "    "@ + "data_type"@ + ": "@);
    assert("\n    zone: "@ =~= "\n"@ + "    "@ + "zone"@ + ": "@);
    assert(fields_text(d) == fields_text(e) + field_text(c[1]));
    assert(fields_text(c) == fields_text(d) + field_text(c[2]));
    assert(column_text(c) =~= column_spelled(name, data_type, zone));
}

/// Whether a definition is one of plain values, with simple columns.
spec fn is_well_made(t: Definition) -> bool {
    &&& is_definition(t)
    &&& forall|i: int| 0 <= i < t.columns.len() ==> is_simple(#[trigger] t.columns[i])
}

proof fn lemma_choice_list(ws: Seq<Seq<char>>)
    requires
        ws.len() > 0,
        forall|i: int| 0 <= i < ws.len() ==> is_word(#[trigger] ws[i]),
    ensures
        is_plain_value(texts_value(ws), 2),
        is_simple_value(texts_value(ws)),
{
    let l = texts_value(ws)->List_0;
    assert forall|i: int| 0 <= i < l.len() implies (#[trigger] l[i]) is Text && is_plain_value(
        l[i],
        1,
    ) by {
        assert(is_word(ws[i]));
    }
}

/// One field more.
proof fn lemma_field_more(c: Seq<Field>, f: Field)
    requires
        is_column(c),
        is_simple(c),
        is_key(f.0),
        forall|i: int| 0 <= i < c.len() ==> (#[trigger] c[i]).0 != f.0,
        is_plain_value(f.1, 2),
        is_simple_value(f.1),
    ensures
        is_column(c.push(f)),
        is_simple(c.push(f)),
        column_text(c.push(f)) == column_text(c) + field_text(f),
{
    let d = c.push(f);
    assert(d.drop_last() =~= c);
    assert forall|i: int| 0 <= i < d.len() implies is_key((#[trigger] d[i]).0) && is_plain_value(
        d[i].1,
        2,
    ) by {
        if i < c.len() {
            assert(d[i] == c[i]);
        }
    }
    assert forall|i: int, j: int| 0 <= i < j < d.len() implies (#[trigger] d[i]).0 != (
    #[trigger] d[j]).0 by {
        assert(d[i] == c[i]);
        if j < c.len() {
            assert(d[j] == c[j]);
        }
    }
    assert forall|i: int| 0 < i < d.len() implies is_simple_value((#[trigger] d[i]).1) by {
        if i < c.len() {
            assert(d[i] == c[i]);
        }
    }
    assert(column_text(d) =~= column_text(c) + field_text(f));
}

/// The parts of the definition of `project`.
pub open spec fn project_definition() -> Definition {
    Definition {
        name: "project"@,
        columns: seq![
            column("completed"@, "BOOLEAN"@, "frontmatter"@),
            column("deliverable"@, "TEXT"@, "frontmatter"@),
            column("parent"@, "TEXT"@, "reference"@).push(said("references"@, "project"@)),
            column("ticket"@, "TEXT"@, "reference"@),
            column("us"@, "TEXT"@, "reference"@),
        ],
        strategy: "preset:append-log"@,
        sections: seq!["Description"@, "Log"@, "Plan"@, "Solution"@],
    }
}

proof fn lemma_project_words()
    ensures
        is_word("BOOLEAN"@),
        is_word("Description"@),
        is_word("Log"@),
        is_word("Plan"@),
        is_word("Solution"@),
        is_word("TEXT"@),
        is_word("append-log"@),
        is_word("completed"@),
        is_word("deliverable"@),
        is_word("frontmatter"@),
        is_word("parent"@),
        is_word("preset"@),
        is_word("project"@),
        is_word("reference"@),
        is_word("ticket"@),
        is_word("us"@),
{
    reveal_strlit("BOOLEAN");
    lemma_literal("BOOLEAN"@);
    reveal_strlit("Description");
    lemma_literal("Description"@);
    reveal_strlit("Log");
    lemma_literal("Log"@);
    reveal_strlit("Plan");
    lemma_literal("Plan"@);
    reveal_strlit("Solution");
    lemma_literal("Solution"@);
    reveal_strlit("TEXT");
    lemma_literal("TEXT"@);
    reveal_strlit("append-log");
    lemma_literal("append-log"@);
    reveal_strlit("completed");
    lemma_literal("completed"@);
    reveal_strlit("deliverable");
    lemma_literal("deliverable"@);
    reveal_strlit("frontmatter");
    lemma_literal("frontmatter"@);
    reveal_strlit("parent");
    lemma_literal("parent"@);
    reveal_strlit("preset");
    lemma_literal("preset"@);
    reveal_strlit("project");
    lemma_literal("project"@);
    reveal_strlit("reference");
    lemma_literal("reference"@);
    reveal_strlit("ticket");
    lemma_literal("ticket"@);
    reveal_strlit("us");
    lemma_literal("us"@);
}

/// The text of the definition of `project` is that of its parts.
#[verifier::spinoff_prover]
proof fn lemma_project_text()
    ensures
        spelled(project_definition()) == PROJECT_TYPEDEF@,
        is_well_made(project_definition()),
{
    let s = PROJECT_TYPEDEF@;
    let t = project_definition();
    reveal_strlit(
        "---\ntitle: project\ntype: _typedef\ncolumns:\n  - name: completed\n    data_type: BOOLEAN\n    zone: frontmatter\n  - name: deliverable\n    data_type: TEXT\n    zone: frontmatter\n  - name: parent\n    data_type: TEXT\n    zone: reference\n    references: project\n  - name: ticket\n    data_type: TEXT\n    zone: reference\n  - name: us\n    data_type: TEXT\n    zone: reference\ncrdt_strategy: preset:append-log\ntemplate_sections:\n  - Description\n  - Log\n  - Plan\n  - Solution\n---\n",
    );
    reveal_strlit("\n");
    reveal_strlit("\n    data_type: ");
    reveal_strlit("\n    zone: ");
    reveal_strlit("\ntemplate_sections:\n");
    reveal_strlit("\ntype: _typedef\ncolumns:\n");
    reveal_strlit("    ");
    reveal_strlit("  - ");
    reveal_strlit("  - name: ");
    reveal_strlit("---\n");
    reveal_strlit("---\ntitle: ");
    reveal_strlit(":");
    reveal_strlit(": ");
    reveal_strlit("BOOLEAN");
    reveal_strlit("Description");
    reveal_strlit("Log");
    reveal_strlit("Plan");
    reveal_strlit("Solution");
    reveal_strlit("TEXT");
    reveal_strlit("append-log");
    reveal_strlit("completed");
    reveal_strlit("crdt_strategy: ");
    reveal_strlit("deliverable");
    reveal_strlit("frontmatter");
    reveal_strlit("parent");
    reveal_strlit("preset");
    reveal_strlit("preset:append-log");
    reveal_strlit("project");
    reveal_strlit("reference");
    reveal_strlit("references");
    reveal_strlit("ticket");
    reveal_strlit("us");
    let head = "---\ntitle: "@ + "project"@ + "\ntype: _typedef\ncolumns:\n"@;
    assert(s.subrange(0, 43) =~= head);
    let none = Seq::<Seq<Field>>::empty();
    assert(columns_text(none) =~= s.subrange(43, 43));
    let c0 = t.columns[0];
    lemma_project_words();
    lemma_column("completed"@, "BOOLEAN"@, "frontmatter"@);
    assert(s.subrange(43, 108) =~= column_spelled("completed"@, "BOOLEAN"@, "frontmatter"@));
    lemma_meet(s, 43, 43, 108);
    let u0 = t.columns.take(1);
    assert(u0.drop_last() =~= none && u0.last() == column("completed"@, "BOOLEAN"@, "frontmatter"@));
    assert(columns_text(u0) == s.subrange(43, 108));
    let c1 = t.columns[1];
    lemma_column("deliverable"@, "TEXT"@, "frontmatter"@);
    assert(s.subrange(108, 172) =~= column_spelled("deliverable"@, "TEXT"@, "frontmatter"@));
    lemma_meet(s, 43, 108, 172);
    let u1 = t.columns.take(2);
    assert(u1.drop_last() =~= u0 && u1.last() == column("deliverable"@, "TEXT"@, "frontmatter"@));
    assert(columns_text(u1) == s.subrange(43, 172));
    let c2 = t.columns[2];
    lemma_column("parent"@, "TEXT"@, "reference"@);
    assert(s.subrange(172, 229) =~= column_spelled("parent"@, "TEXT"@, "reference"@));
    assert(s.subrange(229, 253) =~= "    "@ + "references"@ + ": "@ + "project"@ + "\n"@);
    lemma_column_keys();
    lemma_field_more(column("parent"@, "TEXT"@, "reference"@), said("references"@, "project"@));
    lemma_meet(s, 172, 229, 253);
    lemma_meet(s, 43, 172, 253);
    let u2 = t.columns.take(3);
    assert(u2.drop_last() =~= u1 && u2.last() == column("parent"@, "TEXT"@, "reference"@).push(said("references"@, "project"@)));
    assert(columns_text(u2) == s.subrange(43, 253));
    let c3 = t.columns[3];
    lemma_column("ticket"@, "TEXT"@, "reference"@);
    assert(s.subrange(253, 310) =~= column_spelled("ticket"@, "TEXT"@, "reference"@));
    lemma_meet(s, 43, 253, 310);
    let u3 = t.columns.take(4);
    assert(u3.drop_last() =~= u2 && u3.last() == column("ticket"@, "TEXT"@, "reference"@));
    assert(columns_text(u3) == s.subrange(43, 310));
    let c4 = t.columns[4];
    lemma_column("us"@, "TEXT"@, "reference"@);
    assert(s.subrange(310, 363) =~= column_spelled("us"@, "TEXT"@, "reference"@));
    lemma_meet(s, 43, 310, 363);
    let u4 = t.columns.take(5);
    assert(u4.drop_last() =~= u3 && u4.last() == column("us"@, "TEXT"@, "reference"@));
    assert(columns_text(u4) == s.subrange(43, 363));
    assert(t.columns.take(5) =~= t.columns);
    let mid = "crdt_strategy: "@ + "preset:append-log"@ + "\ntemplate_sections:\n"@;
    assert(s.subrange(363, 415) =~= mid);
    let none_said = Seq::<Seq<char>>::empty();
    assert(tag_lines(none_said) =~= s.subrange(415, 415));
    assert(s.subrange(415, 431) =~= "  - "@ + "Description"@ + "\n"@);
    lemma_meet(s, 415, 415, 431);
    let v0 = t.sections.take(1);
    lemma_no_quotes("Description"@);
    assert(v0.drop_last() =~= none_said && v0.last() == "Description"@);
    assert(tag_lines(v0) =~= tag_lines(none_said) + ("  - "@ + "Description"@ + "\n"@));
    assert(tag_lines(v0) == s.subrange(415, 431));
    assert(s.subrange(431, 439) =~= "  - "@ + "Log"@ + "\n"@);
    lemma_meet(s, 415, 431, 439);
    let v1 = t.sections.take(2);
    lemma_no_quotes("Log"@);
    assert(v1.drop_last() =~= v0 && v1.last() == "Log"@);
    assert(tag_lines(v1) =~= tag_lines(v0) + ("  - "@ + "Log"@ + "\n"@));
    assert(tag_lines(v1) == s.subrange(415, 439));
    assert(s.subrange(439, 448) =~= "  - "@ + "Plan"@ + "\n"@);
    lemma_meet(s, 415, 439, 448);
    let v2 = t.sections.take(3);
    lemma_no_quotes("Plan"@);
    assert(v2.drop_last() =~= v1 && v2.last() == "Plan"@);
    assert(tag_lines(v2) =~= tag_lines(v1) + ("  - "@ + "Plan"@ + "\n"@));
    assert(tag_lines(v2) == s.subrange(415, 448));
    assert(s.subrange(448, 461) =~= "  - "@ + "Solution"@ + "\n"@);
    lemma_meet(s, 415, 448, 461);
    let v3 = t.sections.take(4);
    lemma_no_quotes("Solution"@);
    assert(v3.drop_last() =~= v2 && v3.last() == "Solution"@);
    assert(tag_lines(v3) =~= tag_lines(v2) + ("  - "@ + "Solution"@ + "\n"@));
    assert(tag_lines(v3) == s.subrange(415, 461));
    assert(t.sections.take(4) =~= t.sections);
    assert(s.subrange(461, 465) =~= "---\n"@);
    lemma_meet(s, 0, 43, 363);
    lemma_meet(s, 0, 363, 415);
    lemma_meet(s, 0, 415, 461);
    lemma_meet(s, 0, 461, 465);
    assert(s.subrange(0, 465) =~= s);
    assert forall|i: int| 0 <= i < t.columns.len() implies is_column(#[trigger] t.columns[i])
        && is_simple(t.columns[i]) by {
        if i == 0 {
            assert(t.columns[i] == c0);
        }
        if i == 1 {
            assert(t.columns[i] == c1);
        }
        if i == 2 {
            assert(t.columns[i] == c2);
        }
        if i == 3 {
            assert(t.columns[i] == c3);
        }
        if i == 4 {
            assert(t.columns[i] == c4);
        }
    }
    assert forall|i: int| 0 <= i < t.sections.len() implies is_plain_text(#[trigger] t.sections[i]) by {}
    assert(coloned("preset"@, "append-log"@) =~= t.strategy);
    assert(spelled(t) =~= head + columns_text(t.columns) + mid + tag_lines(t.sections) + "---\n"@);
}

/// The parts of the definition of `contact`. `boost` is the number that it holds.
pub open spec fn contact_definition(boost: RealView) -> Definition {
    Definition {
        name: "contact"@,
        columns: seq![
            column("aliases"@, "TEXT"@, "frontmatter"@),
            column("contact-type"@, "TEXT"@, "frontmatter"@),
            column("email"@, "TEXT"@, "frontmatter"@).push(("search_boost"@, ValueView::Number(boost))),
        ],
        strategy: "preset:default"@,
        sections: seq!["First contact"@, "Timeline"@, "Relationships"@],
    }
}

proof fn lemma_contact_words()
    ensures
        is_word("First contact"@),
        is_word("Relationships"@),
        is_word("TEXT"@),
        is_word("Timeline"@),
        is_word("aliases"@),
        is_word("contact"@),
        is_word("contact-type"@),
        is_word("default"@),
        is_word("email"@),
        is_word("frontmatter"@),
        is_word("preset"@),
{
    reveal_strlit("First contact");
    lemma_literal("First contact"@);
    reveal_strlit("Relationships");
    lemma_literal("Relationships"@);
    reveal_strlit("TEXT");
    lemma_literal("TEXT"@);
    reveal_strlit("Timeline");
    lemma_literal("Timeline"@);
    reveal_strlit("aliases");
    lemma_literal("aliases"@);
    reveal_strlit("contact");
    lemma_literal("contact"@);
    reveal_strlit("contact-type");
    lemma_literal("contact-type"@);
    reveal_strlit("default");
    lemma_literal("default"@);
    reveal_strlit("email");
    lemma_literal("email"@);
    reveal_strlit("frontmatter");
    lemma_literal("frontmatter"@);
    reveal_strlit("preset");
    lemma_literal("preset"@);
}

/// The text of the definition of `contact` is that of its parts.
#[verifier::spinoff_prover]
proof fn lemma_contact_text(boost: RealView)
    requires
        is_plain_real(boost),
        boost.yaml == "1.5"@,
    ensures
        spelled(contact_definition(boost)) == CONTACT_TYPEDEF@,
        is_well_made(contact_definition(boost)),
{
    let s = CONTACT_TYPEDEF@;
    let t = contact_definition(boost);
    reveal_strlit(
        "---\ntitle: contact\ntype: _typedef\ncolumns:\n  - name: aliases\n    data_type: TEXT\n    zone: frontmatter\n  - name: contact-type\n    data_type: TEXT\n    zone: frontmatter\n  - name: email\n    data_type: TEXT\n    zone: frontmatter\n    search_boost: 1.5\ncrdt_strategy: preset:default\ntemplate_sections:\n  - First contact\n  - Timeline\n  - Relationships\n---\n",
    );
    reveal_strlit("\n");
    reveal_strlit("\n    data_type: ");
    reveal_strlit("\n    zone: ");
    reveal_strlit("\ntemplate_sections:\n");
    reveal_strlit("\ntype: _typedef\ncolumns:\n");
    reveal_strlit("    ");
    reveal_strlit("  - ");
    reveal_strlit("  - name: ");
    reveal_strlit("---\n");
    reveal_strlit("---\ntitle: ");
    reveal_strlit("1.5");
    reveal_strlit(":");
    reveal_strlit(": ");
    reveal_strlit("First contact");
    reveal_strlit("Relationships");
    reveal_strlit("TEXT");
    reveal_strlit("Timeline");
    reveal_strlit("aliases");
    reveal_strlit("contact");
    reveal_strlit("contact-type");
    reveal_strlit("crdt_strategy: ");
    reveal_strlit("default");
    reveal_strlit("email");
    reveal_strlit("frontmatter");
    reveal_strlit("preset");
    reveal_strlit("preset:default");
    reveal_strlit("search_boost");
    let head = "---\ntitle: "@ + "contact"@ + "\ntype: _typedef\ncolumns:\n"@;
    assert(s.subrange(0, 43) =~= head);
    let none = Seq::<Seq<Field>>::empty();
    assert(columns_text(none) =~= s.subrange(43, 43));
    let c0 = t.columns[0];
    lemma_contact_words();
    lemma_column("aliases"@, "TEXT"@, "frontmatter"@);
    assert(s.subrange(43, 103) =~= column_spelled("aliases"@, "TEXT"@, "frontmatter"@));
    lemma_meet(s, 43, 43, 103);
    let u0 = t.columns.take(1);
    assert(u0.drop_last() =~= none && u0.last() == column("aliases"@, "TEXT"@, "frontmatter"@));
    assert(columns_text(u0) == s.subrange(43, 103));
    let c1 = t.columns[1];
    lemma_column("contact-type"@, "TEXT"@, "frontmatter"@);
    assert(s.subrange(103, 168) =~= column_spelled("contact-type"@, "TEXT"@, "frontmatter"@));
    lemma_meet(s, 43, 103, 168);
    let u1 = t.columns.take(2);
    assert(u1.drop_last() =~= u0 && u1.last() == column("contact-type"@, "TEXT"@, "frontmatter"@));
    assert(columns_text(u1) == s.subrange(43, 168));
    let c2 = t.columns[2];
    lemma_column("email"@, "TEXT"@, "frontmatter"@);
    assert(s.subrange(168, 226) =~= column_spelled("email"@, "TEXT"@, "frontmatter"@));
    assert(s.subrange(226, 248) =~= "    "@ + "search_boost"@ + ": "@ + boost.yaml + "\n"@);
    lemma_column_keys();
    lemma_field_more(column("email"@, "TEXT"@, "frontmatter"@), ("search_boost"@, ValueView::Number(boost)));
    lemma_meet(s, 168, 226, 248);
    lemma_meet(s, 43, 168, 248);
    let u2 = t.columns.take(3);
    assert(u2.drop_last() =~= u1 && u2.last() == column("email"@, "TEXT"@, "frontmatter"@).push(("search_boost"@, ValueView::Number(boost))));
    assert(columns_text(u2) == s.subrange(43, 248));
    assert(t.columns.take(3) =~= t.columns);
    let mid = "crdt_strategy: "@ + "preset:default"@ + "\ntemplate_sections:\n"@;
    assert(s.subrange(248, 297) =~= mid);
    let none_said = Seq::<Seq<char>>::empty();
    assert(tag_lines(none_said) =~= s.subrange(297, 297));
    assert(s.subrange(297, 315) =~= "  - "@ + "First contact"@ + "\n"@);
    lemma_meet(s, 297, 297, 315);
    let v0 = t.sections.take(1);
    lemma_no_quotes("First contact"@);
    assert(v0.drop_last() =~= none_said && v0.last() == "First contact"@);
    assert(tag_lines(v0) =~= tag_lines(none_said) + ("  - "@ + "First contact"@ + "\n"@));
    assert(tag_lines(v0) == s.subrange(297, 315));
    assert(s.subrange(315, 328) =~= "  - "@ + "Timeline"@ + "\n"@);
    lemma_meet(s, 297, 315, 328);
    let v1 = t.sections.take(2);
    lemma_no_quotes("Timeline"@);
    assert(v1.drop_last() =~= v0 && v1.last() == "Timeline"@);
    assert(tag_lines(v1) =~= tag_lines(v0) + ("  - "@ + "Timeline"@ + "\n"@));
    assert(tag_lines(v1) == s.subrange(297, 328));
    assert(s.subrange(328, 346) =~= "  - "@ + "Relationships"@ + "\n"@);
    lemma_meet(s, 297, 328, 346);
    let v2 = t.sections.take(3);
    lemma_no_quotes("Relationships"@);
    assert(v2.drop_last() =~= v1 && v2.last() == "Relationships"@);
    assert(tag_lines(v2) =~= tag_lines(v1) + ("  - "@ + "Relationships"@ + "\n"@));
    assert(tag_lines(v2) == s.subrange(297, 346));
    assert(t.sections.take(3) =~= t.sections);
    assert(s.subrange(346, 350) =~= "---\n"@);
    lemma_meet(s, 0, 43, 248);
    lemma_meet(s, 0, 248, 297);
    lemma_meet(s, 0, 297, 346);
    lemma_meet(s, 0, 346, 350);
    assert(s.subrange(0, 350) =~= s);
    assert forall|i: int| 0 <= i < t.columns.len() implies is_column(#[trigger] t.columns[i])
        && is_simple(t.columns[i]) by {
        if i == 0 {
            assert(t.columns[i] == c0);
        }
        if i == 1 {
            assert(t.columns[i] == c1);
        }
        if i == 2 {
            assert(t.columns[i] == c2);
        }
    }
    assert forall|i: int| 0 <= i < t.sections.len() implies is_plain_text(#[trigger] t.sections[i]) by {}
    assert(coloned("preset"@, "default"@) =~= t.strategy);
    assert(spelled(t) =~= head + columns_text(t.columns) + mid + tag_lines(t.sections) + "---\n"@);
}

/// The parts of the definition of `literature-note`.
pub open spec fn literature_note_definition() -> Definition {
    Definition {
        name: "literature-note"@,
        columns: seq![
            column("author"@, "TEXT"@, "frontmatter"@),
            column("source"@, "TEXT"@, "frontmatter"@),
            column("year"@, "INTEGER"@, "frontmatter"@),
            column("url"@, "TEXT"@, "frontmatter"@),
        ],
        strategy: "preset:default"@,
        sections: seq!["Summary"@, "Key Arguments"@, "Quotes"@, "Personal Response"@],
    }
}

proof fn lemma_literature_note_words()
    ensures
        is_word("INTEGER"@),
        is_word("Key Arguments"@),
        is_word("Personal Response"@),
        is_word("Quotes"@),
        is_word("Summary"@),
        is_word("TEXT"@),
        is_word("author"@),
        is_word("default"@),
        is_word("frontmatter"@),
        is_word("literature-note"@),
        is_word("preset"@),
        is_word("source"@),
        is_word("url"@),
        is_word("year"@),
{
    reveal_strlit("INTEGER");
    lemma_literal("INTEGER"@);
    reveal_strlit("Key Arguments");
    lemma_literal("Key Arguments"@);
    reveal_strlit("Personal Response");
    lemma_literal("Personal Response"@);
    reveal_strlit("Quotes");
    lemma_literal("Quotes"@);
    reveal_strlit("Summary");
    lemma_literal("Summary"@);
    reveal_strlit("TEXT");
    lemma_literal("TEXT"@);
    reveal_strlit("author");
    lemma_literal("author"@);
    reveal_strlit("default");
    lemma_literal("default"@);
    reveal_strlit("frontmatter");
    lemma_literal("frontmatter"@);
    reveal_strlit("literature-note");
    lemma_literal("literature-note"@);
    reveal_strlit("preset");
    lemma_literal("preset"@);
    reveal_strlit("source");
    lemma_literal("source"@);
    reveal_strlit("url");
    lemma_literal("url"@);
    reveal_strlit("year");
    lemma_literal("year"@);
}

/// The text of the definition of `literature-note` is that of its parts.
#[verifier::spinoff_prover]
proof fn lemma_literature_note_text()
    ensures
        spelled(literature_note_definition()) == LITERATURE_NOTE_TYPEDEF@,
        is_well_made(literature_note_definition()),
{
    let s = LITERATURE_NOTE_TYPEDEF@;
    let t = literature_note_definition();
    reveal_strlit(
        "---\ntitle: literature-note\ntype: _typedef\ncolumns:\n  - name: author\n    data_type: TEXT\n    zone: frontmatter\n  - name: source\n    data_type: TEXT\n    zone: frontmatter\n  - name: year\n    data_type: INTEGER\n    zone: frontmatter\n  - name: url\n    data_type: TEXT\n    zone: frontmatter\ncrdt_strategy: preset:default\ntemplate_sections:\n  - Summary\n  - Key Arguments\n  - Quotes\n  - Personal Response\n---\n",
    );
    reveal_strlit("\n");
    reveal_strlit("\n    data_type: ");
    reveal_strlit("\n    zone: ");
    reveal_strlit("\ntemplate_sections:\n");
    reveal_strlit("\ntype: _typedef\ncolumns:\n");
    reveal_strlit("  - ");
    reveal_strlit("  - name: ");
    reveal_strlit("---\n");
    reveal_strlit("---\ntitle: ");
    reveal_strlit(":");
    reveal_strlit("INTEGER");
    reveal_strlit("Key Arguments");
    reveal_strlit("Personal Response");
    reveal_strlit("Quotes");
    reveal_strlit("Summary");
    reveal_strlit("TEXT");
    reveal_strlit("author");
    reveal_strlit("crdt_strategy: ");
    reveal_strlit("default");
    reveal_strlit("frontmatter");
    reveal_strlit("literature-note");
    reveal_strlit("preset");
    reveal_strlit("preset:default");
    reveal_strlit("source");
    reveal_strlit("url");
    reveal_strlit("year");
    let head = "---\ntitle: "@ + "literature-note"@ + "\ntype: _typedef\ncolumns:\n"@;
    assert(s.subrange(0, 51) =~= head);
    let none = Seq::<Seq<Field>>::empty();
    assert(columns_text(none) =~= s.subrange(51, 51));
    let c0 = t.columns[0];
    lemma_literature_note_words();
    lemma_column("author"@, "TEXT"@, "frontmatter"@);
    assert(s.subrange(51, 110) =~= column_spelled("author"@, "TEXT"@, "frontmatter"@));
    lemma_meet(s, 51, 51, 110);
    let u0 = t.columns.take(1);
    assert(u0.drop_last() =~= none && u0.last() == column("author"@, "TEXT"@, "frontmatter"@));
    assert(columns_text(u0) == s.subrange(51, 110));
    let c1 = t.columns[1];
    lemma_column("source"@, "TEXT"@, "frontmatter"@);
    assert(s.subrange(110, 169) =~= column_spelled("source"@, "TEXT"@, "frontmatter"@));
    lemma_meet(s, 51, 110, 169);
    let u1 = t.columns.take(2);
    assert(u1.drop_last() =~= u0 && u1.last() == column("source"@, "TEXT"@, "frontmatter"@));
    assert(columns_text(u1) == s.subrange(51, 169));
    let c2 = t.columns[2];
    lemma_column("year"@, "INTEGER"@, "frontmatter"@);
    assert(s.subrange(169, 229) =~= column_spelled("year"@, "INTEGER"@, "frontmatter"@));
    lemma_meet(s, 51, 169, 229);
    let u2 = t.columns.take(3);
    assert(u2.drop_last() =~= u1 && u2.last() == column("year"@, "INTEGER"@, "frontmatter"@));
    assert(columns_text(u2) == s.subrange(51, 229));
    let c3 = t.columns[3];
    lemma_column("url"@, "TEXT"@, "frontmatter"@);
    assert(s.subrange(229, 285) =~= column_spelled("url"@, "TEXT"@, "frontmatter"@));
    lemma_meet(s, 51, 229, 285);
    let u3 = t.columns.take(4);
    assert(u3.drop_last() =~= u2 && u3.last() == column("url"@, "TEXT"@, "frontmatter"@));
    assert(columns_text(u3) == s.subrange(51, 285));
    assert(t.columns.take(4) =~= t.columns);
    let mid = "crdt_strategy: "@ + "preset:default"@ + "\ntemplate_sections:\n"@;
    assert(s.subrange(285, 334) =~= mid);
    let none_said = Seq::<Seq<char>>::empty();
    assert(tag_lines(none_said) =~= s.subrange(334, 334));
    assert(s.subrange(334, 346) =~= "  - "@ + "Summary"@ + "\n"@);
    lemma_meet(s, 334, 334, 346);
    let v0 = t.sections.take(1);
    lemma_no_quotes("Summary"@);
    assert(v0.drop_last() =~= none_said && v0.last() == "Summary"@);
    assert(tag_lines(v0) =~= tag_lines(none_said) + ("  - "@ + "Summary"@ + "\n"@));
    assert(tag_lines(v0) == s.subrange(334, 346));
    assert(s.subrange(346, 364) =~= "  - "@ + "Key Arguments"@ + "\n"@);
    lemma_meet(s, 334, 346, 364);
    let v1 = t.sections.take(2);
    lemma_no_quotes("Key Arguments"@);
    assert(v1.drop_last() =~= v0 && v1.last() == "Key Arguments"@);
    assert(tag_lines(v1) =~= tag_lines(v0) + ("  - "@ + "Key Arguments"@ + "\n"@));
    assert(tag_lines(v1) == s.subrange(334, 364));
    assert(s.subrange(364, 375) =~= "  - "@ + "Quotes"@ + "\n"@);
    lemma_meet(s, 334, 364, 375);
    let v2 = t.sections.take(3);
    lemma_no_quotes("Quotes"@);
    assert(v2.drop_last() =~= v1 && v2.last() == "Quotes"@);
    assert(tag_lines(v2) =~= tag_lines(v1) + ("  - "@ + "Quotes"@ + "\n"@));
    assert(tag_lines(v2) == s.subrange(334, 375));
    assert(s.subrange(375, 397) =~= "  - "@ + "Personal Response"@ + "\n"@);
    lemma_meet(s, 334, 375, 397);
    let v3 = t.sections.take(4);
    lemma_no_quotes("Personal Response"@);
    assert(v3.drop_last() =~= v2 && v3.last() == "Personal Response"@);
    assert(tag_lines(v3) =~= tag_lines(v2) + ("  - "@ + "Personal Response"@ + "\n"@));
    assert(tag_lines(v3) == s.subrange(334, 397));
    assert(t.sections.take(4) =~= t.sections);
    assert(s.subrange(397, 401) =~= "---\n"@);
    lemma_meet(s, 0, 51, 285);
    lemma_meet(s, 0, 285, 334);
    lemma_meet(s, 0, 334, 397);
    lemma_meet(s, 0, 397, 401);
    assert(s.subrange(0, 401) =~= s);
    assert forall|i: int| 0 <= i < t.columns.len() implies is_column(#[trigger] t.columns[i])
        && is_simple(t.columns[i]) by {
        if i == 0 {
            assert(t.columns[i] == c0);
        }
        if i == 1 {
            assert(t.columns[i] == c1);
        }
        if i == 2 {
            assert(t.columns[i] == c2);
        }
        if i == 3 {
            assert(t.columns[i] == c3);
        }
    }
    assert forall|i: int| 0 <= i < t.sections.len() implies is_plain_text(#[trigger] t.sections[i]) by {}
    assert(coloned("preset"@, "default"@) =~= t.strategy);
    assert(spelled(t) =~= head + columns_text(t.columns) + mid + tag_lines(t.sections) + "---\n"@);
}

/// The parts of the definition of `meeting-minutes`.
pub open spec fn meeting_minutes_definition() -> Definition {
    Definition {
        name: "meeting-minutes"@,
        columns: seq![
            column("date"@, "TEXT"@, "frontmatter"@),
            column("attendees"@, "TEXT"@, "frontmatter"@),
            column("location"@, "TEXT"@, "frontmatter"@),
        ],
        strategy: "preset:append-log"@,
        sections: seq!["Agenda"@, "Log"@, "Decisions"@, "Action Items"@],
    }
}

proof fn lemma_meeting_minutes_words()
    ensures
        is_word("Action Items"@),
        is_word("Agenda"@),
        is_word("Decisions"@),
        is_word("Log"@),
        is_word("TEXT"@),
        is_word("append-log"@),
        is_word("attendees"@),
        is_word("date"@),
        is_word("frontmatter"@),
        is_word("location"@),
        is_word("meeting-minutes"@),
        is_word("preset"@),
{
    reveal_strlit("Action Items");
    lemma_literal("Action Items"@);
    reveal_strlit("Agenda");
    lemma_literal("Agenda"@);
    reveal_strlit("Decisions");
    lemma_literal("Decisions"@);
    reveal_strlit("Log");
    lemma_literal("Log"@);
    reveal_strlit("TEXT");
    lemma_literal("TEXT"@);
    reveal_strlit("append-log");
    lemma_literal("append-log"@);
    reveal_strlit("attendees");
    lemma_literal("attendees"@);
    reveal_strlit("date");
    lemma_literal("date"@);
    reveal_strlit("frontmatter");
    lemma_literal("frontmatter"@);
    reveal_strlit("location");
    lemma_literal("location"@);
    reveal_strlit("meeting-minutes");
    lemma_literal("meeting-minutes"@);
    reveal_strlit("preset");
    lemma_literal("preset"@);
}

/// The text of the definition of `meeting-minutes` is that of its parts.
#[verifier::spinoff_prover]
proof fn lemma_meeting_minutes_text()
    ensures
        spelled(meeting_minutes_definition()) == MEETING_MINUTES_TYPEDEF@,
        is_well_made(meeting_minutes_definition()),
{
    let s = MEETING_MINUTES_TYPEDEF@;
    let t = meeting_minutes_definition();
    reveal_strlit(
        "---\ntitle: meeting-minutes\ntype: _typedef\ncolumns:\n  - name: date\n    data_type: TEXT\n    zone: frontmatter\n  - name: attendees\n    data_type: TEXT\n    zone: frontmatter\n  - name: location\n    data_type: TEXT\n    zone: frontmatter\ncrdt_strategy: preset:append-log\ntemplate_sections:\n  - Agenda\n  - Log\n  - Decisions\n  - Action Items\n---\n",
    );
    reveal_strlit("\n");
    reveal_strlit("\n    data_type: ");
    reveal_strlit("\n    zone: ");
    reveal_strlit("\ntemplate_sections:\n");
    reveal_strlit("\ntype: _typedef\ncolumns:\n");
    reveal_strlit("  - ");
    reveal_strlit("  - name: ");
    reveal_strlit("---\n");
    reveal_strlit("---\ntitle: ");
    reveal_strlit(":");
    reveal_strlit("Action Items");
    reveal_strlit("Agenda");
    reveal_strlit("Decisions");
    reveal_strlit("Log");
    reveal_strlit("TEXT");
    reveal_strlit("append-log");
    reveal_strlit("attendees");
    reveal_strlit("crdt_strategy: ");
    reveal_strlit("date");
    reveal_strlit("frontmatter");
    reveal_strlit("location");
    reveal_strlit("meeting-minutes");
    reveal_strlit("preset");
    reveal_strlit("preset:append-log");
    let head = "---\ntitle: "@ + "meeting-minutes"@ + "\ntype: _typedef\ncolumns:\n"@;
    assert(s.subrange(0, 51) =~= head);
    let none = Seq::<Seq<Field>>::empty();
    assert(columns_text(none) =~= s.subrange(51, 51));
    let c0 = t.columns[0];
    lemma_meeting_minutes_words();
    lemma_column("date"@, "TEXT"@, "frontmatter"@);
    assert(s.subrange(51, 108) =~= column_spelled("date"@, "TEXT"@, "frontmatter"@));
    lemma_meet(s, 51, 51, 108);
    let u0 = t.columns.take(1);
    assert(u0.drop_last() =~= none && u0.last() == column("date"@, "TEXT"@, "frontmatter"@));
    assert(columns_text(u0) == s.subrange(51, 108));
    let c1 = t.columns[1];
    lemma_column("attendees"@, "TEXT"@, "frontmatter"@);
    assert(s.subrange(108, 170) =~= column_spelled("attendees"@, "TEXT"@, "frontmatter"@));
    lemma_meet(s, 51, 108, 170);
    let u1 = t.columns.take(2);
    assert(u1.drop_last() =~= u0 && u1.last() == column("attendees"@, "TEXT"@, "frontmatter"@));
    assert(columns_text(u1) == s.subrange(51, 170));
    let c2 = t.columns[2];
    lemma_column("location"@, "TEXT"@, "frontmatter"@);
    assert(s.subrange(170, 231) =~= column_spelled("location"@, "TEXT"@, "frontmatter"@));
    lemma_meet(s, 51, 170, 231);
    let u2 = t.columns.take(3);
    assert(u2.drop_last() =~= u1 && u2.last() == column("location"@, "TEXT"@, "frontmatter"@));
    assert(columns_text(u2) == s.subrange(51, 231));
    assert(t.columns.take(3) =~= t.columns);
    let mid = "crdt_strategy: "@ + "preset:append-log"@ + "\ntemplate_sections:\n"@;
    assert(s.subrange(231, 283) =~= mid);
    let none_said = Seq::<Seq<char>>::empty();
    assert(tag_lines(none_said) =~= s.subrange(283, 283));
    assert(s.subrange(283, 294) =~= "  - "@ + "Agenda"@ + "\n"@);
    lemma_meet(s, 283, 283, 294);
    let v0 = t.sections.take(1);
    lemma_no_quotes("Agenda"@);
    assert(v0.drop_last() =~= none_said && v0.last() == "Agenda"@);
    assert(tag_lines(v0) =~= tag_lines(none_said) + ("  - "@ + "Agenda"@ + "\n"@));
    assert(tag_lines(v0) == s.subrange(283, 294));
    assert(s.subrange(294, 302) =~= "  - "@ + "Log"@ + "\n"@);
    lemma_meet(s, 283, 294, 302);
    let v1 = t.sections.take(2);
    lemma_no_quotes("Log"@);
    assert(v1.drop_last() =~= v0 && v1.last() == "Log"@);
    assert(tag_lines(v1) =~= tag_lines(v0) + ("  - "@ + "Log"@ + "\n"@));
    assert(tag_lines(v1) == s.subrange(283, 302));
    assert(s.subrange(302, 316) =~= "  - "@ + "Decisions"@ + "\n"@);
    lemma_meet(s, 283, 302, 316);
    let v2 = t.sections.take(3);
    lemma_no_quotes("Decisions"@);
    assert(v2.drop_last() =~= v1 && v2.last() == "Decisions"@);
    assert(tag_lines(v2) =~= tag_lines(v1) + ("  - "@ + "Decisions"@ + "\n"@));
    assert(tag_lines(v2) == s.subrange(283, 316));
    assert(s.subrange(316, 333) =~= "  - "@ + "Action Items"@ + "\n"@);
    lemma_meet(s, 283, 316, 333);
    let v3 = t.sections.take(4);
    lemma_no_quotes("Action Items"@);
    assert(v3.drop_last() =~= v2 && v3.last() == "Action Items"@);
    assert(tag_lines(v3) =~= tag_lines(v2) + ("  - "@ + "Action Items"@ + "\n"@));
    assert(tag_lines(v3) == s.subrange(283, 333));
    assert(t.sections.take(4) =~= t.sections);
    assert(s.subrange(333, 337) =~= "---\n"@);
    lemma_meet(s, 0, 51, 231);
    lemma_meet(s, 0, 231, 283);
    lemma_meet(s, 0, 283, 333);
    lemma_meet(s, 0, 333, 337);
    assert(s.subrange(0, 337) =~= s);
    assert forall|i: int| 0 <= i < t.columns.len() implies is_column(#[trigger] t.columns[i])
        && is_simple(t.columns[i]) by {
        if i == 0 {
            assert(t.columns[i] == c0);
        }
        if i == 1 {
            assert(t.columns[i] == c1);
        }
        if i == 2 {
            assert(t.columns[i] == c2);
        }
    }
    assert forall|i: int| 0 <= i < t.sections.len() implies is_plain_text(#[trigger] t.sections[i]) by {}
    assert(coloned("preset"@, "append-log"@) =~= t.strategy);
    assert(spelled(t) =~= head + columns_text(t.columns) + mid + tag_lines(t.sections) + "---\n"@);
}

/// The parts of the definition of `kanban`.
pub open spec fn kanban_definition() -> Definition {
    Definition {
        name: "kanban"@,
        columns: seq![
            column("status"@, "TEXT"@, "frontmatter"@).push(("allowed_values"@, texts_value(seq!["backlog"@, "todo"@, "doing"@, "done"@, "blocked"@]))).push(said("default_value"@, "backlog"@)),
            column("priority"@, "TEXT"@, "frontmatter"@).push(("allowed_values"@, texts_value(seq!["low"@, "medium"@, "high"@, "critical"@]))),
            column("assignee"@, "TEXT"@, "frontmatter"@),
            column("due"@, "TEXT"@, "frontmatter"@),
            column("parent"@, "TEXT"@, "reference"@).push(said("references"@, "kanban"@)),
        ],
        strategy: "preset:last-writer-wins"@,
        sections: seq!["Description"@, "Acceptance Criteria"@],
    }
}

proof fn lemma_kanban_words()
    ensures
        is_word("Acceptance Criteria"@),
        is_word("Description"@),
        is_word("TEXT"@),
        is_word("assignee"@),
        is_word("backlog"@),
        is_word("blocked"@),
        is_word("critical"@),
        is_word("doing"@),
        is_word("done"@),
        is_word("due"@),
        is_word("frontmatter"@),
        is_word("high"@),
        is_word("kanban"@),
        is_word("last-writer-wins"@),
        is_word("low"@),
        is_word("medium"@),
        is_word("parent"@),
        is_word("preset"@),
        is_word("priority"@),
        is_word("reference"@),
        is_word("status"@),
        is_word("todo"@),
{
    reveal_strlit("Acceptance Criteria");
    lemma_literal("Acceptance Criteria"@);
    reveal_strlit("Description");
    lemma_literal("Description"@);
    reveal_strlit("TEXT");
    lemma_literal("TEXT"@);
    reveal_strlit("assignee");
    lemma_literal("assignee"@);
    reveal_strlit("backlog");
    lemma_literal("backlog"@);
    reveal_strlit("blocked");
    lemma_literal("blocked"@);
    reveal_strlit("critical");
    lemma_literal("critical"@);
    reveal_strlit("doing");
    lemma_literal("doing"@);
    reveal_strlit("done");
    lemma_literal("done"@);
    reveal_strlit("due");
    lemma_literal("due"@);
    reveal_strlit("frontmatter");
    lemma_literal("frontmatter"@);
    reveal_strlit("high");
    lemma_literal("high"@);
    reveal_strlit("kanban");
    lemma_literal("kanban"@);
    reveal_strlit("last-writer-wins");
    lemma_literal("last-writer-wins"@);
    reveal_strlit("low");
    lemma_literal("low"@);
    reveal_strlit("medium");
    lemma_literal("medium"@);
    reveal_strlit("parent");
    lemma_literal("parent"@);
    reveal_strlit("preset");
    lemma_literal("preset"@);
    reveal_strlit("priority");
    lemma_literal("priority"@);
    reveal_strlit("reference");
    lemma_literal("reference"@);
    reveal_strlit("status");
    lemma_literal("status"@);
    reveal_strlit("todo");
    lemma_literal("todo"@);
}

/// The text of the definition of `kanban` is that of its parts.
#[verifier::spinoff_prover]
proof fn lemma_kanban_text()
    ensures
        spelled(kanban_definition()) == KANBAN_TYPEDEF@,
        is_well_made(kanban_definition()),
{
    let s = KANBAN_TYPEDEF@;
    let t = kanban_definition();
    reveal_strlit(
        "---\ntitle: kanban\ntype: _typedef\ncolumns:\n  - name: status\n    data_type: TEXT\n    zone: frontmatter\n    allowed_values:\n      - backlog\n      - todo\n      - doing\n      - done\n      - blocked\n    default_value: backlog\n  - name: priority\n    data_type: TEXT\n    zone: frontmatter\n    allowed_values:\n      - low\n      - medium\n      - high\n      - critical\n  - name: assignee\n    data_type: TEXT\n    zone: frontmatter\n  - name: due\n    data_type: TEXT\n    zone: frontmatter\n  - name: parent\n    data_type: TEXT\n    zone: reference\n    references: kanban\ncrdt_strategy: preset:last-writer-wins\ntemplate_sections:\n  - Description\n  - Acceptance Criteria\n---\n",
    );
    reveal_strlit("\n");
    reveal_strlit("\n    data_type: ");
    reveal_strlit("\n    zone: ");
    reveal_strlit("\ntemplate_sections:\n");
    reveal_strlit("\ntype: _typedef\ncolumns:\n");
    reveal_strlit("    ");
    reveal_strlit("      - ");
    reveal_strlit("  - ");
    reveal_strlit("  - name: ");
    reveal_strlit("---\n");
    reveal_strlit("---\ntitle: ");
    reveal_strlit(":");
    reveal_strlit(":\n");
    reveal_strlit(": ");
    reveal_strlit("Acceptance Criteria");
    reveal_strlit("Description");
    reveal_strlit("TEXT");
    reveal_strlit("allowed_values");
    reveal_strlit("assignee");
    reveal_strlit("backlog");
    reveal_strlit("blocked");
    reveal_strlit("crdt_strategy: ");
    reveal_strlit("critical");
    reveal_strlit("default_value");
    reveal_strlit("doing");
    reveal_strlit("done");
    reveal_strlit("due");
    reveal_strlit("frontmatter");
    reveal_strlit("high");
    reveal_strlit("kanban");
    reveal_strlit("last-writer-wins");
    reveal_strlit("low");
    reveal_strlit("medium");
    reveal_strlit("parent");
    reveal_strlit("preset");
    reveal_strlit("preset:last-writer-wins");
    reveal_strlit("priority");
    reveal_strlit("reference");
    reveal_strlit("references");
    reveal_strlit("status");
    reveal_strlit("todo");
    let head = "---\ntitle: "@ + "kanban"@ + "\ntype: _typedef\ncolumns:\n"@;
    assert(s.subrange(0, 42) =~= head);
    let none = Seq::<Seq<Field>>::empty();
    assert(columns_text(none) =~= s.subrange(42, 42));
    let c0 = t.columns[0];
    lemma_kanban_words();
    lemma_column("status"@, "TEXT"@, "frontmatter"@);
    assert(s.subrange(42, 101) =~= column_spelled("status"@, "TEXT"@, "frontmatter"@));
    let ws0 = seq!["backlog"@, "todo"@, "doing"@, "done"@, "blocked"@];
    let l0 = texts_value(ws0)->List_0;
    lemma_choice_list(ws0);
    let no0 = Seq::<ValueView>::empty();
    assert(s.subrange(101, 121) =~= "    "@ + "allowed_values"@ + ":\n"@);
    assert(choices_text(no0) =~= s.subrange(121, 121));
    assert(s.subrange(121, 137) =~= "      - "@ + "backlog"@ + "\n"@);
    lemma_meet(s, 121, 121, 137);
    let k0_0 = l0.take(1);
    assert(k0_0.drop_last() =~= no0 && k0_0.last() == ValueView::Text("backlog"@));
    assert(choices_text(k0_0) =~= choices_text(no0) + ("      - "@ + "backlog"@ + "\n"@));
    assert(choices_text(k0_0) == s.subrange(121, 137));
    assert(s.subrange(137, 150) =~= "      - "@ + "todo"@ + "\n"@);
    lemma_meet(s, 121, 137, 150);
    let k0_1 = l0.take(2);
    assert(k0_1.drop_last() =~= k0_0 && k0_1.last() == ValueView::Text("todo"@));
    assert(choices_text(k0_1) =~= choices_text(k0_0) + ("      - "@ + "todo"@ + "\n"@));
    assert(choices_text(k0_1) == s.subrange(121, 150));
    assert(s.subrange(150, 164) =~= "      - "@ + "doing"@ + "\n"@);
    lemma_meet(s, 121, 150, 164);
    let k0_2 = l0.take(3);
    assert(k0_2.drop_last() =~= k0_1 && k0_2.last() == ValueView::Text("doing"@));
    assert(choices_text(k0_2) =~= choices_text(k0_1) + ("      - "@ + "doing"@ + "\n"@));
    assert(choices_text(k0_2) == s.subrange(121, 164));
    assert(s.subrange(164, 177) =~= "      - "@ + "done"@ + "\n"@);
    lemma_meet(s, 121, 164, 177);
    let k0_3 = l0.take(4);
    assert(k0_3.drop_last() =~= k0_2 && k0_3.last() == ValueView::Text("done"@));
    assert(choices_text(k0_3) =~= choices_text(k0_2) + ("      - "@ + "done"@ + "\n"@));
    assert(choices_text(k0_3) == s.subrange(121, 177));
    assert(s.subrange(177, 193) =~= "      - "@ + "blocked"@ + "\n"@);
    lemma_meet(s, 121, 177, 193);
    let k0_4 = l0.take(5);
    assert(k0_4.drop_last() =~= k0_3 && k0_4.last() == ValueView::Text("blocked"@));
    assert(choices_text(k0_4) =~= choices_text(k0_3) + ("      - "@ + "blocked"@ + "\n"@));
    assert(choices_text(k0_4) == s.subrange(121, 193));
    assert(l0.take(5) =~= l0);
    lemma_meet(s, 101, 121, 193);
    lemma_column_keys();
    lemma_field_more(column("status"@, "TEXT"@, "frontmatter"@), ("allowed_values"@, texts_value(seq!["backlog"@, "todo"@, "doing"@, "done"@, "blocked"@])));
    lemma_meet(s, 42, 101, 193);
    assert(s.subrange(193, 220) =~= "    "@ + "default_value"@ + ": "@ + "backlog"@ + "\n"@);
    lemma_column_keys();
    lemma_field_more(column("status"@, "TEXT"@, "frontmatter"@).push(("allowed_values"@, texts_value(seq!["backlog"@, "todo"@, "doing"@, "done"@, "blocked"@]))), said("default_value"@, "backlog"@));
    lemma_meet(s, 42, 193, 220);
    lemma_meet(s, 42, 42, 220);
    let u0 = t.columns.take(1);
    assert(u0.drop_last() =~= none && u0.last() == column("status"@, "TEXT"@, "frontmatter"@).push(("allowed_values"@, texts_value(seq!["backlog"@, "todo"@, "doing"@, "done"@, "blocked"@]))).push(said("default_value"@, "backlog"@)));
    assert(columns_text(u0) == s.subrange(42, 220));
    let c1 = t.columns[1];
    lemma_column("priority"@, "TEXT"@, "frontmatter"@);
    assert(s.subrange(220, 281) =~= column_spelled("priority"@, "TEXT"@, "frontmatter"@));
    let ws1 = seq!["low"@, "medium"@, "high"@, "critical"@];
    let l1 = texts_value(ws1)->List_0;
    lemma_choice_list(ws1);
    let no1 = Seq::<ValueView>::empty();
    assert(s.subrange(281, 301) =~= "    "@ + "allowed_values"@ + ":\n"@);
    assert(choices_text(no1) =~= s.subrange(301, 301));
    assert(s.subrange(301, 313) =~= "      - "@ + "low"@ + "\n"@);
    lemma_meet(s, 301, 301, 313);
    let k1_0 = l1.take(1);
    assert(k1_0.drop_last() =~= no1 && k1_0.last() == ValueView::Text("low"@));
    assert(choices_text(k1_0) =~= choices_text(no1) + ("      - "@ + "low"@ + "\n"@));
    assert(choices_text(k1_0) == s.subrange(301, 313));
    assert(s.subrange(313, 328) =~= "      - "@ + "medium"@ + "\n"@);
    lemma_meet(s, 301, 313, 328);
    let k1_1 = l1.take(2);
    assert(k1_1.drop_last() =~= k1_0 && k1_1.last() == ValueView::Text("medium"@));
    assert(choices_text(k1_1) =~= choices_text(k1_0) + ("      - "@ + "medium"@ + "\n"@));
    assert(choices_text(k1_1) == s.subrange(301, 328));
    assert(s.subrange(328, 341) =~= "      - "@ + "high"@ + "\n"@);
    lemma_meet(s, 301, 328, 341);
    let k1_2 = l1.take(3);
    assert(k1_2.drop_last() =~= k1_1 && k1_2.last() == ValueView::Text("high"@));
    assert(choices_text(k1_2) =~= choices_text(k1_1) + ("      - "@ + "high"@ + "\n"@));
    assert(choices_text(k1_2) == s.subrange(301, 341));
    assert(s.subrange(341, 358) =~= "      - "@ + "critical"@ + "\n"@);
    lemma_meet(s, 301, 341, 358);
    let k1_3 = l1.take(4);
    assert(k1_3.drop_last() =~= k1_2 && k1_3.last() == ValueView::Text("critical"@));
    assert(choices_text(k1_3) =~= choices_text(k1_2) + ("      - "@ + "critical"@ + "\n"@));
    assert(choices_text(k1_3) == s.subrange(301, 358));
    assert(l1.take(4) =~= l1);
    lemma_meet(s, 281, 301, 358);
    lemma_column_keys();
    lemma_field_more(column("priority"@, "TEXT"@, "frontmatter"@), ("allowed_values"@, texts_value(seq!["low"@, "medium"@, "high"@, "critical"@])));
    lemma_meet(s, 220, 281, 358);
    lemma_meet(s, 42, 220, 358);
    let u1 = t.columns.take(2);
    assert(u1.drop_last() =~= u0 && u1.last() == column("priority"@, "TEXT"@, "frontmatter"@).push(("allowed_values"@, texts_value(seq!["low"@, "medium"@, "high"@, "critical"@]))));
    assert(columns_text(u1) == s.subrange(42, 358));
    let c2 = t.columns[2];
    lemma_column("assignee"@, "TEXT"@, "frontmatter"@);
    assert(s.subrange(358, 419) =~= column_spelled("assignee"@, "TEXT"@, "frontmatter"@));
    lemma_meet(s, 42, 358, 419);
    let u2 = t.columns.take(3);
    assert(u2.drop_last() =~= u1 && u2.last() == column("assignee"@, "TEXT"@, "frontmatter"@));
    assert(columns_text(u2) == s.subrange(42, 419));
    let c3 = t.columns[3];
    lemma_column("due"@, "TEXT"@, "frontmatter"@);
    assert(s.subrange(419, 475) =~= column_spelled("due"@, "TEXT"@, "frontmatter"@));
    lemma_meet(s, 42, 419, 475);
    let u3 = t.columns.take(4);
    assert(u3.drop_last() =~= u2 && u3.last() == column("due"@, "TEXT"@, "frontmatter"@));
    assert(columns_text(u3) == s.subrange(42, 475));
    let c4 = t.columns[4];
    lemma_column("parent"@, "TEXT"@, "reference"@);
    assert(s.subrange(475, 532) =~= column_spelled("parent"@, "TEXT"@, "reference"@));
    assert(s.subrange(532, 555) =~= "    "@ + "references"@ + ": "@ + "kanban"@ + "\n"@);
    lemma_column_keys();
    lemma_field_more(column("parent"@, "TEXT"@, "reference"@), said("references"@, "kanban"@));
    lemma_meet(s, 475, 532, 555);
    lemma_meet(s, 42, 475, 555);
    let u4 = t.columns.take(5);
    assert(u4.drop_last() =~= u3 && u4.last() == column("parent"@, "TEXT"@, "reference"@).push(said("references"@, "kanban"@)));
    assert(columns_text(u4) == s.subrange(42, 555));
    assert(t.columns.take(5) =~= t.columns);
    let mid = "crdt_strategy: "@ + "preset:last-writer-wins"@ + "\ntemplate_sections:\n"@;
    assert(s.subrange(555, 613) =~= mid);
    let none_said = Seq::<Seq<char>>::empty();
    assert(tag_lines(none_said) =~= s.subrange(613, 613));
    assert(s.subrange(613, 629) =~= "  - "@ + "Description"@ + "\n"@);
    lemma_meet(s, 613, 613, 629);
    let v0 = t.sections.take(1);
    lemma_no_quotes("Description"@);
    assert(v0.drop_last() =~= none_said && v0.last() == "Description"@);
    assert(tag_lines(v0) =~= tag_lines(none_said) + ("  - "@ + "Description"@ + "\n"@));
    assert(tag_lines(v0) == s.subrange(613, 629));
    assert(s.subrange(629, 653) =~= "  - "@ + "Acceptance Criteria"@ + "\n"@);
    lemma_meet(s, 613, 629, 653);
    let v1 = t.sections.take(2);
    lemma_no_quotes("Acceptance Criteria"@);
    assert(v1.drop_last() =~= v0 && v1.last() == "Acceptance Criteria"@);
    assert(tag_lines(v1) =~= tag_lines(v0) + ("  - "@ + "Acceptance Criteria"@ + "\n"@));
    assert(tag_lines(v1) == s.subrange(613, 653));
    assert(t.sections.take(2) =~= t.sections);
    assert(s.subrange(653, 657) =~= "---\n"@);
    lemma_meet(s, 0, 42, 555);
    lemma_meet(s, 0, 555, 613);
    lemma_meet(s, 0, 613, 653);
    lemma_meet(s, 0, 653, 657);
    assert(s.subrange(0, 657) =~= s);
    assert forall|i: int| 0 <= i < t.columns.len() implies is_column(#[trigger] t.columns[i])
        && is_simple(t.columns[i]) by {
        if i == 0 {
            assert(t.columns[i] == c0);
        }
        if i == 1 {
            assert(t.columns[i] == c1);
        }
        if i == 2 {
            assert(t.columns[i] == c2);
        }
        if i == 3 {
            assert(t.columns[i] == c3);
        }
        if i == 4 {
            assert(t.columns[i] == c4);
        }
    }
    assert forall|i: int| 0 <= i < t.sections.len() implies is_plain_text(#[trigger] t.sections[i]) by {}
    assert(coloned("preset"@, "last-writer-wins"@) =~= t.strategy);
    assert(spelled(t) =~= head + columns_text(t.columns) + mid + tag_lines(t.sections) + "---\n"@);
}

/// Each type definition that comes with the library is read as a note of its name,
/// of the type of type definitions, and holds a schema; that of contacts, which holds
/// a fraction, where that is a number that is written as it stands there.
pub proof fn law_bundled_types(
    name: Seq<char>,
    path: Seq<char>,
    r: Result<ParsedZettel, ZettelError>,
)
    requires
        bundled_type(name) is Some,
        is_reading(bundled_type(name)->0, path, r),
    ensures
        name != "contact"@ || is_spelled_number("1.5"@) ==> defines(name, r),
{
    if name == "project"@ {
        lemma_project_text();
        lemma_spelled(project_definition());
        lemma_definition_read(project_definition(), path, r);
    } else if name == "contact"@ {
        if is_spelled_number("1.5"@) {
            let boost = real_written("1.5"@)->0;
            reveal_strlit("1.5");
            assert(is_plain_real(boost));
            lemma_contact_text(boost);
            lemma_spelled(contact_definition(boost));
            lemma_definition_read(contact_definition(boost), path, r);
        }
    } else if name == "literature-note"@ {
        lemma_literature_note_text();
        lemma_spelled(literature_note_definition());
        lemma_definition_read(literature_note_definition(), path, r);
    } else if name == "meeting-minutes"@ {
        lemma_meeting_minutes_text();
        lemma_spelled(meeting_minutes_definition());
        lemma_definition_read(meeting_minutes_definition(), path, r);
    } else {
        lemma_kanban_text();
        lemma_spelled(kanban_definition());
        lemma_definition_read(kanban_definition(), path, r);
    }
}

/// Whether a text writes a number that is written as that text.
pub open spec fn is_spelled_number(w: Seq<char>) -> bool {
    real_written(w) matches Some(n) && n.yaml == w
}

} // verus!
