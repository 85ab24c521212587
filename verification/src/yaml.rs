//! YAML: what a document holds, and the values of the front matter in it.
//!
//! Reading and writing YAML is the work of `serde_yaml`. Of its documents the
//! library keeps a tree of plain values.
use crate::text;
use crate::textmap::{self, TextMap};
use crate::types::{
    fields_view, lemma_fields_put, lemma_pairs_view, pairs_view, values_view, Real, RealView, Value,
    ValueView,
};
use serde_yaml::{Number as SerdeNumber, Value as SerdeValue};
use vstd::prelude::*;

verus! {

broadcast use vstd::string::group_string_axioms;

/// A number: how YAML writes it, and the floating-point number that it is.
#[derive(Debug)]
pub struct Number {
    pub text: String,
    pub value: Real,
}

/// A YAML document or a part of one.
#[derive(Debug)]
pub enum Yaml {
    Null,
    Bool(bool),
    Number(Number),
    Text(String),
    List(Vec<Yaml>),
    Mapping(Vec<(Yaml, Yaml)>),
    /// A value with a tag, as YAML writes it.
    Tagged(String),
}

pub enum YamlView {
    Null,
    Bool(bool),
    Number { text: Seq<char>, value: RealView },
    Text(Seq<char>),
    List(Seq<YamlView>),
    Mapping(Seq<(YamlView, YamlView)>),
    Tagged(Seq<char>),
}

pub open spec fn yaml_view(y: Yaml) -> YamlView
    decreases y,
{
    match y {
        Yaml::Null => YamlView::Null,
        Yaml::Bool(b) => YamlView::Bool(b),
        Yaml::Number(n) => YamlView::Number { text: n.text@, value: n.value@ },
        Yaml::Text(s) => YamlView::Text(s@),
        Yaml::List(l) => YamlView::List(list_view(l@)),
        Yaml::Mapping(m) => YamlView::Mapping(mapping_view(m@)),
        Yaml::Tagged(s) => YamlView::Tagged(s@),
    }
}

pub open spec fn list_view(s: Seq<Yaml>) -> Seq<YamlView>
    decreases s,
{
    if s.len() == 0 {
        Seq::empty()
    } else {
        list_view(s.drop_last()).push(yaml_view(s.last()))
    }
}

pub open spec fn mapping_view(s: Seq<(Yaml, Yaml)>) -> Seq<(YamlView, YamlView)>
    decreases s,
{
    if s.len() == 0 {
        Seq::empty()
    } else {
        mapping_view(s.drop_last()).push((yaml_view(s.last().0), yaml_view(s.last().1)))
    }
}

impl View for Yaml {
    type V = YamlView;

    open spec fn view(&self) -> YamlView {
        yaml_view(*self)
    }
}

pub proof fn lemma_mapping_view(s: Seq<(Yaml, Yaml)>)
    ensures
        mapping_view(s).len() == s.len(),
        forall|i: int|
            0 <= i < s.len() ==> #[trigger] mapping_view(s)[i] == (
                yaml_view(s[i].0),
                yaml_view(s[i].1),
            ),
    decreases s.len(),
{
    if s.len() > 0 {
        lemma_mapping_view(s.drop_last());
        assert forall|i: int| 0 <= i < s.len() implies #[trigger] mapping_view(s)[i] == (
            yaml_view(s[i].0),
            yaml_view(s[i].1),
        ) by {
            if i < s.len() - 1 {
                assert(s.drop_last()[i] == s[i]);
                assert(mapping_view(s)[i] == mapping_view(s.drop_last())[i]);
            }
        }
    }
}

pub proof fn lemma_list_view(s: Seq<Yaml>)
    ensures
        list_view(s).len() == s.len(),
        forall|i: int| 0 <= i < s.len() ==> #[trigger] list_view(s)[i] == yaml_view(s[i]),
    decreases s.len(),
{
    if s.len() > 0 {
        lemma_list_view(s.drop_last());
        assert forall|i: int| 0 <= i < s.len() implies #[trigger] list_view(s)[i] == yaml_view(
            s[i],
        ) by {
            if i < s.len() - 1 {
                assert(s.drop_last()[i] == s[i]);
                assert(list_view(s)[i] == list_view(s.drop_last())[i]);
            }
        }
    }
}

// ---------------------------------------------------------------------------
// The YAML library
// ---------------------------------------------------------------------------
/// A value of `serde_yaml`.
#[verifier::external_type_specification]
#[verifier::external_body]
pub struct ExSerdeValue(SerdeValue);

/// A number of `serde_yaml`.
#[verifier::external_type_specification]
#[verifier::external_body]
pub struct ExSerdeNumber(SerdeNumber);

/// A value as it is written: a scalar without quotes, a text in quotes, a whole
/// number and what it is as a floating-point number, scalars in an indented list, or
/// a value in its plain form, in which a list is indented or not.
pub enum Plain {
    Scalar(Seq<char>),
    Quoted(Seq<char>),
    Whole(Seq<char>, RealView),
    Items(Seq<Seq<char>>),
    Value(ValueView, bool),
}

/// Whether a character beyond ASCII is one that YAML takes and writes as it is, and
/// no white space.
pub open spec fn is_wide(c: char) -> bool {
    let n = c as int;
    (0xa1 <= n <= 0xd7ff || 0xe000 <= n <= 0xfffd) && n != 0xfeff && !text::is_space(c)
}

pub open spec fn is_letter(c: char) -> bool {
    ||| 'a' as int <= c as int <= 'z' as int
    ||| 'A' as int <= c as int <= 'Z' as int
    ||| c == '_'
    ||| is_wide(c)
}

pub open spec fn is_null_word(w: Seq<char>) -> bool {
    w == "null"@ || w == "Null"@ || w == "NULL"@
}

/// Whether YAML takes a word for null or a truth value.
pub open spec fn is_reserved(w: Seq<char>) -> bool {
    ||| is_null_word(w)
    ||| w == "true"@ || w == "True"@ || w == "TRUE"@
    ||| w == "false"@ || w == "False"@ || w == "FALSE"@
}

pub open spec fn is_word_char(c: char) -> bool {
    is_letter(c) || text::is_digit(c) || c == '-' || c == ' ' || c == '.' || c == '/' || c == '+'
}

/// Whether a text is one that YAML takes as it is: it begins with a letter or an
/// underscore, holds these, digits, spaces and a few other characters, and does not
/// end with a space.
pub open spec fn is_word(w: Seq<char>) -> bool {
    &&& w.len() > 0 && is_letter(w[0]) && w.last() != ' '
    &&& forall|i: int| 0 <= i < w.len() ==> is_word_char(#[trigger] w[i])
    &&& !is_reserved(w)
}

/// Whether a text is a date: `YYYY-MM-DD`.
pub open spec fn is_date(w: Seq<char>) -> bool {
    &&& w.len() == 10 && w[4] == '-' && w[7] == '-'
    &&& forall|i: int| 0 <= i < 10 && i != 4 && i != 7 ==> text::is_digit(#[trigger] w[i])
}

/// Whether a text that begins with a digit is no number: it is not written in
/// another base, and holds a space, a slash, or a letter that no number holds.
pub open spec fn is_digit_word(w: Seq<char>) -> bool {
    &&& w.len() > 0 && text::is_digit(w[0]) && w.last() != ' '
    &&& forall|i: int| 0 <= i < w.len() ==> is_word_char(#[trigger] w[i])
    &&& !(w.len() > 1 && w[0] == '0' && (w[1] == 'x' || w[1] == 'o' || w[1] == 'b'))
    &&& exists|i: int|
        0 <= i < w.len() && ((#[trigger] w[i]) == ' ' || w[i] == '/' || (is_letter(w[i]) && w[i]
            != 'e' && w[i] != 'E'))
}

pub open spec fn is_plain_text(w: Seq<char>) -> bool {
    is_word(w) || is_date(w) || is_digit_word(w)
}

/// Whether a text is one that YAML takes as a scalar without quotes: a text, a
/// number, a truth value or null. One that may be a number is not too long for it.
pub open spec fn is_scalar(w: Seq<char>) -> bool {
    &&& w.len() > 0 && (is_letter(w[0]) || text::is_digit(w[0])) && w.last() != ' '
    &&& forall|i: int| 0 <= i < w.len() ==> is_word_char(#[trigger] w[i])
    &&& is_letter(w[0]) || w.len() <= 18 || is_plain_text(w)
}

/// Whether a text is two words with a colon between them.
pub open spec fn is_coloned(w: Seq<char>) -> bool {
    exists|a: Seq<char>, b: Seq<char>| #[trigger]
        coloned(a, b) == w && is_word(a) && is_word(b)
}

pub open spec fn coloned(a: Seq<char>, b: Seq<char>) -> Seq<char> {
    a + ":"@ + b
}

/// Whether a text can stand between double quotes as it is: printable, without
/// double quotes and backslashes.
pub open spec fn is_quotable(w: Seq<char>) -> bool {
    forall|i: int|
        0 <= i < w.len() ==> (0x20 <= (#[trigger] w[i]) as int <= 0x7e || is_wide(w[i])) && w[i]
            != '"' && w[i] != '\\'
}

/// Whether a text is a whole number without zeros in front, of eighteen digits
/// at most.
pub open spec fn is_whole(w: Seq<char>) -> bool {
    0 < w.len() <= 18 && text::all_digits(w) && w[0] != '0'
}

/// The largest whole number up to which every one is a floating-point number.
pub const LARGEST_WHOLE: i64 = 9007199254740992;

/// Whether a number is whole, and small enough to be what it says.
pub open spec fn is_whole_real(n: RealView) -> bool {
    &&& n.yaml.len() > 0
    &&& forall|i: int|
        0 <= i < n.yaml.len() ==> text::is_digit(#[trigger] n.yaml[i]) || n.yaml[i] == '.'
            || n.yaml[i] == '-'
    &&& {
        ||| exists|k: int| 0 <= k <= LARGEST_WHOLE && n == #[trigger] real_of(k)
        ||| exists|k: int|
            -LARGEST_WHOLE <= k <= LARGEST_WHOLE && n == #[trigger] real_of_signed(k)
    }
}

/// Whether a number is written with digits, a point and a sign, and is read as what
/// it says.
pub open spec fn is_plain_real(n: RealView) -> bool {
    &&& n.yaml.len() > 0
    &&& forall|i: int|
        0 <= i < n.yaml.len() ==> text::is_digit(#[trigger] n.yaml[i]) || n.yaml[i] == '.'
            || n.yaml[i] == '-'
    &&& is_whole_real(n) || real_written(n.yaml) == Some(n)
}

/// Whether a text can be a key: a word of ASCII characters, and not a long one.
pub open spec fn is_key(k: Seq<char>) -> bool {
    &&& is_word(k) && k.len() <= 64
    &&& forall|i: int| 0 <= i < k.len() ==> 0x80 > (#[trigger] k[i]) as int
}

/// Whether a value is plain: a plain text, a truth value, a plain number, or lists
/// and mappings of such, nested so deep at most. A list holds no lists, and nothing
/// is empty.
pub open spec fn is_plain_value(v: ValueView, depth: nat) -> bool
    decreases depth,
{
    match v {
        ValueView::Text(w) => is_plain_text(w),
        ValueView::Bool(_) => true,
        ValueView::Number(n) => is_plain_real(n),
        ValueView::List(l) => depth > 0 && l.len() > 0 && forall|i: int|
            0 <= i < l.len() ==> !(#[trigger] l[i] is List) && is_plain_value(
                l[i],
                (depth - 1) as nat,
            ),
        ValueView::Mapping(m) => {
            &&& depth > 0 && m.len() > 0
            &&& forall|i: int|
                0 <= i < m.len() ==> is_key((#[trigger] m[i]).0) && is_plain_value(
                    m[i].1,
                    (depth - 1) as nat,
                )
            &&& forall|i: int, j: int|
                0 <= i < j < m.len() ==> (#[trigger] m[i]).0 != (#[trigger] m[j]).0
        },
    }
}

pub open spec fn is_plain(p: Plain) -> bool {
    match p {
        Plain::Scalar(w) => is_scalar(w) || is_coloned(w),
        Plain::Quoted(w) => is_quotable(w),
        Plain::Whole(w, n) => is_whole(w) && is_whole_real(n) && match text::scanned(
            w,
            LARGEST_WHOLE as int,
        ) {
            Ok(k) => n == real_of(k),
            Err(_) => false,
        },
        Plain::Items(l) => l.len() > 0 && forall|i: int|
            0 <= i < l.len() ==> is_scalar(#[trigger] l[i]),
        Plain::Value(v, _) => is_plain_value(v, 4),
    }
}

/// Whether entries can be written plainly: keys and values are plain, no key
/// occurs twice.
pub open spec fn are_plain(d: Seq<(Seq<char>, Plain)>) -> bool {
    &&& d.len() > 0
    &&& forall|i: int| 0 <= i < d.len() ==> is_key((#[trigger] d[i]).0) && is_plain(d[i].1)
    &&& forall|i: int, j: int|
        0 <= i < j < d.len() ==> (#[trigger] d[i]).0 != (#[trigger] d[j]).0
}

pub open spec fn bool_word(b: bool) -> Seq<char> {
    if b {
        "true"@
    } else {
        "false"@
    }
}

/// Lines with white space in front.
pub open spec fn indented(ls: Seq<Seq<char>>, by: Seq<char>) -> Seq<Seq<char>> {
    Seq::new(ls.len(), |i: int| by + ls[i])
}

/// Lines as an item of a list: a hyphen before the first, the others below it.
pub open spec fn dashed_lines(ls: Seq<Seq<char>>) -> Seq<Seq<char>> {
    Seq::new(
        ls.len(),
        |i: int|
            if i == 0 {
                "- "@ + ls[i]
            } else {
                "  "@ + ls[i]
            },
    )
}

/// The lines of a value under a key. `by` is what a list is indented by.
pub open spec fn value_lines(k: Seq<char>, v: ValueView, by: Seq<char>) -> Seq<Seq<char>>
    decreases v,
{
    match v {
        ValueView::Text(w) => seq![k + ": "@ + w],
        ValueView::Bool(b) => seq![k + ": "@ + bool_word(b)],
        ValueView::Number(n) => seq![k + ": "@ + n.yaml],
        ValueView::List(l) => seq![k + ":"@] + indented(item_lines(l, by), by),
        ValueView::Mapping(m) => seq![k + ":"@] + indented(field_lines(m, by), "  "@),
    }
}

/// The lines of the items of a list.
pub open spec fn item_lines(l: Seq<ValueView>, by: Seq<char>) -> Seq<Seq<char>>
    decreases l,
{
    if l.len() == 0 {
        Seq::empty()
    } else {
        item_lines(l.drop_last(), by) + match l.last() {
            ValueView::Text(w) => seq!["- "@ + w],
            ValueView::Bool(b) => seq!["- "@ + bool_word(b)],
            ValueView::Number(n) => seq!["- "@ + n.yaml],
            ValueView::Mapping(m) => dashed_lines(field_lines(m, by)),
            _ => Seq::empty(),
        }
    }
}

/// The lines of the fields of a mapping.
pub open spec fn field_lines(m: Seq<(Seq<char>, ValueView)>, by: Seq<char>) -> Seq<Seq<char>>
    decreases m,
{
    if m.len() == 0 {
        Seq::empty()
    } else {
        field_lines(m.drop_last(), by) + value_lines(m.last().0, m.last().1, by)
    }
}

pub open spec fn indentation(indent: bool) -> Seq<char> {
    if indent {
        "  "@
    } else {
        Seq::empty()
    }
}

/// The lines of an entry.
pub open spec fn entry_lines(k: Seq<char>, p: Plain) -> Seq<Seq<char>> {
    match p {
        Plain::Scalar(w) => seq![k + ": "@ + w],
        Plain::Quoted(w) => seq![k + ": \""@ + w + "\""@],
        Plain::Whole(w, _) => seq![k + ": "@ + w],
        Plain::Items(l) => seq![k + ":"@] + Seq::new(l.len(), |i: int| "  - "@ + l[i]),
        Plain::Value(v, indent) => value_lines(k, v, indentation(indent)),
    }
}

pub open spec fn plain_lines(d: Seq<(Seq<char>, Plain)>) -> Seq<Seq<char>>
    decreases d.len(),
{
    if d.len() == 0 {
        Seq::empty()
    } else {
        plain_lines(d.drop_last()) + entry_lines(d.last().0, d.last().1)
    }
}

/// Entries as YAML writes them plainly.
pub open spec fn plain_text(d: Seq<(Seq<char>, Plain)>) -> Seq<char> {
    text::join(plain_lines(d), "\n"@)
}

/// Whether a tree is what a scalar without quotes is read as, on its own or
/// elsewhere.
pub open spec fn is_scalar_of(y: YamlView, w: Seq<char>) -> bool {
    &&& parsed_yaml(w) == Ok::<YamlView, Seq<char>>(y)
    &&& y is Text || y is Number || y is Bool || y is Null
    &&& y matches YamlView::Text(t) ==> t == w
    &&& y is Null ==> is_null_word(w)
    &&& is_plain_text(w) || is_coloned(w) ==> y == YamlView::Text(w)
    &&& is_whole(w) ==> (y matches YamlView::Number { text: t, value: v } && t == w)
    &&& w == "true"@ ==> y == YamlView::Bool(true)
    &&& w == "false"@ ==> y == YamlView::Bool(false)
    &&& w == "null"@ ==> y == YamlView::Null
}

/// Whether a tree holds a plain value.
pub open spec fn holds(y: YamlView, p: Plain) -> bool {
    match p {
        Plain::Scalar(w) => is_scalar_of(y, w),
        Plain::Quoted(w) => y == YamlView::Text(w),
        Plain::Whole(w, n) => y == YamlView::Number { text: w, value: n },
        Plain::Items(l) => match y {
            YamlView::List(t) => t.len() == l.len() && forall|i: int|
                0 <= i < l.len() ==> is_scalar_of(#[trigger] t[i], l[i]),
            _ => false,
        },
        Plain::Value(v, _) => y == yaml_of(v),
    }
}

/// Whether a tree is a mapping of entries.
pub open spec fn holds_all(y: YamlView, d: Seq<(Seq<char>, Plain)>) -> bool {
    match y {
        YamlView::Mapping(m) => m.len() == d.len() && forall|i: int|
            0 <= i < d.len() ==> (#[trigger] m[i]).0 == YamlView::Text(d[i].0) && holds(
                m[i].1,
                d[i].1,
            ),
        _ => false,
    }
}

/// Whether a result of reading a text is the tree of the entries that it writes
/// plainly, where it does.
pub open spec fn reads_plain(s: Seq<char>, r: Result<Yaml, String>) -> bool {
    forall|d: Seq<(Seq<char>, Plain)>|
        writes(s, #[trigger] plain_text(d)) && are_plain(d) ==> match r {
            Ok(y) => holds_all(yaml_view(y), d),
            Err(_) => false,
        }
}

/// Whether a text is another one, or that and a line feed.
pub open spec fn writes(s: Seq<char>, t: Seq<char>) -> bool {
    s == t || s == t + "\n"@
}

/// Whether a text is read as the tree of the entries that it writes plainly, where
/// it does.
pub open spec fn is_read_plainly(s: Seq<char>) -> bool {
    forall|d: Seq<(Seq<char>, Plain)>|
        writes(s, #[trigger] plain_text(d)) && are_plain(d) ==> match parsed_yaml(s) {
            Ok(y) => holds_all(y, d),
            Err(_) => false,
        }
}

/// The mapping of one key.
pub open spec fn one_entry(k: Seq<char>, v: ValueView) -> YamlView {
    YamlView::Mapping(seq![(YamlView::Text(k), yaml_of(v))])
}

/// Whether a text is what is written for a tree, where that is plain: a scalar on
/// a line of its own, an entry in its lines, in which lists are not indented.
pub open spec fn writes_plain(y: YamlView, s: Seq<char>) -> bool {
    &&& y matches YamlView::Text(w) ==> is_plain_text(w) || is_coloned(w) ==> s == w + "\n"@
    &&& y matches YamlView::Bool(b) ==> s == bool_word(b) + "\n"@
    &&& y is Null ==> s == "null\n"@
    &&& y matches YamlView::Number { text: w, value: _ } ==> is_whole(w) ==> s == w + "\n"@
    &&& forall|n: RealView|
        y == #[trigger] yaml_of(ValueView::Number(n)) && is_plain_real(n) ==> s == n.yaml + "\n"@
    &&& forall|k: Seq<char>, v: ValueView|
        #![trigger one_entry(k, v)]
        y == one_entry(k, v) && is_key(k) && is_plain_value(v, 4) ==> s == text::join(
            value_lines(k, v, Seq::empty()),
            "\n"@,
        ) + "\n"@
}

/// What `serde_yaml::from_str` reads from a text, or its message.
pub uninterp spec fn parsed_yaml(s: Seq<char>) -> Result<YamlView, Seq<char>>;

/// The fields that `serde_yaml::from_str` reads from a text, key by key, or its
/// message.
pub uninterp spec fn parsed_fields(s: Seq<char>) -> Result<Seq<(Seq<char>, YamlView)>, Seq<char>>;

/// What `serde_yaml::to_string` writes for a tree; empty where it fails.
pub uninterp spec fn emitted_yaml(y: YamlView) -> Seq<char>;

/// An unsigned integer of 64 bits as a floating-point number, by
/// `serde_yaml::Number`.
pub uninterp spec fn real_of(n: int) -> RealView;

/// A signed integer of 64 bits as a floating-point number, by
/// `serde_yaml::Number`.
pub uninterp spec fn real_of_signed(n: int) -> RealView;

/// `serde_yaml::from_str` on a text: the tree that it holds, or the error's
/// message. The result is named `parsed_yaml`. Entries that are written plainly
/// are read as they are: a plain scalar is a text unless it is null, a truth
/// value or a number, and a line that is indented or begins with a hyphen belongs
/// to the one above.
#[verifier::external_body]
pub(crate) fn read_yaml(s: &str) -> (r: Result<Yaml, String>)
    ensures
        match r {
            Ok(y) => parsed_yaml(s@) == Ok::<YamlView, Seq<char>>(yaml_view(y)),
            Err(e) => parsed_yaml(s@) == Err::<YamlView, Seq<char>>(e@),
        },
        reads_plain(s@, r),
{
    match serde_yaml::from_str::<SerdeValue>(s) {
        Ok(v) => Ok(tree_of(v)),
        Err(e) => Err(e.to_string()),
    }
}

/// Fields with the views of their values.
pub open spec fn tree_fields(m: Seq<(String, Yaml)>) -> Seq<(Seq<char>, YamlView)> {
    Seq::new(m.len(), |i: int| (m[i].0@, yaml_view(m[i].1)))
}

/// Whether fields hold entries, in whatever order.
pub open spec fn fields_hold(f: Seq<(Seq<char>, YamlView)>, d: Seq<(Seq<char>, Plain)>) -> bool {
    &&& forall|i: int| 0 <= i < f.len() ==> field_holds(#[trigger] f[i], d)
    &&& forall|j: int| 0 <= j < d.len() ==> textmap::keys(f).contains((#[trigger] d[j]).0)
}

pub open spec fn field_holds(e: (Seq<char>, YamlView), d: Seq<(Seq<char>, Plain)>) -> bool {
    exists|j: int| 0 <= j < d.len() && (#[trigger] d[j]).0 == e.0 && holds(e.1, d[j].1)
}

/// Whether a result of reading the fields of a text is the entries that it writes
/// plainly, where it does.
pub open spec fn reads_fields(s: Seq<char>, r: Result<Vec<(String, Yaml)>, String>) -> bool {
    forall|d: Seq<(Seq<char>, Plain)>|
        writes(s, #[trigger] plain_text(d)) && are_plain(d) ==> match r {
            Ok(m) => fields_hold(tree_fields(m@), d),
            Err(_) => false,
        }
}

/// `serde_yaml::from_str` on a text that is a mapping, into a map from texts: the
/// keys as they are written, in their order, of a key that occurs more than once
/// the last value. The result is named `parsed_fields`. Entries that are written
/// plainly are read as they are.
#[verifier::external_body]
pub(crate) fn read_fields(s: &str) -> (r: Result<Vec<(String, Yaml)>, String>)
    ensures
        match r {
            Ok(m) => parsed_fields(s@) == Ok::<Seq<(Seq<char>, YamlView)>, Seq<char>>(
                tree_fields(m@),
            ) && text::ascending(textmap::keys(tree_fields(m@))),
            Err(e) => parsed_fields(s@) == Err::<Seq<(Seq<char>, YamlView)>, Seq<char>>(e@),
        },
        reads_fields(s@, r),
{
    match serde_yaml::from_str::<std::collections::BTreeMap<String, SerdeValue>>(s) {
        Ok(m) => Ok(m.into_iter().map(|(k, v)| (k, tree_of(v))).collect()),
        Err(e) => Err(e.to_string()),
    }
}

/// `serde_yaml::to_string` on a tree; the empty text where it fails. The
/// result is named `emitted_yaml`. A plain text, a truth value and a plain number
/// are written as they are, lists and mappings of such in lines, null as such.
#[verifier::external_body]
pub(crate) fn write_yaml(y: &Yaml) -> (r: String)
    ensures
        r@ == emitted_yaml(yaml_view(*y)),
        writes_plain(yaml_view(*y), r@),
{
    serde_yaml::to_string(&serde_of(y)).unwrap_or_default()
}

/// A value of `serde_yaml`, node by node as the library's tree. Nothing is
/// promised of it on its own.
#[verifier::external_body]
fn tree_of(v: SerdeValue) -> (y: Yaml) {
    match v {
        SerdeValue::Null => Yaml::Null,
        SerdeValue::Bool(b) => Yaml::Bool(b),
        SerdeValue::Number(n) => Yaml::Number(Number { text: n.to_string(), value: float_of(n) }),
        SerdeValue::String(s) => Yaml::Text(s),
        SerdeValue::Sequence(l) => Yaml::List(l.into_iter().map(tree_of).collect()),
        SerdeValue::Mapping(m) => Yaml::Mapping(
            m.into_iter().map(|(k, v)| (tree_of(k), tree_of(v))).collect(),
        ),
        SerdeValue::Tagged(t) => Yaml::Tagged(serde_yaml::to_string(&t).unwrap_or_default()),
    }
}

/// The library's tree, node by node as a value of `serde_yaml`; a number is
/// read back from how YAML writes it. Nothing is promised of it on its own.
#[verifier::external_body]
fn serde_of(y: &Yaml) -> (v: SerdeValue) {
    match y {
        Yaml::Null => SerdeValue::Null,
        Yaml::Tagged(s) => serde_yaml::from_str(s).unwrap_or_default(),
        Yaml::Bool(b) => SerdeValue::Bool(*b),
        Yaml::Number(n) => serde_yaml::from_str(&n.text).unwrap_or_default(),
        Yaml::Text(s) => SerdeValue::String(s.clone()),
        Yaml::List(l) => SerdeValue::Sequence(l.iter().map(serde_of).collect()),
        Yaml::Mapping(m) => SerdeValue::Mapping(
            m.iter().map(|(k, v)| (serde_of(k), serde_of(v))).collect(),
        ),
    }
}

/// `serde_yaml::Number::as_f64` on a number, and what is read of the result.
/// Nothing is promised of it on its own.
#[verifier::external_body]
fn float_of(n: SerdeNumber) -> (r: Real) {
    let x = n.as_f64().unwrap_or_default();
    Real {
        display: x.to_string(),
        debug: format!("{x:?}"),
        yaml: SerdeNumber::from(x).to_string(),
        as_u64: x as u64,
        as_i64: x as i64,
    }
}

/// `serde_yaml::Number::from` on an unsigned integer, as the floating-point
/// number nearest to it, named `real_of`. Up to two to the power of 53 that
/// number is the integer itself, and is written with digits and a point.
#[verifier::external_body]
pub(crate) fn real_from_u64(n: u64) -> (r: Real)
    ensures
        r@ == real_of(n as int),
        n <= LARGEST_WHOLE ==> r.as_u64 == n && is_whole_real(r@),
{
    float_of(SerdeNumber::from(n))
}

/// `serde_yaml::Number::from` on a signed integer, as the floating-point
/// number nearest to it, named `real_of_signed`. Up to two to the power of 53, on
/// either side of zero, it is written with a sign, digits and a point.
#[verifier::external_body]
pub(crate) fn real_from_i64(n: i64) -> (r: Real)
    ensures
        r@ == real_of_signed(n as int),
        -LARGEST_WHOLE <= n <= LARGEST_WHOLE ==> is_whole_real(r@),
{
    float_of(SerdeNumber::from(n))
}

/// The floating-point number that a text writes, if it writes one; by `str`.
pub uninterp spec fn real_written(s: Seq<char>) -> Option<RealView>;

/// `str::parse` to a floating-point number of 64 bits, named `real_written`.
#[verifier::external_body]
pub(crate) fn real_from_text(s: &str) -> (r: Option<Real>)
    ensures
        match r {
            Some(n) => real_written(s@) == Some(n@),
            None => real_written(s@) is None,
        },
{
    match automerge::ScalarValue::F64(s.parse().ok()?) {
        automerge::ScalarValue::F64(x) => Some(float_of(SerdeNumber::from(x))),
        _ => None,
    }
}

// ---------------------------------------------------------------------------
// Between YAML and values
// ---------------------------------------------------------------------------
/// The value that a YAML tree stands for. Of a mapping the entries with a text
/// as key count; a null or tagged node is an empty text.
pub open spec fn value_of(y: YamlView) -> ValueView
    decreases y,
{
    match y {
        YamlView::Text(s) => ValueView::Text(s),
        YamlView::Number { text, value } => ValueView::Number(value),
        YamlView::Bool(b) => ValueView::Bool(b),
        YamlView::List(l) => ValueView::List(values_of(l)),
        YamlView::Mapping(m) => ValueView::Mapping(fields_of(m)),
        YamlView::Null => ValueView::Text(Seq::empty()),
        YamlView::Tagged(_) => ValueView::Text(Seq::empty()),
    }
}

pub open spec fn values_of(l: Seq<YamlView>) -> Seq<ValueView>
    decreases l,
{
    if l.len() == 0 {
        Seq::empty()
    } else {
        values_of(l.drop_last()).push(value_of(l.last()))
    }
}

pub open spec fn fields_of(m: Seq<(YamlView, YamlView)>) -> Seq<(Seq<char>, ValueView)>
    decreases m,
{
    if m.len() == 0 {
        Seq::empty()
    } else {
        match m.last().0 {
            YamlView::Text(k) => textmap::put(
                fields_of(m.drop_last()),
                k,
                value_of(m.last().1),
            ),
            _ => fields_of(m.drop_last()),
        }
    }
}

/// The YAML tree that writes a value.
pub open spec fn yaml_of(v: ValueView) -> YamlView
    decreases v,
{
    match v {
        ValueView::Text(s) => YamlView::Text(s),
        ValueView::Number(n) => YamlView::Number { text: n.yaml, value: n },
        ValueView::Bool(b) => YamlView::Bool(b),
        ValueView::List(l) => YamlView::List(yamls_of(l)),
        ValueView::Mapping(m) => YamlView::Mapping(entries_of(m)),
    }
}

pub open spec fn yamls_of(l: Seq<ValueView>) -> Seq<YamlView>
    decreases l,
{
    if l.len() == 0 {
        Seq::empty()
    } else {
        yamls_of(l.drop_last()).push(yaml_of(l.last()))
    }
}

pub open spec fn entries_of(m: Seq<(Seq<char>, ValueView)>) -> Seq<(YamlView, YamlView)>
    decreases m,
{
    if m.len() == 0 {
        Seq::empty()
    } else {
        entries_of(m.drop_last()).push((YamlView::Text(m.last().0), yaml_of(m.last().1)))
    }
}

pub fn from_yaml(y: &Yaml) -> (r: Value)
    ensures
        r@ == value_of(y@),
    decreases y,
{
    match y {
        Yaml::Text(s) => Value::String(text::copy(s.as_str())),
        Yaml::Number(n) => Value::Number(n.value.copy()),
        Yaml::Bool(b) => Value::Bool(*b),
        Yaml::List(l) => {
            let mut out: Vec<Value> = Vec::new();
            let mut i: usize = 0;
            proof {
                assert(l@.take(0) =~= Seq::<Yaml>::empty());
            }
            while i < l.len()
                invariant
                    i <= l@.len(),
                    values_view(out@) == values_of(list_view(l@.take(i as int))),
                decreases l@.len() - i,
            {
                let v = from_yaml(&l[i]);
                proof {
                    let t = l@.take(i + 1);
                    assert(t.drop_last() =~= l@.take(i as int));
                    assert(list_view(t).drop_last() =~= list_view(l@.take(i as int)));
                    assert(out@.push(v).drop_last() =~= out@);
                }
                out.push(v);
                i = i + 1;
            }
            proof {
                assert(l@.take(i as int) =~= l@);
            }
            Value::List(out)
        },
        Yaml::Mapping(m) => {
            let mut out: TextMap<Value> = TextMap::new();
            let mut i: usize = 0;
            proof {
                lemma_pairs_view(out.entries@);
                assert(out@.len() == out.entries@.len());
                assert(m@.take(0) =~= Seq::<(Yaml, Yaml)>::empty());
                assert(fields_view(out) =~= Seq::<(Seq<char>, ValueView)>::empty());
            }
            while i < m.len()
                invariant
                    i <= m@.len(),
                    fields_view(out) == fields_of(mapping_view(m@.take(i as int))),
                decreases m@.len() - i,
            {
                proof {
                    let t = m@.take(i + 1);
                    assert(t.drop_last() =~= m@.take(i as int));
                    assert(mapping_view(t).drop_last() =~= mapping_view(m@.take(i as int)));
                    assert(t.last() == m@[i as int]);
                    assert(mapping_view(t).last() == (yaml_view(m@[i as int].0), yaml_view(
                        m@[i as int].1,
                    )));
                    assert(yaml_view(m@[i as int].0) is Text == m@[i as int].0 is Text);
                }
                if let Yaml::Text(k) = &m[i].0 {
                    let v = from_yaml(&m[i].1);
                    let ghost before = out;
                    out.insert(text::copy(k.as_str()), v);
                    proof {
                        lemma_fields_put(before, out, k@, v);
                    }
                }
                i = i + 1;
            }
            proof {
                assert(m@.take(i as int) =~= m@);
            }
            Value::Mapping(out)
        },
        Yaml::Null | Yaml::Tagged(_) => {
            let s = String::new();
            proof {
                assert(s@ =~= Seq::<char>::empty());
            }
            Value::String(s)
        },
    }
}

pub fn to_yaml(v: &Value) -> (r: Yaml)
    ensures
        r@ == yaml_of(v@),
    decreases v,
{
    match v {
        Value::String(s) => Yaml::Text(text::copy(s.as_str())),
        Value::Number(n) => Yaml::Number(
            Number { text: text::copy(n.yaml.as_str()), value: n.copy() },
        ),
        Value::Bool(b) => Yaml::Bool(*b),
        Value::List(l) => {
            let mut out: Vec<Yaml> = Vec::new();
            let mut i: usize = 0;
            proof {
                assert(l@.take(0) =~= Seq::<Value>::empty());
            }
            while i < l.len()
                invariant
                    i <= l@.len(),
                    list_view(out@) == yamls_of(values_view(l@.take(i as int))),
                decreases l@.len() - i,
            {
                let y = to_yaml(&l[i]);
                proof {
                    let t = l@.take(i + 1);
                    assert(t.drop_last() =~= l@.take(i as int));
                    assert(values_view(t).drop_last() =~= values_view(l@.take(i as int)));
                    assert(out@.push(y).drop_last() =~= out@);
                }
                out.push(y);
                i = i + 1;
            }
            proof {
                assert(l@.take(i as int) =~= l@);
            }
            Yaml::List(out)
        },
        Value::Mapping(m) => {
            let mut out: Vec<(Yaml, Yaml)> = Vec::new();
            let ghost all = m.entries@;
            let mut i: usize = 0;
            proof {
                assert(all.take(0) =~= Seq::<(String, Value)>::empty());
            }
            while i < m.entries.len()
                invariant
                    i <= all.len(),
                    all == m.entries@,
                    mapping_view(out@) == entries_of(pairs_view(all.take(i as int))),
                decreases all.len() - i,
            {
                let k = Yaml::Text(text::copy(m.entries[i].0.as_str()));
                let y = to_yaml(&m.entries[i].1);
                proof {
                    let t = all.take(i + 1);
                    assert(t.drop_last() =~= all.take(i as int));
                    assert(pairs_view(t).drop_last() =~= pairs_view(all.take(i as int)));
                    assert(out@.push((k, y)).drop_last() =~= out@);
                    assert(t.last() == all[i as int]);
                    assert(yaml_view(k) == YamlView::Text(all[i as int].0@));
                    assert(out@.push((k, y)).last() == (k, y));
                    assert(mapping_view(out@.push((k, y))) == mapping_view(out@).push(
                        (yaml_view(k), yaml_view(y)),
                    ));
                }
                out.push((k, y));
                i = i + 1;
            }
            proof {
                assert(all.take(i as int) =~= all);
            }
            Yaml::Mapping(out)
        },
    }
}

/// Whether the mappings in a value have their keys in order, each once.
pub open spec fn in_order(v: ValueView) -> bool
    decreases v,
{
    match v {
        ValueView::List(l) => all_in_order(l),
        ValueView::Mapping(m) => textmap_in_order(m),
        _ => true,
    }
}

pub open spec fn all_in_order(l: Seq<ValueView>) -> bool
    decreases l,
{
    l.len() == 0 || all_in_order(l.drop_last()) && in_order(l.last())
}

pub open spec fn textmap_in_order(m: Seq<(Seq<char>, ValueView)>) -> bool
    decreases m,
{
    m.len() == 0 || textmap_in_order(m.drop_last()) && in_order(m.last().1) && forall|i: int|
        0 <= i < m.len() - 1 ==> text::lt(#[trigger] m[i].0, m.last().0)
}

/// A value taken to its YAML tree and back is the same value.
pub proof fn law_value_round_trip(v: ValueView)
    requires
        in_order(v),
    ensures
        value_of(yaml_of(v)) == v,
    decreases v,
{
    match v {
        ValueView::List(l) => {
            lemma_values_round_trip(l);
        },
        ValueView::Mapping(m) => {
            lemma_fields_round_trip(m);
        },
        _ => {},
    }
}

proof fn lemma_values_round_trip(l: Seq<ValueView>)
    requires
        all_in_order(l),
    ensures
        values_of(yamls_of(l)) == l,
    decreases l,
{
    if l.len() > 0 {
        lemma_values_round_trip(l.drop_last());
        law_value_round_trip(l.last());
        let y = yamls_of(l);
        assert(y.drop_last() =~= yamls_of(l.drop_last()));
        assert(values_of(y) =~= l);
    } else {
        assert(values_of(yamls_of(l)) =~= l);
    }
}

proof fn lemma_fields_round_trip(m: Seq<(Seq<char>, ValueView)>)
    requires
        textmap_in_order(m),
    ensures
        fields_of(entries_of(m)) == m,
    decreases m,
{
    if m.len() > 0 {
        lemma_fields_round_trip(m.drop_last());
        law_value_round_trip(m.last().1);
        let y = entries_of(m);
        assert(y.drop_last() =~= entries_of(m.drop_last()));
        let d = m.drop_last();
        assert forall|i: int| 0 <= i < d.len() implies text::lt(#[trigger] d[i].0, m.last().0) by {
            assert(d[i] == m[i]);
        }
        textmap::lemma_place_is(d, m.last().0, d.len() as int);
        assert(textmap::put(d, m.last().0, m.last().1) =~= m);
    } else {
        assert(fields_of(entries_of(m)) =~= m);
    }
}

} // verus!
