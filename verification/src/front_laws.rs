//! Front matter of plain values: what is written is read back.
use crate::error::{ErrorView, ZettelError};
use crate::parse_laws::{is_settled, law_split_front, note_of};
use crate::parser::{
    are_lines, entry_text, extras_text, inline_fields_of, is_integer, is_line, is_promoted,
    is_reading, is_rule, is_text, is_writing, meta_of_entries, meta_text, needs_quotes, opt_line,
    promoted_text, quoted_line, scalar_line, split_view, tag_items, tag_lines, tags_text, unlines,
    with_entry, with_path_id, yaml_quoted,
};
use crate::text::{self, join, trimmed};
use crate::textmap::{self, lookup, put};
use crate::types::{empty_meta, MetaView, ParsedZettel, RealView, ValueView, ZonesView};
use crate::yaml::{
    are_plain, bool_word, coloned, dashed_lines, emitted_yaml, entry_lines, field_lines, holds,
    in_order, indentation, is_coloned, is_date, is_digit_word, is_key, is_letter, is_null_word,
    is_plain, is_plain_text, is_plain_value, is_quotable, is_scalar, is_scalar_of, is_whole,
    is_plain_real, is_wide, is_word, is_word_char, item_lines, law_value_round_trip, one_entry,
    plain_lines, plain_text, value_lines, value_of, writes, writes_plain, yaml_of, yamls_of, Plain,
    YamlView,
};
use crate::written::{scalar_text, written_items, written_value};
use vstd::prelude::*;

verus! {

broadcast use vstd::string::group_string_axioms;

pub type Entry = (Seq<char>, Plain);

pub open spec fn with_opt(d: Seq<Entry>, k: Seq<char>, p: Option<Plain>) -> Seq<Entry> {
    match p {
        Some(v) => d.push((k, v)),
        None => d,
    }
}

/// A text as it is written: in quotes where it needs them.
pub open spec fn text_plain(w: Seq<char>) -> Plain {
    if needs_quotes(w) {
        Plain::Quoted(w)
    } else {
        Plain::Scalar(w)
    }
}

pub open spec fn value_plain(v: ValueView) -> Plain {
    match v {
        ValueView::Text(w) => text_plain(w),
        _ => Plain::Value(v, false),
    }
}

pub open spec fn opt_plain(o: Option<Seq<char>>) -> Option<Plain> {
    match o {
        Some(w) => Some(text_plain(w)),
        None => None,
    }
}

pub open spec fn opt_scalar(o: Option<Seq<char>>) -> Option<Plain> {
    match o {
        Some(w) => Some(Plain::Scalar(w)),
        None => None,
    }
}

pub open spec fn opt_value(o: Option<ValueView>) -> Option<Plain> {
    match o {
        Some(v) => Some(value_plain(v)),
        None => None,
    }
}

pub open spec fn texts_value(l: Seq<Seq<char>>) -> ValueView {
    ValueView::List(Seq::new(l.len(), |i: int| ValueView::Text(l[i])))
}

pub open spec fn opt_texts(l: Seq<Seq<char>>) -> Option<Plain> {
    if l.len() > 0 {
        Some(Plain::Items(l))
    } else {
        None
    }
}

/// The entries of the fields that every front matter may have.
pub open spec fn base_entries(m: MetaView) -> Seq<Entry> {
    let a = with_opt(Seq::empty(), "id"@, opt_scalar(m.id));
    let b = with_opt(a, "title"@, opt_plain(m.title));
    let c = with_opt(b, "date"@, opt_plain(m.date));
    let d = with_opt(c, "tags"@, opt_texts(m.tags));
    with_opt(d, "type"@, opt_plain(m.zettel_type))
}

/// The entries of the other fields, but for the promoted ones.
pub open spec fn other_entries(e: Seq<(Seq<char>, ValueView)>) -> Seq<Entry>
    decreases e.len(),
{
    if e.len() == 0 {
        Seq::empty()
    } else if is_promoted(e.last().0) {
        other_entries(e.drop_last())
    } else {
        other_entries(e.drop_last()).push((e.last().0, value_plain(e.last().1)))
    }
}

/// The entries of the promoted fields.
pub open spec fn promoted_entries(e: Seq<(Seq<char>, ValueView)>) -> Seq<Entry> {
    let a = with_opt(Seq::empty(), "publish"@, opt_value(lookup(e, "publish"@)));
    with_opt(a, "processed"@, opt_value(lookup(e, "processed"@)))
}

/// The entries of a front matter.
pub open spec fn front_entries(m: MetaView) -> Seq<Entry> {
    base_entries(m) + (promoted_entries(m.extra) + other_entries(m.extra))
}

/// Whether a text can be a title: a scalar, whatever YAML takes it for, unless that
/// is null, or one that is put in quotes and can stand there as it is.
pub open spec fn is_front_text(w: Seq<char>) -> bool {
    is_scalar(w) && !is_null_word(w) || needs_quotes(w) && is_quotable(w)
}

pub open spec fn is_front_opt(o: Option<Seq<char>>) -> bool {
    o matches Some(w) ==> is_front_text(w)
}

/// Whether a name is not that of a field that every front matter may have.
pub open spec fn is_name(k: Seq<char>) -> bool {
    k != "id"@ && k != "title"@ && k != "date"@ && k != "tags"@ && k != "type"@
}

/// Whether a key is that of another field.
pub open spec fn is_other_key(k: Seq<char>) -> bool {
    is_key(k) && is_name(k)
}

/// Whether a value of another field is plain: a plain text, two words with a
/// colon between them, a truth value, a whole number, or lists and mappings of
/// plain values.
pub open spec fn is_other_value(k: Seq<char>, v: ValueView) -> bool {
    match v {
        ValueView::Text(w) => is_plain_text(w) || is_coloned(w),
        ValueView::Bool(_) => true,
        ValueView::Number(n) => is_plain_real(n),
        _ => !is_promoted(k) && is_plain_value(v, 4) && in_order(v),
    }
}

pub open spec fn are_other_fields(e: Seq<(Seq<char>, ValueView)>) -> bool {
    &&& text::ascending(textmap::keys(e))
    &&& forall|i: int|
        0 <= i < e.len() ==> is_other_key((#[trigger] e[i]).0) && is_other_value(e[i].0, e[i].1)
}

/// Whether a front matter holds plain values: a number as identifier, scalars as
/// date and tags, a title and a type, other fields with plain values, and one of
/// these at least.
pub open spec fn is_plain_meta(m: MetaView) -> bool {
    &&& m.id matches Some(w) ==> is_whole(w)
    &&& m.date matches Some(w) ==> is_scalar(w) && !is_null_word(w)
    &&& is_front_opt(m.title) && is_front_opt(m.zettel_type)
    &&& forall|i: int| 0 <= i < m.tags.len() ==> is_scalar(#[trigger] m.tags[i])
    &&& are_other_fields(m.extra)
    &&& front_entries(m).len() > 0
}

/// The lines of a front matter of plain values.
pub open spec fn front_lines(m: MetaView) -> Seq<Seq<char>> {
    plain_lines(front_entries(m))
}

/// A front matter of plain values as text.
pub open spec fn plain_front(m: MetaView) -> Seq<char> {
    plain_text(front_entries(m))
}

/// A note with front matter of plain values as text.
pub open spec fn plain_note(m: MetaView, body: Seq<char>, reference: Seq<char>) -> Seq<char> {
    note_of(front_lines(m), body, reference)
}

// ---------------------------------------------------------------------------
// Reading
// ---------------------------------------------------------------------------
pub open spec fn plain_value(p: Plain) -> ValueView {
    match p {
        Plain::Scalar(w) => ValueView::Text(w),
        Plain::Quoted(w) => ValueView::Text(w),
        Plain::Whole(_, n) => ValueView::Number(n),
        Plain::Items(l) => texts_value(l),
        Plain::Value(v, _) => v,
    }
}

pub open spec fn plain_word(p: Plain) -> Seq<char> {
    plain_value(p)->Text_0
}

pub open spec fn plain_words(p: Plain) -> Seq<Seq<char>> {
    let l = plain_value(p)->List_0;
    Seq::new(l.len(), |i: int| l[i]->Text_0)
}

/// The value that an entry is read as: a mapping has its keys in order.
pub open spec fn value_read(p: Plain) -> ValueView {
    value_of(yaml_of(plain_value(p)))
}

/// The front matter with an entry more.
pub open spec fn with_plain(m: MetaView, e: Entry) -> MetaView {
    if e.0 == "id"@ {
        MetaView { id: Some(plain_word(e.1)), ..m }
    } else if e.0 == "title"@ {
        MetaView { title: Some(plain_word(e.1)), ..m }
    } else if e.0 == "date"@ {
        MetaView { date: Some(plain_word(e.1)), ..m }
    } else if e.0 == "type"@ {
        MetaView { zettel_type: Some(plain_word(e.1)), ..m }
    } else if e.0 == "tags"@ {
        MetaView { tags: plain_words(e.1), ..m }
    } else {
        MetaView { extra: put(m.extra, e.0, value_read(e.1)), ..m }
    }
}

/// The front matter that entries make.
pub open spec fn meta_from(d: Seq<Entry>) -> MetaView
    decreases d.len(),
{
    if d.len() == 0 {
        empty_meta()
    } else {
        with_plain(meta_from(d.drop_last()), d.last())
    }
}

/// Whether an entry is of a kind that its key takes.
pub open spec fn is_front_entry(e: Entry) -> bool {
    if e.0 == "id"@ {
        e.1 matches Plain::Scalar(w) && is_whole(w)
    } else if e.0 == "title"@ || e.0 == "date"@ || e.0 == "type"@ {
        match e.1 {
            Plain::Scalar(w) => !is_null_word(w),
            Plain::Quoted(_) => true,
            _ => false,
        }
    } else if e.0 == "tags"@ {
        e.1 is Items
    } else {
        match e.1 {
            Plain::Scalar(w) => is_plain_text(w) || is_coloned(w),
            Plain::Quoted(_) => true,
            Plain::Whole(_, _) => true,
            Plain::Items(l) => forall|i: int| 0 <= i < l.len() ==> is_plain_text(#[trigger] l[i]),
            Plain::Value(_, _) => true,
        }
    }
}

pub open spec fn are_front_entries(d: Seq<Entry>) -> bool {
    forall|i: int| 0 <= i < d.len() ==> is_front_entry(#[trigger] d[i])
}

/// Whether entries are those of a front matter, plainly written.
pub open spec fn is_front(d: Seq<Entry>) -> bool {
    are_plain(d) && are_front_entries(d)
}

pub(crate) proof fn lemma_keys()
    ensures
        is_key("id"@) && is_key("title"@) && is_key("date"@) && is_key("tags"@) && is_key("type"@),
        is_other_key("publish"@) && is_other_key("processed"@),
        "id"@.len() == 2 && "title"@.len() == 5 && "date"@.len() == 4 && "tags"@.len() == 4
            && "type"@.len() == 4 && "publish"@.len() == 7 && "processed"@.len() == 9,
        "date"@ != "tags"@ && "date"@ != "type"@ && "tags"@ != "type"@,
{
    reveal_strlit("id");
    reveal_strlit("title");
    reveal_strlit("date");
    reveal_strlit("tags");
    reveal_strlit("type");
    reveal_strlit("publish");
    reveal_strlit("processed");
    reveal_strlit("null");
    reveal_strlit("Null");
    reveal_strlit("NULL");
    reveal_strlit("true");
    reveal_strlit("True");
    reveal_strlit("TRUE");
    reveal_strlit("false");
    reveal_strlit("False");
    reveal_strlit("FALSE");
    assert("date"@[0] == 'd' && "tags"@[0] == 't' && "type"@[0] == 't' && "tags"@[1] == 'a'
        && "type"@[1] == 'y');
    assert("title"@[0] == 't' && "false"@[0] == 'f' && "False"@[0] == 'F' && "FALSE"@[0] == 'F');
    assert("null"@[0] == 'n' && "Null"@[0] == 'N' && "NULL"@[0] == 'N');
    assert("true"@[1] == 'r' && "True"@[0] == 'T' && "TRUE"@[0] == 'T');
    assert("publish"@.last() == 'h' && "publish"@[0] == 'p');
    assert("processed"@.last() == 'd' && "processed"@[0] == 'p');
    assert(is_word("publish"@));
    assert(is_word("processed"@));
}

/// A scalar whose text is known is that text.
proof fn lemma_scalar_text(y: YamlView, w: Seq<char>)
    requires
        is_scalar_of(y, w),
    ensures
        scalar_text(y, Some(w)) == Some(w),
{
}

proof fn lemma_tag_items(l: Seq<YamlView>, ws: Seq<Seq<char>>, written: Seq<Seq<char>>)
    requires
        l.len() == ws.len() <= written.len(),
        forall|i: int|
            0 <= i < l.len() ==> is_scalar_of(#[trigger] l[i], ws[i]) && written[i] == ws[i],
    ensures
        tag_items(l, written) == Some(ws),
    decreases l.len(),
{
    if l.len() == 0 {
        assert(ws =~= Seq::<Seq<char>>::empty());
    } else {
        let d = l.drop_last();
        let n = l.len() - 1;
        assert forall|i: int| 0 <= i < d.len() implies is_scalar_of(
            #[trigger] d[i],
            ws.drop_last()[i],
        ) && written[i] == ws.drop_last()[i] by {
            assert(d[i] == l[i]);
        }
        lemma_tag_items(d, ws.drop_last(), written);
        assert(is_scalar_of(l[n], ws[n]));
        lemma_scalar_text(l[n], ws[n]);
        assert(ws =~= ws.drop_last().push(ws.last()));
    }
}

pub(crate) proof fn lemma_yamls(l: Seq<ValueView>)
    ensures
        yamls_of(l).len() == l.len(),
        forall|i: int| 0 <= i < l.len() ==> #[trigger] yamls_of(l)[i] == yaml_of(l[i]),
    decreases l.len(),
{
    if l.len() > 0 {
        lemma_yamls(l.drop_last());
        assert forall|i: int| 0 <= i < l.len() implies #[trigger] yamls_of(l)[i] == yaml_of(l[i]) by {
            if i < l.len() - 1 {
                assert(yamls_of(l)[i] == yamls_of(l.drop_last())[i]);
                assert(l.drop_last()[i] == l[i]);
            }
        }
    }
}

/// Whether an entry is found among lines as it is written.
pub open spec fn is_written(ls: Seq<Seq<char>>, e: Entry) -> bool {
    match e.1 {
        Plain::Scalar(w) => written_value(ls, e.0) == Some(w),
        Plain::Items(l) => written_items(ls, e.0) == l,
        _ => true,
    }
}

/// Fields that hold entries, in the same order, make the front matter of these.
pub(crate) proof fn lemma_meta_read(
    ls: Seq<Seq<char>>,
    d: Seq<Entry>,
    t: Seq<(Seq<char>, YamlView)>,
)
    requires
        t.len() == d.len(),
        forall|i: int|
            0 <= i < d.len() ==> (#[trigger] t[i]).0 == d[i].0 && holds(t[i].1, d[i].1)
                && is_front_entry(d[i]) && is_written(ls, d[i]),
    ensures
        meta_of_entries(ls, t) == Ok::<MetaView, ErrorView>(meta_from(d)),
    decreases d.len(),
{
    if d.len() > 0 {
        let n = d.len() - 1;
        let u = t.drop_last();
        let e = d.drop_last();
        assert forall|i: int| 0 <= i < e.len() implies (#[trigger] u[i]).0 == e[i].0 && holds(
            u[i].1,
            e[i].1,
        ) && is_front_entry(e[i]) && is_written(ls, e[i]) by {
            assert(u[i] == t[i] && e[i] == d[i]);
        }
        lemma_meta_read(ls, e, u);
        assert(t[n].0 == d[n].0);
        lemma_entry_read(ls, meta_from(e), d[n], t[n].1);
    }
}

proof fn lemma_entry_read(ls: Seq<Seq<char>>, m: MetaView, x: Entry, y: YamlView)
    requires
        holds(y, x.1),
        is_front_entry(x),
        is_written(ls, x),
    ensures
        with_entry(m, ls, x.0, y) == Ok::<MetaView, ErrorView>(with_plain(m, x)),
{
    lemma_keys();
    if x.0 == "id"@ {
        assert(is_integer(x.1->Scalar_0));
    } else if x.0 == "title"@ || x.0 == "date"@ || x.0 == "type"@ {
        if let Plain::Scalar(w) = x.1 {
            lemma_scalar_text(y, w);
        }
    } else if x.0 == "tags"@ {
        let l = x.1->Items_0;
        lemma_tag_items(y->List_0, l, l);
        assert(plain_words(x.1) =~= l);
    } else {
        if let Plain::Items(l) = x.1 {
            let t = y->List_0;
            let v = texts_value(l);
            let vs = v->List_0;
            lemma_yamls(vs);
            assert forall|i: int| 0 <= i < l.len() implies t[i] == #[trigger] yamls_of(vs)[i] by {
                assert(is_scalar_of(t[i], l[i]));
                assert(is_plain_text(l[i]));
            }
            assert(t =~= yamls_of(vs));
        }
    }
}

/// The other fields that entries make.
pub open spec fn puts(x: Seq<Entry>) -> Seq<(Seq<char>, ValueView)>
    decreases x.len(),
{
    if x.len() == 0 {
        Seq::empty()
    } else {
        put(puts(x.drop_last()), x.last().0, value_read(x.last().1))
    }
}

pub open spec fn are_others(x: Seq<Entry>) -> bool {
    forall|i: int| 0 <= i < x.len() ==> is_other_key((#[trigger] x[i]).0)
}

pub open spec fn keys_differ(x: Seq<Entry>) -> bool {
    forall|i: int, j: int| 0 <= i < j < x.len() ==> (#[trigger] x[i]).0 != (#[trigger] x[j]).0
}

pub open spec fn has_entry_key(x: Seq<Entry>, k: Seq<char>) -> bool {
    exists|i: int| 0 <= i < x.len() && (#[trigger] x[i]).0 == k
}

proof fn lemma_meta_others(b: Seq<Entry>, x: Seq<Entry>)
    requires
        are_others(x),
        meta_from(b).extra == Seq::<(Seq<char>, ValueView)>::empty(),
    ensures
        meta_from(b + x) == (MetaView { extra: puts(x), ..meta_from(b) }),
    decreases x.len(),
{
    if x.len() == 0 {
        assert(b + x =~= b);
    } else {
        let e = x.drop_last();
        assert forall|i: int| 0 <= i < e.len() implies is_other_key((#[trigger] e[i]).0) by {
            assert(e[i] == x[i]);
        }
        lemma_meta_others(b, e);
        assert((b + x).drop_last() =~= b + e);
        assert((b + x).last() == x.last());
        assert(is_other_key(x[x.len() - 1].0));
    }
}

proof fn lemma_puts(x: Seq<Entry>)
    requires
        keys_differ(x),
    ensures
        text::ascending(textmap::keys(puts(x))),
        forall|i: int|
            0 <= i < x.len() ==> lookup(puts(x), (#[trigger] x[i]).0) == Some(value_read(x[i].1)),
        forall|k: Seq<char>| #[trigger] lookup(puts(x), k) is Some ==> has_entry_key(x, k),
    decreases x.len(),
{
    if x.len() > 0 {
        let e = x.drop_last();
        let n = x.len() - 1;
        assert forall|i: int, j: int| 0 <= i < j < e.len() implies (#[trigger] e[i]).0 != (
        #[trigger] e[j]).0 by {
            assert(e[i] == x[i] && e[j] == x[j]);
        }
        lemma_puts(e);
        let p = puts(e);
        textmap::law_put_sorted(p, x.last().0, value_read(x.last().1));
        textmap::lemma_lookup_put(p, x.last().0, value_read(x.last().1));
        assert forall|i: int| 0 <= i < x.len() implies lookup(puts(x), (#[trigger] x[i]).0) == Some(
            value_read(x[i].1),
        ) by {
            if i < n {
                assert(e[i] == x[i]);
                assert(x[i].0 != x[n].0);
            }
        }
        assert forall|k: Seq<char>| #[trigger] lookup(puts(x), k) is Some implies has_entry_key(
            x,
            k,
        ) by {
            if k == x.last().0 {
                assert(x[n].0 == k);
            } else {
                assert(has_entry_key(e, k));
                let i = choose|i: int| 0 <= i < e.len() && (#[trigger] e[i]).0 == k;
                assert(x[i].0 == k);
            }
        }
    } else {
        assert forall|k: Seq<char>| #[trigger] lookup(puts(x), k) is Some implies has_entry_key(
            x,
            k,
        ) by {
            assert(puts(x).len() == 0);
        }
    }
}

/// What the entries of other fields are.
pub open spec fn cover(x: Seq<Entry>, e: Seq<(Seq<char>, ValueView)>) -> bool {
    &&& forall|i: int|
        0 <= i < x.len() ==> is_other_key((#[trigger] x[i]).0) && is_plain(x[i].1)
            && is_front_entry(x[i]) && value_read(x[i].1) == plain_value(x[i].1) && e.contains(
            (x[i].0, plain_value(x[i].1)),
        )
}

proof fn lemma_value_plain(k: Seq<char>, v: ValueView)
    requires
        is_other_key(k),
        is_other_value(k, v),
    ensures
        is_plain(value_plain(v)),
        plain_value(value_plain(v)) == v,
        value_read(value_plain(v)) == v,
        is_front_entry((k, value_plain(v))),
{
    law_value_round_trip(v);
    if let ValueView::Text(w) = v {
        if is_plain_text(w) {
            lemma_no_quotes(w);
            lemma_plain_scalar(w);
        } else {
            lemma_coloned(w);
        }
    }
}

pub(crate) proof fn lemma_others(e: Seq<(Seq<char>, ValueView)>)
    requires
        are_other_fields(e),
    ensures
        cover(other_entries(e), e),
        keys_differ(other_entries(e)),
        forall|i: int|
            0 <= i < e.len() ==> !is_promoted((#[trigger] e[i]).0) ==> has_entry_key(
                other_entries(e),
                e[i].0,
            ),
        forall|i: int|
            0 <= i < other_entries(e).len() ==> !is_promoted((#[trigger] other_entries(e)[i]).0),
    decreases e.len(),
{
    let x = other_entries(e);
    if e.len() > 0 {
        let d = e.drop_last();
        let n = e.len() - 1;
        lemma_fields_shorter(e);
        lemma_others(d);
        let y = other_entries(d);
        assert(is_other_key(e[n].0) && is_other_value(e[n].0, e[n].1));
        assert forall|i: int| 0 <= i < y.len() implies e.contains(
            ((#[trigger] y[i]).0, plain_value(y[i].1)),
        ) && y[i].0 != e[n].0 by {
            let z = (y[i].0, plain_value(y[i].1));
            assert(d.contains(z));
            let j = d.index_of(z);
            assert(e[j] == z);
            let ks = textmap::keys(e);
            assert(text::lt(ks[j], ks[n]));
            text::lemma_lt_irreflexive(ks[n]);
        }
        if !is_promoted(e.last().0) {
            lemma_value_plain(e[n].0, e[n].1);
            assert(e.contains(e[n]));
            assert(e[n] == (e[n].0, e[n].1));
            assert forall|i: int| 0 <= i < x.len() implies is_other_key((#[trigger] x[i]).0)
                && is_plain(x[i].1) && is_front_entry(x[i]) && value_read(x[i].1) == plain_value(
                x[i].1,
            ) && e.contains((x[i].0, plain_value(x[i].1))) && !is_promoted(x[i].0) by {
                if i < y.len() {
                    assert(x[i] == y[i]);
                }
            }
            assert forall|i: int, j: int| 0 <= i < j < x.len() implies (#[trigger] x[i]).0 != (
            #[trigger] x[j]).0 by {
                assert(x[i] == y[i]);
                if j < y.len() {
                    assert(x[j] == y[j]);
                }
            }
        }
        assert forall|i: int| 0 <= i < e.len() && !is_promoted((#[trigger] e[i]).0) implies
            has_entry_key(x, e[i].0) by {
            if i < n {
                assert(d[i] == e[i]);
                assert(has_entry_key(y, d[i].0));
                let j = choose|j: int| 0 <= j < y.len() && (#[trigger] y[j]).0 == d[i].0;
                assert(x[j] == y[j]);
            } else {
                assert(x[x.len() - 1].0 == e[n].0);
            }
        }
    }
}

pub(crate) proof fn lemma_fields_shorter(e: Seq<(Seq<char>, ValueView)>)
    requires
        are_other_fields(e),
        e.len() > 0,
    ensures
        are_other_fields(e.drop_last()),
{
    let d = e.drop_last();
    let ks = textmap::keys(e);
    let kd = textmap::keys(d);
    assert forall|i: int, j: int| 0 <= i < j < kd.len() implies text::lt(
        #[trigger] kd[i],
        #[trigger] kd[j],
    ) by {
        assert(kd[i] == ks[i] && kd[j] == ks[j]);
    }
    assert forall|i: int| 0 <= i < d.len() implies is_other_key((#[trigger] d[i]).0)
        && is_other_value(d[i].0, d[i].1) by {
        assert(d[i] == e[i]);
    }
}

/// The entries of all other fields.
pub(crate) proof fn lemma_extra_part(e: Seq<(Seq<char>, ValueView)>)
    requires
        are_other_fields(e),
    ensures
        ({
            let x = promoted_entries(e) + other_entries(e);
            &&& cover(x, e)
            &&& keys_differ(x)
            &&& puts(x) == e
        }),
{
    let p = promoted_entries(e);
    let o = other_entries(e);
    let x = p + o;
    lemma_others(e);
    lemma_keys();
    lemma_promoted(e, "publish"@);
    lemma_promoted(e, "processed"@);
    assert forall|i: int| 0 <= i < p.len() implies is_promoted((#[trigger] p[i]).0) && lookup(
        e,
        p[i].0,
    ) == Some(plain_value(p[i].1)) && is_other_key(p[i].0) && is_plain(p[i].1) && is_front_entry(
        p[i],
    ) && value_read(p[i].1) == plain_value(p[i].1) && e.contains((p[i].0, plain_value(p[i].1))) by {}
    assert forall|i: int| 0 <= i < x.len() implies is_other_key((#[trigger] x[i]).0) && is_plain(
        x[i].1,
    ) && is_front_entry(x[i]) && value_read(x[i].1) == plain_value(x[i].1) && e.contains(
        (x[i].0, plain_value(x[i].1)),
    ) by {
        if i < p.len() {
            assert(x[i] == p[i]);
        } else {
            assert(x[i] == o[i - p.len()]);
        }
    }
    assert forall|i: int, j: int| 0 <= i < j < x.len() implies (#[trigger] x[i]).0 != (
    #[trigger] x[j]).0 by {
        if j < p.len() {
            assert(x[i] == p[i] && x[j] == p[j]);
        } else if i < p.len() {
            assert(x[i] == p[i] && x[j] == o[j - p.len()]);
        } else {
            assert(x[i] == o[i - p.len()] && x[j] == o[j - p.len()]);
        }
    }
    lemma_puts(x);
    assert forall|k: Seq<char>| #[trigger] lookup(puts(x), k) == lookup(e, k) by {
        if lookup(puts(x), k) is Some {
            assert(has_entry_key(x, k));
            let i = choose|i: int| 0 <= i < x.len() && (#[trigger] x[i]).0 == k;
            textmap::law_lookup_is_an_entry(e, k, plain_value(x[i].1));
        } else if lookup(e, k) is Some {
            let v = lookup(e, k)->0;
            textmap::law_lookup_is_an_entry(e, k, v);
            let j = e.index_of((k, v));
            assert(e[j].0 == k);
            if is_promoted(k) {
                let i = choose|i: int| 0 <= i < p.len() && (#[trigger] p[i]).0 == k;
                assert(has_entry_key(p, k));
                assert(x[i] == p[i]);
            } else {
                assert(has_entry_key(o, k));
                let i = choose|i: int| 0 <= i < o.len() && (#[trigger] o[i]).0 == k;
                assert(x[i + p.len()] == o[i]);
            }
        }
    }
    textmap::lemma_same_entries(puts(x), e);
}

proof fn lemma_promoted(e: Seq<(Seq<char>, ValueView)>, k: Seq<char>)
    requires
        are_other_fields(e),
        is_promoted(k),
        is_other_key(k),
    ensures
        lookup(e, k) matches Some(v) ==> {
            &&& e.contains((k, v))
            &&& is_other_value(k, v)
            &&& is_plain(value_plain(v))
            &&& plain_value(value_plain(v)) == v
            &&& value_read(value_plain(v)) == v
            &&& is_front_entry((k, value_plain(v)))
            &&& has_entry_key(promoted_entries(e), k)
        },
{
    if let Some(v) = lookup(e, k) {
        textmap::law_lookup_is_an_entry(e, k, v);
        let i = e.index_of((k, v));
        assert(e[i] == (k, v));
        assert(is_other_value(e[i].0, e[i].1));
        lemma_value_plain(k, v);
        let p = promoted_entries(e);
        if k == "publish"@ {
            assert(p[0].0 == k);
        } else {
            assert(p[p.len() - 1].0 == k);
        }
    }
}

/// The entries of a plain front matter are plain, and make it.
#[verifier::spinoff_prover]
pub(crate) proof fn lemma_front_entries(m: MetaView)
    requires
        is_plain_meta(m),
    ensures
        is_front(front_entries(m)),
        meta_from(front_entries(m)) == m,
{
    let b = base_entries(m);
    let x = promoted_entries(m.extra) + other_entries(m.extra);
    let d = front_entries(m);
    lemma_base_entries(m);
    lemma_extra_part(m.extra);
    lemma_meta_others(b, x);
    assert forall|i: int| 0 <= i < d.len() implies is_key((#[trigger] d[i]).0) && is_plain(d[i].1)
        && is_front_entry(d[i]) by {
        if i < b.len() {
            assert(d[i] == b[i]);
        } else {
            assert(d[i] == x[i - b.len()]);
        }
    }
    assert forall|i: int, j: int| 0 <= i < j < d.len() implies (#[trigger] d[i]).0 != (
    #[trigger] d[j]).0 by {
        if j < b.len() {
            assert(d[i] == b[i] && d[j] == b[j]);
        } else if i < b.len() {
            assert(d[i] == b[i] && d[j] == x[j - b.len()]);
        } else {
            assert(d[i] == x[i - b.len()] && d[j] == x[j - b.len()]);
        }
    }
}

proof fn lemma_front_text(w: Seq<char>)
    requires
        is_front_text(w),
    ensures
        is_plain(text_plain(w)),
        plain_value(text_plain(w)) == ValueView::Text(w),
{
    if is_scalar(w) {
        lemma_word_chars(w);
    }
}

#[verifier::spinoff_prover]
pub(crate) proof fn lemma_base_entries(m: MetaView)
    requires
        is_plain_meta(m),
    ensures
        forall|i: int|
            0 <= i < base_entries(m).len() ==> is_key((#[trigger] base_entries(m)[i]).0)
                && !is_other_key(base_entries(m)[i].0) && is_plain(base_entries(m)[i].1)
                && is_front_entry(base_entries(m)[i]),
        keys_differ(base_entries(m)),
        meta_from(base_entries(m)) == (MetaView { extra: Seq::empty(), ..m }),
{
    let z = Seq::<Entry>::empty();
    let a = with_opt(z, "id"@, opt_scalar(m.id));
    let b = with_opt(a, "title"@, opt_plain(m.title));
    let c = with_opt(b, "date"@, opt_plain(m.date));
    let d = with_opt(c, "tags"@, opt_texts(m.tags));
    let f = with_opt(d, "type"@, opt_plain(m.zettel_type));
    lemma_keys();
    if let Some(w) = m.title {
        lemma_front_text(w);
    }
    if let Some(w) = m.date {
        lemma_front_text(w);
    }
    if let Some(w) = m.zettel_type {
        lemma_front_text(w);
    }
    if m.tags.len() > 0 {
        assert(plain_words(Plain::Items(m.tags)) =~= m.tags);
    }
    if let Some(w) = m.id {
        lemma_whole(w);
    }
    assert(m.id is Some ==> a.drop_last() =~= z);
    assert(m.title is Some ==> b.drop_last() =~= a);
    assert(m.date is Some ==> c.drop_last() =~= b);
    assert(m.tags.len() > 0 ==> d.drop_last() =~= c);
    assert(m.zettel_type is Some ==> f.drop_last() =~= d);
    let e = empty_meta();
    assert(meta_from(z) == e);
    assert(meta_from(a) == MetaView { id: m.id, ..e });
    assert(meta_from(b) == MetaView { id: m.id, title: m.title, ..e });
    assert(meta_from(c) == MetaView { id: m.id, title: m.title, date: m.date, ..e });
    assert(m.tags.len() == 0 ==> m.tags =~= e.tags);
    assert(meta_from(d) == MetaView { zettel_type: None, extra: e.extra, ..m });
    assert(e.extra =~= Seq::<(Seq<char>, ValueView)>::empty());
    assert(meta_from(f) == MetaView { extra: e.extra, ..m });
    assert(forall|i: int| 0 <= i < a.len() ==> (#[trigger] a[i]).0 == "id"@);
    assert(forall|i: int|
        0 <= i < b.len() ==> (#[trigger] b[i]).0 == "id"@ || b[i].0 == "title"@);
    assert(forall|i: int|
        0 <= i < c.len() ==> (#[trigger] c[i]).0 == "id"@ || c[i].0 == "title"@ || c[i].0
            == "date"@);
    assert(forall|i: int|
        0 <= i < d.len() ==> (#[trigger] d[i]).0 == "id"@ || d[i].0 == "title"@ || d[i].0 == "date"@
            || d[i].0 == "tags"@);
}

/// A text of the characters of words needs no quotes.
pub(crate) proof fn lemma_word_chars(w: Seq<char>)
    requires
        w.len() > 0,
        is_letter(w[0]) || text::is_digit(w[0]),
        w.last() != ' ',
        forall|i: int| 0 <= i < w.len() ==> is_word_char(#[trigger] w[i]),
    ensures
        !needs_quotes(w),
        yaml_quoted(w) == w,
        forall|i: int|
            0 <= i < w.len() ==> (#[trigger] w[i]) != '\n' && w[i] != '\r' && w[i] != '"' && w[i]
                != '#' && w[i] != ':',
        !text::is_space(w[0]),
        !text::is_space(w.last()),
{
    assert forall|c: char| #[trigger] w.contains(c) implies is_word_char(c) by {
        assert(w[w.index_of(c)] == c);
    }
    assert(is_word_char(w[w.len() - 1]));
}

/// A plain text is a scalar.
pub(crate) proof fn lemma_plain_scalar(w: Seq<char>)
    requires
        is_plain_text(w),
    ensures
        is_scalar(w),
        !is_null_word(w),
{
    if is_date(w) {
        assert forall|i: int| 0 <= i < w.len() implies is_word_char(#[trigger] w[i]) by {
            if i != 4 && i != 7 {
                assert(text::is_digit(w[i]));
            }
        }
        assert(text::is_digit(w[0]) && text::is_digit(w[9]));
    }
    if is_null_word(w) {
        reveal_strlit("null");
        reveal_strlit("Null");
        reveal_strlit("NULL");
        if is_date(w) || is_digit_word(w) {
            assert(text::is_digit(w[0]));
        }
    }
}

pub(crate) proof fn lemma_whole(w: Seq<char>)
    requires
        is_whole(w),
    ensures
        is_scalar(w),
        !is_null_word(w),
{
    assert(text::is_digit(w[0]) && text::is_digit(w[w.len() - 1]));
    assert forall|i: int| 0 <= i < w.len() implies is_word_char(#[trigger] w[i]) by {
        assert(text::is_digit(w[i]));
    }
    reveal_strlit("null");
    reveal_strlit("Null");
    reveal_strlit("NULL");
}

/// A plain text needs no quotes.
pub proof fn lemma_no_quotes(w: Seq<char>)
    requires
        is_plain_text(w),
    ensures
        !needs_quotes(w),
        yaml_quoted(w) == w,
        forall|i: int|
            0 <= i < w.len() ==> (#[trigger] w[i]) != '\n' && w[i] != '\r' && w[i] != '"',
        w.len() > 0,
        !text::is_space(w[0]),
        !text::is_space(w.last()),
{
    lemma_plain_scalar(w);
    lemma_word_chars(w);
}

/// Two words with a colon are put in quotes, and stand there as they are.
pub(crate) proof fn lemma_coloned(w: Seq<char>)
    requires
        is_coloned(w),
    ensures
        needs_quotes(w),
        is_quotable(w),
        w.len() > 0,
        !text::is_space(w[0]),
        !text::is_space(w.last()),
{
    let (a, b) = choose|a: Seq<char>, b: Seq<char>| #[trigger]
        coloned(a, b) == w && is_word(a) && is_word(b);
    reveal_strlit(":");
    let n = a.len() as int;
    assert(w[n] == ':');
    assert(w.contains(':'));
    assert forall|i: int| 0 <= i < w.len() implies (0x20 <= (#[trigger] w[i]) as int <= 0x7e
        || is_wide(w[i])) && w[i] != '"' && w[i] != '\\' by {
        if i < n {
            assert(w[i] == a[i]);
            assert(is_word_char(a[i]));
        } else if i > n {
            assert(w[i] == b[i - n - 1]);
            assert(is_word_char(b[i - n - 1]));
        }
    }
    assert(w[0] == a[0]);
    assert(w.last() == b.last());
    assert(is_word_char(b[b.len() - 1]));
}

proof fn lemma_replaced_none(s: Seq<char>, c: char, to: Seq<char>)
    requires
        forall|i: int| 0 <= i < s.len() ==> #[trigger] s[i] != c,
    ensures
        text::replaced(s, seq![c], to) == s,
    decreases s.len(),
{
    if s.len() > 0 {
        let d = s.drop_first();
        assert forall|i: int| 0 <= i < d.len() implies #[trigger] d[i] != c by {
            assert(d[i] == s[i + 1]);
        }
        lemma_replaced_none(d, c, to);
        if text::has_prefix(s, seq![c]) {
            assert(s.take(1)[0] == seq![c][0]);
            assert(s[0] == c);
        }
        assert(seq![s[0]] + d =~= s);
    }
}

/// A text that needs quotes and holds nothing to escape is written between them.
proof fn lemma_quoted(w: Seq<char>)
    requires
        needs_quotes(w),
        is_quotable(w),
    ensures
        yaml_quoted(w) == "\""@ + w + "\""@,
{
    reveal_strlit("\\");
    reveal_strlit("\"");
    assert("\\"@ =~= seq!['\\']);
    assert("\""@ =~= seq!['"']);
    lemma_replaced_none(w, '\\', "\\\\"@);
    lemma_replaced_none(w, '"', "\\\""@);
}

pub(crate) proof fn lemma_end_prefix(s: Seq<char>)
    ensures
        text::trimmed_end(s).len() <= s.len(),
        text::trimmed_end(s) == s.take(text::trimmed_end(s).len() as int),
    decreases s.len(),
{
    if s.len() > 0 && text::is_space(s.last()) {
        lemma_end_prefix(s.drop_last());
        let n = text::trimmed_end(s).len() as int;
        assert(s.take(n) =~= s.drop_last().take(n));
    } else {
        assert(s.take(s.len() as int) =~= s);
    }
}

// ---------------------------------------------------------------------------
// Lines
// ---------------------------------------------------------------------------
pub open spec fn is_spaces(s: Seq<char>) -> bool {
    forall|i: int| 0 <= i < s.len() ==> #[trigger] s[i] == ' '
}

/// Whether a line begins, after spaces, with a letter or with a hyphen and a
/// space, and holds no line end.
pub open spec fn is_sound(x: Seq<char>) -> bool {
    &&& forall|i: int| 0 <= i < x.len() ==> (#[trigger] x[i]) != '\n' && x[i] != '\r'
    &&& exists|n: int| #[trigger] begins_at(x, n)
}

pub open spec fn begins_at(x: Seq<char>, n: int) -> bool {
    &&& 0 <= n < x.len()
    &&& forall|i: int| 0 <= i < n ==> #[trigger] x[i] == ' '
    &&& is_letter(x[n]) || (x[n] == '-' && n + 1 < x.len() && x[n + 1] == ' ')
}

pub open spec fn are_sound(ls: Seq<Seq<char>>) -> bool {
    forall|i: int| 0 <= i < ls.len() ==> is_sound(#[trigger] ls[i])
}

proof fn lemma_start_at(x: Seq<char>, n: int)
    requires
        0 <= n < x.len(),
        forall|i: int| 0 <= i < n ==> #[trigger] x[i] == ' ',
        !text::is_space(x[n]),
    ensures
        text::trimmed_start(x) == x.skip(n),
    decreases n,
{
    if n > 0 {
        let d = x.drop_first();
        assert(x[0] == ' ');
        assert forall|i: int| 0 <= i < n - 1 implies #[trigger] d[i] == ' ' by {
            assert(d[i] == x[i + 1]);
        }
        assert(d[n - 1] == x[n]);
        lemma_start_at(d, n - 1);
        assert(d.skip(n - 1) =~= x.skip(n));
    } else {
        assert(x.skip(0) =~= x);
    }
}

pub(crate) proof fn lemma_sound(x: Seq<char>)
    requires
        is_sound(x),
    ensures
        is_line(x),
        !is_rule(x),
{
    let n = choose|n: int| #[trigger] begins_at(x, n);
    reveal_strlit("---");
    if x.contains('\n') {
        assert(x[x.index_of('\n')] == '\n');
    }
    assert(x[x.len() - 1] != '\r');
    assert(!text::is_space(x[n]));
    lemma_start_at(x, n);
    let z = x.skip(n);
    lemma_end_prefix(z);
    if is_rule(x) {
        let t = trimmed(x);
        assert(t == z.take(3));
        assert(t[0] == z[0] && t[1] == z[1]);
        assert(z[0] == x[n]);
        assert("---"@[0] == '-' && "---"@[1] == '-');
        if n + 1 < x.len() {
            assert(z[1] == x[n + 1]);
        }
    }
}

/// White space in front keeps a line sound.
proof fn lemma_sound_after(by: Seq<char>, x: Seq<char>)
    requires
        is_spaces(by),
        is_sound(x),
    ensures
        is_sound(by + x),
{
    let n = choose|n: int| #[trigger] begins_at(x, n);
    let y = by + x;
    assert forall|i: int| 0 <= i < y.len() implies (#[trigger] y[i]) != '\n' && y[i] != '\r' by {
        if i >= by.len() {
            assert(y[i] == x[i - by.len()]);
        } else {
            assert(y[i] == by[i]);
        }
    }
    assert forall|i: int| 0 <= i < by.len() + n implies #[trigger] y[i] == ' ' by {
        if i >= by.len() {
            assert(y[i] == x[i - by.len()]);
        } else {
            assert(y[i] == by[i]);
        }
    }
    assert(y[by.len() + n] == x[n]);
    if n + 1 < x.len() {
        assert(y[by.len() + n + 1] == x[n + 1]);
    }
    assert(begins_at(y, by.len() + n));
}

/// A line of an item.
proof fn lemma_sound_item(w: Seq<char>)
    requires
        forall|i: int| 0 <= i < w.len() ==> (#[trigger] w[i]) != '\n' && w[i] != '\r',
    ensures
        is_sound("- "@ + w),
{
    reveal_strlit("- ");
    let y = "- "@ + w;
    assert forall|i: int| 0 <= i < y.len() implies (#[trigger] y[i]) != '\n' && y[i] != '\r' by {
        if i >= 2 {
            assert(y[i] == w[i - 2]);
        }
    }
    assert(y[0] == '-' && y[1] == ' ');
    assert(begins_at(y, 0));
}

/// A line that begins with a key.
proof fn lemma_sound_key(k: Seq<char>, b: Seq<char>, w: Seq<char>)
    requires
        is_word(k),
        forall|i: int| 0 <= i < b.len() ==> (#[trigger] b[i]) != '\n' && b[i] != '\r',
        forall|i: int| 0 <= i < w.len() ==> (#[trigger] w[i]) != '\n' && w[i] != '\r',
    ensures
        is_sound(k + b + w),
{
    let y = k + b + w;
    let n = k.len() as int;
    let m = n + b.len();
    assert forall|i: int| 0 <= i < y.len() implies (#[trigger] y[i]) != '\n' && y[i] != '\r' by {
        if i < n {
            assert(y[i] == k[i]);
            assert(is_word_char(k[i]));
        } else if i < m {
            assert(y[i] == b[i - n]);
        } else {
            assert(y[i] == w[i - m]);
        }
    }
    assert(y[0] == k[0]);
    assert(begins_at(y, 0));
}

proof fn lemma_sound_head(k: Seq<char>)
    requires
        is_word(k),
    ensures
        is_sound(k + ":"@),
{
    reveal_strlit(":");
    let e = Seq::<char>::empty();
    lemma_sound_key(k, ":"@, e);
    assert(k + ":"@ + e =~= k + ":"@);
}

pub(crate) proof fn lemma_bool_word(b: bool)
    ensures
        forall|i: int|
            0 <= i < bool_word(b).len() ==> (#[trigger] bool_word(b)[i]) != '\n' && bool_word(b)[i]
                != '\r',
        bool_word(b).len() > 0,
        !text::is_space(bool_word(b)[0]),
        !text::is_space(bool_word(b).last()),
        !needs_quotes(bool_word(b)),
        yaml_quoted(bool_word(b)) == bool_word(b),
{
    reveal_strlit("true");
    reveal_strlit("false");
    let w = bool_word(b);
    assert forall|c: char| #[trigger] w.contains(c) implies is_word_char(c) by {
        let i = w.index_of(c);
        assert(w[i] == c);
    }
}

pub(crate) proof fn lemma_number(n: RealView)
    requires
        is_plain_real(n),
    ensures
        forall|i: int|
            0 <= i < n.yaml.len() ==> (#[trigger] n.yaml[i]) != '\n' && n.yaml[i] != '\r',
        n.yaml.len() > 0,
        !text::is_space(n.yaml[0]),
        !text::is_space(n.yaml.last()),
        !needs_quotes(n.yaml),
        yaml_quoted(n.yaml) == n.yaml,
{
    let w = n.yaml;
    assert forall|c: char| #[trigger] w.contains(c) implies text::is_digit(c) || c == '.' || c
        == '-' by {
        assert(w[w.index_of(c)] == c);
    }
    assert(w.contains(w.last()));
    assert(w.contains(w[0]));
}

proof fn lemma_value_lines(k: Seq<char>, v: ValueView, by: Seq<char>, depth: nat)
    requires
        is_key(k),
        is_plain_value(v, depth),
        is_spaces(by),
    ensures
        are_sound(value_lines(k, v, by)),
        value_lines(k, v, by).len() > 0,
        value_lines(k, v, by)[0].len() > 0,
        value_lines(k, v, by)[0][0] == k[0],
    decreases v,
{
    let ls = value_lines(k, v, by);
    reveal_strlit(": ");
    reveal_strlit("  ");
    match v {
        ValueView::Text(w) => {
            lemma_no_quotes(w);
            lemma_sound_key(k, ": "@, w);
        },
        ValueView::Bool(b) => {
            lemma_bool_word(b);
            lemma_sound_key(k, ": "@, bool_word(b));
        },
        ValueView::Number(n) => {
            lemma_number(n);
            lemma_sound_key(k, ": "@, n.yaml);
        },
        ValueView::List(l) => {
            lemma_item_lines(l, by, (depth - 1) as nat);
            lemma_sound_head(k);
            let it = item_lines(l, by);
            assert forall|i: int| 0 <= i < ls.len() implies is_sound(#[trigger] ls[i]) by {
                if i > 0 {
                    assert(ls[i] == by + it[i - 1]);
                    lemma_sound_after(by, it[i - 1]);
                }
            }
        },
        ValueView::Mapping(m) => {
            lemma_field_lines(m, by, (depth - 1) as nat);
            lemma_sound_head(k);
            let it = field_lines(m, by);
            assert forall|i: int| 0 <= i < ls.len() implies is_sound(#[trigger] ls[i]) by {
                if i > 0 {
                    assert(ls[i] == "  "@ + it[i - 1]);
                    lemma_sound_after("  "@, it[i - 1]);
                }
            }
        },
    }
}

proof fn lemma_item_lines(l: Seq<ValueView>, by: Seq<char>, depth: nat)
    requires
        forall|i: int|
            0 <= i < l.len() ==> !(#[trigger] l[i] is List) && is_plain_value(l[i], depth),
        is_spaces(by),
    ensures
        are_sound(item_lines(l, by)),
    decreases l,
{
    if l.len() > 0 {
        let d = l.drop_last();
        assert forall|i: int| 0 <= i < d.len() implies !(#[trigger] d[i] is List) && is_plain_value(
            d[i],
            depth,
        ) by {
            assert(d[i] == l[i]);
        }
        lemma_item_lines(d, by, depth);
        let last = l[l.len() - 1];
        assert(is_plain_value(last, depth) && !(last is List));
        let a = item_lines(d, by);
        let ls = item_lines(l, by);
        reveal_strlit("  ");
        match last {
            ValueView::Text(w) => {
                lemma_no_quotes(w);
                lemma_sound_item(w);
            },
            ValueView::Bool(b) => {
                lemma_bool_word(b);
                lemma_sound_item(bool_word(b));
            },
            ValueView::Number(n) => {
                lemma_number(n);
                lemma_sound_item(n.yaml);
            },
            ValueView::Mapping(m) => {
                lemma_field_lines(m, by, (depth - 1) as nat);
                let it = field_lines(m, by);
                let ds = dashed_lines(it);
                assert forall|i: int| 0 <= i < ds.len() implies is_sound(#[trigger] ds[i]) by {
                    assert(is_sound(it[i]));
                    if i == 0 {
                        lemma_sound_item(it[i]);
                    } else {
                        lemma_sound_after("  "@, it[i]);
                    }
                }
            },
            _ => {},
        }
        assert forall|i: int| 0 <= i < ls.len() implies is_sound(#[trigger] ls[i]) by {
            if i < a.len() {
                assert(ls[i] == a[i]);
            }
        }
    }
}

proof fn lemma_field_lines(m: Seq<(Seq<char>, ValueView)>, by: Seq<char>, depth: nat)
    requires
        forall|i: int|
            0 <= i < m.len() ==> is_key((#[trigger] m[i]).0) && is_plain_value(m[i].1, depth),
        is_spaces(by),
    ensures
        are_sound(field_lines(m, by)),
    decreases m,
{
    if m.len() > 0 {
        let d = m.drop_last();
        assert forall|i: int| 0 <= i < d.len() implies is_key((#[trigger] d[i]).0)
            && is_plain_value(d[i].1, depth) by {
            assert(d[i] == m[i]);
        }
        lemma_field_lines(d, by, depth);
        let last = m[m.len() - 1];
        assert(is_key(last.0) && is_plain_value(last.1, depth));
        lemma_value_lines(last.0, last.1, by, depth);
        let a = field_lines(d, by);
        let b = value_lines(last.0, last.1, by);
        let ls = field_lines(m, by);
        assert forall|i: int| 0 <= i < ls.len() implies is_sound(#[trigger] ls[i]) by {
            if i < a.len() {
                assert(ls[i] == a[i]);
            } else {
                assert(ls[i] == b[i - a.len()]);
            }
        }
    }
}

proof fn lemma_entry_lines(k: Seq<char>, p: Plain)
    requires
        is_key(k),
        is_plain(p),
    ensures
        are_sound(entry_lines(k, p)),
        entry_lines(k, p).len() > 0,
        entry_lines(k, p)[0].len() > 0,
        entry_lines(k, p)[0][0] == k[0],
{
    reveal_strlit(": ");
    reveal_strlit(": \"");
    reveal_strlit("\"");
    reveal_strlit("  ");
    match p {
        Plain::Scalar(w) => {
            if is_scalar(w) {
                lemma_word_chars(w);
            } else {
                lemma_coloned(w);
            }
            lemma_sound_key(k, ": "@, w);
        },
        Plain::Whole(w, _) => {
            lemma_whole(w);
            lemma_word_chars(w);
            lemma_sound_key(k, ": "@, w);
        },
        Plain::Items(l) => {
            let ls = entry_lines(k, p);
            reveal_strlit("  - ");
            reveal_strlit("- ");
            lemma_sound_head(k);
            assert forall|i: int| 0 <= i < ls.len() implies is_sound(#[trigger] ls[i]) by {
                if i > 0 {
                    let w = l[i - 1];
                    assert(is_scalar(w));
                    lemma_word_chars(w);
                    lemma_sound_item(w);
                    lemma_sound_after("  "@, "- "@ + w);
                    assert("  "@ + ("- "@ + w) =~= "  - "@ + w);
                }
            }
        },
        Plain::Quoted(w) => {
            let v = w + "\""@;
            assert forall|i: int| 0 <= i < v.len() implies (#[trigger] v[i]) != '\n' && v[i]
                != '\r' by {
                if i < w.len() {
                    assert(v[i] == w[i]);
                }
            }
            lemma_sound_key(k, ": \""@, v);
            assert(k + ": \""@ + w + "\""@ =~= k + ": \""@ + v);
        },
        Plain::Value(v, indent) => {
            lemma_value_lines(k, v, indentation(indent), 4);
        },
    }
}

pub(crate) proof fn lemma_plain_lines(d: Seq<Entry>)
    requires
        forall|i: int| 0 <= i < d.len() ==> is_key((#[trigger] d[i]).0) && is_plain(d[i].1),
    ensures
        are_sound(plain_lines(d)),
        d.len() > 0 ==> plain_lines(d).len() > 0 && plain_lines(d)[0].len() > 0
            && plain_lines(d)[0][0] == d[0].0[0],
    decreases d.len(),
{
    if d.len() > 0 {
        let e = d.drop_last();
        assert forall|i: int| 0 <= i < e.len() implies is_key((#[trigger] e[i]).0) && is_plain(
            e[i].1,
        ) by {
            assert(e[i] == d[i]);
        }
        lemma_plain_lines(e);
        assert(is_key(d[d.len() - 1].0) && is_plain(d[d.len() - 1].1));
        lemma_entry_lines(d.last().0, d.last().1);
        let a = plain_lines(e);
        let b = entry_lines(d.last().0, d.last().1);
        let ls = plain_lines(d);
        assert forall|i: int| 0 <= i < ls.len() implies is_sound(#[trigger] ls[i]) by {
            if i < a.len() {
                assert(ls[i] == a[i]);
            } else {
                assert(ls[i] == b[i - a.len()]);
            }
        }
        if e.len() > 0 {
            assert(ls[0] == a[0]);
            assert(e[0] == d[0]);
        } else {
            assert(a.len() == 0);
            assert(ls[0] == b[0]);
        }
    }
}

proof fn lemma_join_first(ls: Seq<Seq<char>>, sep: Seq<char>)
    requires
        ls.len() > 0,
        ls[0].len() > 0,
    ensures
        join(ls, sep).len() > 0,
        join(ls, sep)[0] == ls[0][0],
    decreases ls.len(),
{
    if ls.len() > 1 {
        assert(ls.drop_last()[0] == ls[0]);
        lemma_join_first(ls.drop_last(), sep);
    }
}

/// A text of plain entries is not blank.
proof fn lemma_not_blank(d: Seq<Entry>)
    requires
        are_plain(d),
    ensures
        !text::is_blank(plain_text(d)),
{
    let s = plain_text(d);
    lemma_plain_lines(d);
    assert(is_key(d[0].0));
    lemma_join_first(plain_lines(d), "\n"@);
    assert(is_letter(s[0]));
    assert(!text::is_space(s[0]));
    assert(text::trimmed_start(s) == s);
    lemma_end_kept(s);
}

pub(crate) proof fn lemma_end_kept(s: Seq<char>)
    requires
        s.len() > 0,
        !text::is_space(s[0]),
    ensures
        text::trimmed_end(s).len() > 0,
    decreases s.len(),
{
    if text::is_space(s.last()) && s.len() > 1 {
        assert(s.drop_last()[0] == s[0]);
        lemma_end_kept(s.drop_last());
    }
}

/// Nor is it with a line feed after it.
pub(crate) proof fn lemma_not_blank_line(d: Seq<Entry>)
    requires
        are_plain(d),
    ensures
        !text::is_blank(plain_text(d) + "\n"@),
{
    let s = plain_text(d) + "\n"@;
    lemma_plain_lines(d);
    assert(is_key(d[0].0));
    lemma_join_first(plain_lines(d), "\n"@);
    assert(s[0] == plain_text(d)[0]);
    assert(!text::is_space(s[0]));
    assert(text::trimmed_start(s) == s);
    lemma_end_kept(s);
}

/// A text of plain entries is not blank, with a line feed after it or not.
pub proof fn lemma_plain_fronts(yaml: Seq<char>)
    ensures
        forall|d: Seq<Entry>|
            are_plain(d) && writes(yaml, #[trigger] plain_text(d)) ==> !text::is_blank(yaml),
{
    assert forall|d: Seq<Entry>| are_plain(d) && writes(yaml, #[trigger] plain_text(d)) implies
        !text::is_blank(yaml) by {
        lemma_not_blank(d);
        lemma_not_blank_line(d);
    }
}

pub(crate) proof fn lemma_unlines_cat(a: Seq<Seq<char>>, b: Seq<Seq<char>>)
    ensures
        unlines(a + b) == unlines(a) + unlines(b),
    decreases b.len(),
{
    if b.len() == 0 {
        assert(a + b =~= a);
        assert(unlines(a) + unlines(b) =~= unlines(a));
    } else {
        lemma_unlines_cat(a, b.drop_last());
        assert((a + b).drop_last() =~= a + b.drop_last());
        assert(unlines(a + b) =~= unlines(a) + unlines(b));
    }
}

pub(crate) proof fn lemma_unlines_one(x: Seq<char>)
    ensures
        unlines(seq![x]) == x + "\n"@,
{
    assert(seq![x].drop_last() =~= Seq::<Seq<char>>::empty());
    assert(unlines(seq![x].drop_last()) =~= Seq::<char>::empty());
    assert(unlines(seq![x]) =~= x + "\n"@);
}

// ---------------------------------------------------------------------------
// Writing
// ---------------------------------------------------------------------------
/// Whether what is written for a tree is plain where the tree is.
pub open spec fn emits(y: YamlView) -> bool {
    writes_plain(y, emitted_yaml(y))
}

/// The same of what is written for a field.
pub open spec fn emits_entry(k: Seq<char>, v: ValueView) -> bool {
    if v is List || v is Mapping {
        emits(one_entry(k, v))
    } else {
        emits(yaml_of(v))
    }
}

pub open spec fn emits_promoted(e: Seq<(Seq<char>, ValueView)>, k: Seq<char>) -> bool {
    lookup(e, k) matches Some(v) ==> emits(yaml_of(v))
}

pub open spec fn emits_others(e: Seq<(Seq<char>, ValueView)>) -> bool {
    forall|i: int|
        0 <= i < e.len() ==> is_promoted((#[trigger] e[i]).0) || emits_entry(e[i].0, e[i].1)
}

pub(crate) proof fn lemma_trimmed_line(w: Seq<char>)
    requires
        w.len() > 0,
        !text::is_space(w[0]),
        !text::is_space(w.last()),
    ensures
        trimmed(w + "\n"@) == w,
{
    reveal_strlit("\n");
    let s = w + "\n"@;
    assert(s[0] == w[0]);
    assert(text::trimmed_start(s) == s);
    assert(s.last() == '\n');
    assert(s.drop_last() =~= w);
    assert(text::trimmed_end(w) == w);
}

/// A scalar of another field is written on its line.
proof fn lemma_scalar_line(k: Seq<char>, v: ValueView)
    requires
        is_other_value(k, v),
        v is Text || v is Bool || v is Number,
        emits(yaml_of(v)),
    ensures
        scalar_line(k, v) == unlines(entry_lines(k, value_plain(v))),
{
    reveal_strlit(": ");
    reveal_strlit(": \"");
    reveal_strlit("\"");
    assert(": \""@ =~= ": "@ + "\""@);
    match v {
        ValueView::Text(w) => {
            assert(yaml_of(v) == YamlView::Text(w));
            assert(emitted_yaml(yaml_of(v)) == w + "\n"@);
            if is_plain_text(w) {
                lemma_no_quotes(w);
                lemma_trimmed_line(w);
                lemma_unlines_one(k + ": "@ + w);
            } else {
                lemma_coloned(w);
                lemma_trimmed_line(w);
                lemma_quoted(w);
                lemma_unlines_one(k + ": \""@ + w + "\""@);
                assert(k + ": "@ + ("\""@ + w + "\""@) =~= k + ": \""@ + w + "\""@);
            }
        },
        ValueView::Bool(b) => {
            lemma_bool_word(b);
            lemma_trimmed_line(bool_word(b));
            lemma_unlines_one(k + ": "@ + bool_word(b));
        },
        ValueView::Number(n) => {
            lemma_number(n);
            assert(emitted_yaml(yaml_of(v)) == n.yaml + "\n"@);
            lemma_trimmed_line(n.yaml);
            lemma_unlines_one(k + ": "@ + n.yaml);
        },
        _ => {},
    }
}

pub(crate) proof fn lemma_unlines_join(ls: Seq<Seq<char>>)
    requires
        ls.len() > 0,
    ensures
        unlines(ls) == join(ls, "\n"@) + "\n"@,
    decreases ls.len(),
{
    let d = ls.drop_last();
    if ls.len() == 1 {
        assert(ls =~= seq![ls[0]]);
        lemma_unlines_one(ls[0]);
    } else {
        lemma_unlines_join(d);
        assert(unlines(ls) =~= join(ls, "\n"@) + "\n"@);
    }
}

proof fn lemma_entry_text(k: Seq<char>, v: ValueView)
    requires
        is_other_key(k),
        is_other_value(k, v),
        emits_entry(k, v),
    ensures
        entry_text(k, v) == unlines(entry_lines(k, value_plain(v))),
{
    if v is List || v is Mapping {
        let e = Seq::<char>::empty();
        assert(emitted_yaml(one_entry(k, v)) == join(value_lines(k, v, e), "\n"@) + "\n"@);
        lemma_value_lines(k, v, e, 4);
        lemma_unlines_join(value_lines(k, v, e));
    } else {
        lemma_scalar_line(k, v);
    }
}

pub(crate) proof fn lemma_plain_lines_cat(a: Seq<Entry>, b: Seq<Entry>)
    ensures
        plain_lines(a + b) == plain_lines(a) + plain_lines(b),
    decreases b.len(),
{
    if b.len() == 0 {
        assert(a + b =~= a);
        assert(plain_lines(a) + plain_lines(b) =~= plain_lines(a));
    } else {
        lemma_plain_lines_cat(a, b.drop_last());
        assert((a + b).drop_last() =~= a + b.drop_last());
        assert(plain_lines(a + b) =~= plain_lines(a) + plain_lines(b));
    }
}

proof fn lemma_extras_text(e: Seq<(Seq<char>, ValueView)>)
    requires
        are_other_fields(e),
        emits_others(e),
    ensures
        extras_text(e) == unlines(plain_lines(other_entries(e))),
    decreases e.len(),
{
    if e.len() > 0 {
        let d = e.drop_last();
        let n = e.len() - 1;
        lemma_fields_shorter(e);
        assert forall|i: int| 0 <= i < d.len() implies is_promoted((#[trigger] d[i]).0)
            || emits_entry(d[i].0, d[i].1) by {
            assert(d[i] == e[i]);
        }
        lemma_extras_text(d);
        assert(is_other_key(e[n].0) && is_other_value(e[n].0, e[n].1));
        if !is_promoted(e[n].0) {
            assert(emits_entry(e[n].0, e[n].1));
            lemma_entry_text(e[n].0, e[n].1);
            lemma_with_opt(other_entries(d), e[n].0, Some(value_plain(e[n].1)));
        }
    }
}

pub(crate) proof fn lemma_tag_text(l: Seq<Seq<char>>)
    requires
        forall|i: int| 0 <= i < l.len() ==> is_scalar(#[trigger] l[i]),
    ensures
        unlines(Seq::new(l.len(), |i: int| "  - "@ + l[i])) == tag_lines(l),
    decreases l.len(),
{
    let s = Seq::new(l.len(), |i: int| "  - "@ + l[i]);
    if l.len() > 0 {
        let d = l.drop_last();
        assert forall|i: int| 0 <= i < d.len() implies is_scalar(#[trigger] d[i]) by {
            assert(d[i] == l[i]);
        }
        lemma_tag_text(d);
        assert(is_scalar(l[l.len() - 1]));
        lemma_word_chars(l.last());
        assert(s.drop_last() =~= Seq::new(d.len(), |i: int| "  - "@ + d[i]));
        assert(unlines(s) =~= tag_lines(l));
    }
}

/// One field more, as it is written.
proof fn lemma_with_opt(d: Seq<Entry>, k: Seq<char>, p: Option<Plain>)
    ensures
        unlines(plain_lines(with_opt(d, k, p))) == unlines(plain_lines(d)) + match p {
            Some(v) => unlines(entry_lines(k, v)),
            None => Seq::empty(),
        },
{
    match p {
        Some(v) => {
            let e = d.push((k, v));
            assert(e.drop_last() =~= d);
            lemma_unlines_cat(plain_lines(d), entry_lines(k, v));
        },
        None => {
            assert(unlines(plain_lines(d)) + Seq::<char>::empty() =~= unlines(plain_lines(d)));
        },
    }
}

/// A title or a type on its line.
proof fn lemma_quoted_line(k: Seq<char>, w: Seq<char>)
    requires
        is_front_text(w),
    ensures
        unlines(entry_lines(k, text_plain(w))) == k + ": "@ + yaml_quoted(w) + "\n"@,
{
    reveal_strlit(": ");
    reveal_strlit(": \"");
    reveal_strlit("\"");
    if needs_quotes(w) {
        lemma_quoted(w);
        lemma_unlines_one(k + ": \""@ + w + "\""@);
        assert(": \""@ =~= ": "@ + "\""@);
        assert(k + ": "@ + ("\""@ + w + "\""@) =~= k + ": \""@ + w + "\""@);
    } else {
        lemma_unlines_one(k + ": "@ + w);
    }
}

/// What is written of the fields that every front matter may have.
#[verifier::spinoff_prover]
proof fn lemma_base_text(m: MetaView)
    requires
        is_plain_meta(m),
    ensures
        opt_line("id: "@, m.id) + quoted_line("title: "@, m.title) + opt_line("date: "@, m.date)
            + tags_text(m.tags) + quoted_line("type: "@, m.zettel_type) == unlines(
            plain_lines(base_entries(m)),
        ),
{
    let z = Seq::<Entry>::empty();
    let a = with_opt(z, "id"@, opt_scalar(m.id));
    let b = with_opt(a, "title"@, opt_plain(m.title));
    let c = with_opt(b, "date"@, opt_plain(m.date));
    let d = with_opt(c, "tags"@, opt_texts(m.tags));
    let none = Seq::<char>::empty();
    lemma_with_opt(z, "id"@, opt_scalar(m.id));
    lemma_with_opt(a, "title"@, opt_plain(m.title));
    lemma_with_opt(b, "date"@, opt_plain(m.date));
    lemma_with_opt(c, "tags"@, opt_texts(m.tags));
    lemma_with_opt(d, "type"@, opt_plain(m.zettel_type));
    assert(unlines(plain_lines(z)) == none);
    reveal_strlit("id");
    reveal_strlit("title");
    reveal_strlit("date");
    reveal_strlit("tags");
    reveal_strlit("type");
    reveal_strlit(": ");
    reveal_strlit(":");
    reveal_strlit("\n");
    reveal_strlit("id: ");
    reveal_strlit("title: ");
    reveal_strlit("date: ");
    reveal_strlit("type: ");
    reveal_strlit("tags:\n");
    assert("id: "@ =~= "id"@ + ": "@);
    assert("title: "@ =~= "title"@ + ": "@);
    assert("date: "@ =~= "date"@ + ": "@);
    assert("type: "@ =~= "type"@ + ": "@);
    assert("tags:\n"@ =~= "tags"@ + ":"@ + "\n"@);
    let t0 = opt_line("id: "@, m.id);
    let t1 = quoted_line("title: "@, m.title);
    let t2 = opt_line("date: "@, m.date);
    let t3 = tags_text(m.tags);
    let t4 = quoted_line("type: "@, m.zettel_type);
    if let Some(w) = m.id {
        lemma_unlines_one("id"@ + ": "@ + w);
    }
    if let Some(w) = m.title {
        lemma_quoted_line("title"@, w);
    }
    if let Some(w) = m.date {
        lemma_word_chars(w);
        lemma_quoted_line("date"@, w);
    }
    if let Some(w) = m.zettel_type {
        lemma_quoted_line("type"@, w);
    }
    if m.tags.len() > 0 {
        let s = Seq::new(m.tags.len(), |i: int| "  - "@ + m.tags[i]);
        lemma_tag_text(m.tags);
        lemma_unlines_cat(seq!["tags"@ + ":"@], s);
        lemma_unlines_one("tags"@ + ":"@);
        assert(unlines(entry_lines("tags"@, Plain::Items(m.tags))) == t3);
    }
    assert(unlines(plain_lines(base_entries(m))) =~= none + t0 + t1 + t2 + t3 + t4);
}

/// What is written of a plain front matter are its lines.
#[verifier::spinoff_prover]
pub proof fn lemma_meta_text(m: MetaView)
    requires
        is_plain_meta(m),
        emits_promoted(m.extra, "publish"@),
        emits_promoted(m.extra, "processed"@),
        emits_others(m.extra),
    ensures
        meta_text(m) == unlines(front_lines(m)),
{
    let z = Seq::<Entry>::empty();
    let e = m.extra;
    let none = Seq::<char>::empty();
    let a = with_opt(z, "publish"@, opt_value(lookup(e, "publish"@)));
    let p = promoted_entries(e);
    let o = other_entries(e);
    lemma_keys();
    lemma_promoted(e, "publish"@);
    lemma_promoted(e, "processed"@);
    lemma_with_opt(z, "publish"@, opt_value(lookup(e, "publish"@)));
    lemma_with_opt(a, "processed"@, opt_value(lookup(e, "processed"@)));
    assert(unlines(plain_lines(z)) == none);
    if let Some(v) = lookup(e, "publish"@) {
        lemma_scalar_line("publish"@, v);
    }
    if let Some(v) = lookup(e, "processed"@) {
        lemma_scalar_line("processed"@, v);
    }
    let t5 = promoted_text(e, "publish"@);
    let t6 = promoted_text(e, "processed"@);
    let t7 = extras_text(e);
    assert(unlines(plain_lines(p)) =~= t5 + t6);
    lemma_extras_text(e);
    lemma_base_text(m);
    lemma_plain_lines_cat(p, o);
    lemma_unlines_cat(plain_lines(p), plain_lines(o));
    lemma_plain_lines_cat(base_entries(m), p + o);
    lemma_unlines_cat(plain_lines(base_entries(m)), plain_lines(p + o));
    assert(meta_text(m) =~= unlines(front_lines(m)));
}

/// A note with plain front matter that is written is cut again into that front
/// matter, and the body and the reference section that it was cut from. `serialize`
/// writes such a note, and `parse` reads its front matter as it was.
pub proof fn law_plain_note_again(content: Seq<char>, m: MetaView)
    requires
        is_plain_meta(m),
        split_view(content) is Ok,
        is_settled(content),
    ensures
        ({
            let z = split_view(content)->Ok_0;
            split_view(plain_note(m, z.body, z.reference)) == Ok::<ZonesView, ErrorView>(
                ZonesView { frontmatter: plain_front(m), body: z.body, reference: z.reference },
            )
        }),
{
    lemma_front_lines(m);
    law_split_front(content, front_lines(m));
}

/// A note that was read and given a plain front matter, that was written and is
/// read again, has that front matter, and the body, the reference section and the
/// inline fields that it had. Writing it once more gives the same text.
pub proof fn law_new_meta_read(
    content: Seq<char>,
    path: Seq<char>,
    p: ParsedZettel,
    m: MetaView,
    s: Seq<char>,
    q: Result<ParsedZettel, ZettelError>,
)
    requires
        is_reading(content, path, Ok(p)),
        is_settled(content),
        is_plain_meta(m),
        with_path_id(m, path) == m,
        is_text(m, p@.body, p@.reference, s),
        is_reading(s, path, q),
    ensures
        q matches Ok(y) && {
            &&& y@.meta == m
            &&& y@.body == p@.body
            &&& y@.reference == p@.reference
            &&& y@.fields == p@.fields
            &&& y@.path == p@.path
            &&& forall|t: Seq<char>| #[trigger] is_writing(y@, t) ==> t == s
        },
{
    law_plain_note_again(content, m);
    lemma_front_entries(m);
    assert(split_view(s)->Ok_0.frontmatter == plain_text(front_entries(m)));
}

/// The same of a note that holds the new front matter.
pub proof fn law_new_front_read(
    content: Seq<char>,
    path: Seq<char>,
    p: ParsedZettel,
    z: ParsedZettel,
    s: Seq<char>,
    q: Result<ParsedZettel, ZettelError>,
)
    requires
        is_reading(content, path, Ok(p)),
        is_settled(content),
        z@.body == p@.body && z@.reference == p@.reference,
        is_plain_meta(z@.meta),
        with_path_id(z@.meta, path) == z@.meta,
        is_writing(z@, s),
        is_reading(s, path, q),
    ensures
        q matches Ok(y) && {
            &&& y@.meta == z@.meta
            &&& y@.body == p@.body
            &&& y@.reference == p@.reference
            &&& y@.fields == p@.fields
            &&& y@.path == p@.path
            &&& forall|t: Seq<char>| #[trigger] is_writing(y@, t) ==> t == s
        },
{
    law_new_meta_read(content, path, p, z@.meta, s, q);
}

/// Reading a note with plain front matter, writing it and reading it again gives
/// the same front matter, body, reference section and inline fields, and writing
/// it once more the same text.
pub proof fn law_read_again(
    content: Seq<char>,
    path: Seq<char>,
    p: ParsedZettel,
    s: Seq<char>,
    q: Result<ParsedZettel, ZettelError>,
)
    requires
        is_reading(content, path, Ok(p)),
        is_settled(content),
        is_plain_meta(p@.meta),
        is_writing(p@, s),
        is_reading(s, path, q),
    ensures
        q matches Ok(y) && {
            &&& y@.meta == p@.meta
            &&& y@.body == p@.body
            &&& y@.reference == p@.reference
            &&& y@.fields == p@.fields
            &&& y@.path == p@.path
            &&& forall|t: Seq<char>| #[trigger] is_writing(y@, t) ==> t == s
        },
{
    assert(with_path_id(p@.meta, path) == p@.meta);
    law_new_front_read(content, path, p, p, s, q);
}

/// A note whose front matter writes plain entries, in whatever order, and whose inline
/// fields stand in one zone each is read; written and read again it is the same note.
pub proof fn law_plain_note_read_again(
    content: Seq<char>,
    path: Seq<char>,
    d: Seq<Entry>,
    r: Result<ParsedZettel, ZettelError>,
    s: Seq<char>,
    q: Result<ParsedZettel, ZettelError>,
)
    requires
        split_view(content) matches Ok(z) && z.frontmatter == plain_text(d) && inline_fields_of(
            z.body,
            z.reference,
        ) is Ok,
        is_settled(content),
        is_front(d),
        is_plain_meta(with_path_id(meta_from(d), path)),
        is_reading(content, path, r),
        r matches Ok(p) ==> is_writing(p@, s),
        is_reading(s, path, q),
    ensures
        r matches Ok(p) && p@.meta == with_path_id(meta_from(d), path) && (q matches Ok(y) && {
            &&& y@.meta == p@.meta
            &&& y@.body == p@.body
            &&& y@.reference == p@.reference
            &&& y@.fields == p@.fields
            &&& forall|t: Seq<char>| #[trigger] is_writing(y@, t) ==> t == s
        }),
{
    match r {
        Ok(p) => {
            law_read_again(content, path, p, s, q);
        },
        Err(_) => {},
    }
}

/// The lines of a plain front matter are lines, and none of them is a rule.
pub proof fn lemma_front_lines(m: MetaView)
    requires
        is_plain_meta(m),
    ensures
        are_lines(front_lines(m)),
        forall|i: int| 0 <= i < front_lines(m).len() ==> !is_rule(#[trigger] front_lines(m)[i]),
{
    lemma_front_entries(m);
    lemma_plain_lines(front_entries(m));
    let ls = front_lines(m);
    assert forall|i: int| 0 <= i < ls.len() implies is_line(#[trigger] ls[i]) && !is_rule(ls[i]) by {
        assert(is_sound(ls[i]));
        lemma_sound(ls[i]);
    }
}

} // verus!
