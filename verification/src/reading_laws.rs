//! What is read of a note and of a commit, and how values are quoted.
use crate::attachments::{infos, item_info, item_name, without_items, Items};
use crate::error::ErrorView;
use crate::hlc::{node_part, trailer, without_dashes, Hlc};
use crate::parser::{
    duplicate_field, field_items, fields_found, in_block, needs_quotes, nth_text, tag_items,
    with_path_id, yaml_quoted, zone_of,
};
use crate::picks::{lemma_pick_more, lemma_pick_none, picked};
use crate::schema::{column_of, columns_of};
use crate::text::{self, has_prefix, replaced, split, trimmed};
use crate::types::{extension_of, AttachmentView, ColumnView, FieldView, MetaView, ValueView, Zone};
use crate::yaml::YamlView;
use vstd::prelude::*;

verus! {

// ---------------------------------------------------------------------------
// Inline fields
// ---------------------------------------------------------------------------
/// What a line gives: a field or nothing, and the zone that it is in.
pub type Item = (Option<(Seq<char>, Seq<char>)>, Zone);

/// Whether a line gives a field with a key.
pub open spec fn gives(items: Seq<Item>, i: int, key: Seq<char>) -> bool {
    &&& 0 <= i < items.len()
    &&& items[i].0 matches Some((k, v)) && trimmed(k) == key
}

/// Whether a field is what the first line gives that has its key.
pub open spec fn is_first_given(items: Seq<Item>, f: FieldView, i: int) -> bool {
    &&& gives(items, i, f.key)
    &&& items[i].0 matches Some((k, v)) && v == f.value
    &&& items[i].1 == f.zone
    &&& forall|j: int| 0 <= j < i ==> !#[trigger] gives(items, j, f.key)
}

proof fn lemma_zone_of(fs: Seq<FieldView>, key: Seq<char>)
    ensures
        match zone_of(fs, key) {
            Some(z) => exists|i: int|
                0 <= i < fs.len() && (#[trigger] fs[i]).key == key && fs[i].zone == z,
            None => forall|i: int| 0 <= i < fs.len() ==> (#[trigger] fs[i]).key != key,
        },
    decreases fs.len(),
{
    if fs.len() > 0 {
        let d = fs.drop_last();
        if fs.last().key == key {
            assert(fs[fs.len() - 1].key == key);
        } else {
            lemma_zone_of(d, key);
            assert forall|i: int| 0 <= i < d.len() implies #[trigger] fs[i] == d[i] by {}
            if let Some(z) = zone_of(d, key) {
                let i = choose|i: int|
                    0 <= i < d.len() && (#[trigger] d[i]).key == key && d[i].zone == z;
                assert(fs[i].key == key);
            }
        }
    }
}

/// Whether fields are those that lines give: each key once, with the value and the zone of the
/// first line that gives it, and every line that gives a key in the zone of its field.
pub open spec fn are_fields(items: Seq<Item>, fs: Seq<FieldView>) -> bool {
    &&& forall|a: int, b: int|
        0 <= a < b < fs.len() ==> (#[trigger] fs[a]).key != (#[trigger] fs[b]).key
    &&& forall|a: int| 0 <= a < fs.len() ==> is_from(items, #[trigger] fs[a])
    &&& forall|i: int| 0 <= i < items.len() ==> is_held(fs, #[trigger] items[i])
}

pub open spec fn is_from(items: Seq<Item>, f: FieldView) -> bool {
    exists|i: int| is_first_given(items, f, i)
}

pub open spec fn is_held(fs: Seq<FieldView>, item: Item) -> bool {
    match item.0 {
        None => true,
        Some((k, v)) => exists|a: int|
            0 <= a < fs.len() && (#[trigger] fs[a]).key == trimmed(k) && fs[a].zone == item.1,
    }
}

/// Whether two lines of different zones give a key.
pub open spec fn clash(items: Seq<Item>, key: Seq<char>) -> bool {
    exists|i: int, j: int|
        i < j && #[trigger] gives(items, i, key) && #[trigger] gives(items, j, key) && items[i].1
            != items[j].1
}

proof fn lemma_from_more(d: Seq<Item>, item: Item, f: FieldView)
    requires
        is_from(d, f),
    ensures
        is_from(d.push(item), f),
{
    let items = d.push(item);
    let i = choose|i: int| is_first_given(d, f, i);
    assert(items[i] == d[i]);
    assert forall|j: int| 0 <= j < i implies !#[trigger] gives(items, j, f.key) by {
        assert(items[j] == d[j]);
        assert(!gives(d, j, f.key));
    }
    assert(is_first_given(items, f, i));
}

proof fn lemma_fields_more(d: Seq<Item>, item: Item, fs: Seq<FieldView>)
    requires
        are_fields(d, fs),
        is_held(fs, item),
    ensures
        are_fields(d.push(item), fs),
{
    let items = d.push(item);
    assert forall|a: int| 0 <= a < fs.len() implies is_from(items, #[trigger] fs[a]) by {
        lemma_from_more(d, item, fs[a]);
    }
    assert forall|i: int| 0 <= i < items.len() implies is_held(fs, #[trigger] items[i]) by {
        if i < d.len() {
            assert(items[i] == d[i]);
            assert(is_held(fs, d[i]));
        }
    }
}

proof fn lemma_fields_new(d: Seq<Item>, item: Item, fs: Seq<FieldView>, f: FieldView)
    requires
        are_fields(d, fs),
        item.0 matches Some((k, v)) && f.key == trimmed(k) && f.value == v && f.zone == item.1,
        forall|a: int| 0 <= a < fs.len() ==> (#[trigger] fs[a]).key != f.key,
    ensures
        are_fields(d.push(item), fs.push(f)),
{
    let items = d.push(item);
    let n = d.len() as int;
    let r = fs.push(f);
    assert forall|j: int| 0 <= j < n implies !#[trigger] gives(items, j, f.key) by {
        if gives(items, j, f.key) {
            assert(items[j] == d[j]);
            assert(is_held(fs, d[j]));
        }
    }
    assert(items[n] == item);
    assert(gives(items, n, f.key));
    assert(is_first_given(items, f, n));
    assert forall|a: int| 0 <= a < r.len() implies is_from(items, #[trigger] r[a]) by {
        if a < fs.len() {
            assert(r[a] == fs[a]);
            lemma_from_more(d, item, fs[a]);
        }
    }
    assert forall|i: int| 0 <= i < items.len() implies is_held(r, #[trigger] items[i]) by {
        if i < n {
            assert(items[i] == d[i]);
            assert(is_held(fs, d[i]));
            if let Some((k, v)) = d[i].0 {
                let a = choose|a: int|
                    0 <= a < fs.len() && (#[trigger] fs[a]).key == trimmed(k) && fs[a].zone
                        == d[i].1;
                assert(r[a] == fs[a]);
            }
        } else {
            assert(r[fs.len() as int] == f);
        }
    }
    assert forall|a: int, b: int| 0 <= a < b < r.len() implies (#[trigger] r[a]).key != (
    #[trigger] r[b]).key by {
        assert(r[a] == fs[a]);
        if b < fs.len() {
            assert(r[b] == fs[b]);
        }
    }
}

proof fn lemma_clash_more(d: Seq<Item>, item: Item, key: Seq<char>)
    requires
        clash(d, key),
    ensures
        clash(d.push(item), key),
{
    let items = d.push(item);
    let (i, j) = choose|i: int, j: int|
        i < j && #[trigger] gives(d, i, key) && #[trigger] gives(d, j, key) && d[i].1 != d[j].1;
    assert(items[i] == d[i] && items[j] == d[j]);
    assert(gives(items, i, key) && gives(items, j, key));
}

/// The inline fields of a note: for each key that a line gives, the first such line says the
/// value and the zone. No key is there twice. A key that lines of both zones give is refused.
pub proof fn law_inline_fields(items: Seq<Item>)
    ensures
        match fields_found(items) {
            Ok(fs) => are_fields(items, fs),
            Err(e) => exists|key: Seq<char>| #[trigger]
                clash(items, key) && e == duplicate_field(key),
        },
    decreases items.len(),
{
    if items.len() > 0 {
        let d = items.drop_last();
        let l = items.last();
        law_inline_fields(d);
        assert(items =~= d.push(l));
        match fields_found(d) {
            Err(e) => {
                let key = choose|key: Seq<char>| #[trigger]
                    clash(d, key) && e == duplicate_field(key);
                lemma_clash_more(d, l, key);
            },
            Ok(fs) => {
                match l.0 {
                    None => {
                        lemma_fields_more(d, l, fs);
                    },
                    Some((k, v)) => {
                        let key = trimmed(k);
                        lemma_zone_of(fs, key);
                        match zone_of(fs, key) {
                            None => {
                                let f = FieldView { key, value: v, zone: l.1 };
                                lemma_fields_new(d, l, fs, f);
                            },
                            Some(z) => {
                                let a = choose|a: int|
                                    0 <= a < fs.len() && (#[trigger] fs[a]).key == key && fs[a].zone
                                        == z;
                                if z == l.1 {
                                    assert(is_held(fs, l));
                                    lemma_fields_more(d, l, fs);
                                } else {
                                    assert(is_from(d, fs[a]));
                                    let i = choose|i: int| is_first_given(d, fs[a], i);
                                    let n = d.len() as int;
                                    assert(items[i] == d[i] && items[n] == l);
                                    assert(gives(items, i, key) && gives(items, n, key));
                                    assert(clash(items, key));
                                }
                            },
                        }
                    },
                }
            },
        }
    }
}

/// A key that lines of both zones give refuses the note.
pub proof fn law_clash_refused(items: Seq<Item>, key: Seq<char>)
    requires
        clash(items, key),
    ensures
        fields_found(items) is Err,
{
    law_inline_fields(items);
    if let Ok(fs) = fields_found(items) {
        let (i, j) = choose|i: int, j: int|
            i < j && #[trigger] gives(items, i, key) && #[trigger] gives(items, j, key)
                && items[i].1 != items[j].1;
        assert(is_held(fs, items[i]) && is_held(fs, items[j]));
        let a = choose|a: int|
            0 <= a < fs.len() && (#[trigger] fs[a]).key == key && fs[a].zone == items[i].1;
        let b = choose|b: int|
            0 <= b < fs.len() && (#[trigger] fs[b]).key == key && fs[b].zone == items[j].1;
        assert(a == b);
    }
}

/// The number of marks before a line.
pub open spec fn marks_before(fences: Seq<bool>, n: int) -> nat
    decreases n,
{
    if n <= 0 {
        0
    } else {
        marks_before(fences, n - 1) + if fences[n - 1] {
            1nat
        } else {
            0
        }
    }
}

/// A line is in a block of code where an odd number of marks stands before it. It gives no
/// field then, nor does a mark; any other line gives what is found in it.
pub proof fn law_code_gives_nothing(
    fences: Seq<bool>,
    body: Seq<Option<(Seq<char>, Seq<char>)>>,
    reference: Seq<Option<(Seq<char>, Seq<char>)>>,
    i: int,
)
    requires
        0 <= i < body.len() == fences.len(),
    ensures
        field_items(fences, body, reference).len() == body.len() + reference.len(),
        field_items(fences, body, reference)[i].1 == Zone::Body,
        field_items(fences, body, reference)[i].0 == if fences[i] || marks_before(fences, i) % 2
            == 1 {
            None
        } else {
            body[i]
        },
        forall|j: int|
            0 <= j < reference.len() ==> field_items(fences, body, reference)[body.len() + j] == (
                #[trigger] reference[j],
                Zone::Reference,
            ),
{
    lemma_in_block(fences, i);
}

proof fn lemma_in_block(fences: Seq<bool>, n: int)
    requires
        0 <= n <= fences.len(),
    ensures
        in_block(fences, n) == (marks_before(fences, n) % 2 == 1),
    decreases n,
{
    if n > 0 {
        lemma_in_block(fences, n - 1);
    }
}

// ---------------------------------------------------------------------------
// Front matter
// ---------------------------------------------------------------------------
/// A note that says no identifier has the name of its file for one, where that is a number;
/// nothing else of it comes from the file's name.
pub proof fn law_id_of_file(m: MetaView, dir: Seq<char>, name: Seq<char>)
    requires
        name.len() > 0 && !name.contains('/'),
    ensures
        ({
            let r = with_path_id(m, dir + "/"@ + name + ".md"@);
            &&& r.title == m.title && r.date == m.date && r.tags == m.tags && r.extra == m.extra
                && r.zettel_type == m.zettel_type
            &&& m.id is Some ==> r.id == m.id
            &&& m.id is None && text::all_digits(name) ==> r.id == Some(name)
            &&& m.id is None && !text::all_digits(name) ==> r.id is None
        }),
{
    crate::move_laws::law_link_id(dir, name);
}

/// A text with each of its characters that need it behind a backslash.
pub open spec fn escaped(s: Seq<char>) -> Seq<char>
    decreases s.len(),
{
    if s.len() == 0 {
        s
    } else {
        (if s[0] == '\\' || s[0] == '"' {
            seq!['\\', s[0]]
        } else {
            seq![s[0]]
        }) + escaped(s.drop_first())
    }
}

proof fn lemma_replaced_step(c: char, r: Seq<char>, x: char, to: Seq<char>)
    ensures
        replaced(seq![c] + r, seq![x], to) == (if c == x {
            to
        } else {
            seq![c]
        }) + replaced(r, seq![x], to),
{
    let s = seq![c] + r;
    assert(s.take(1) =~= seq![c]);
    assert(s.skip(1) =~= r);
    assert(s.drop_first() =~= r);
    if c != x {
        assert(seq![c][0] != seq![x][0]);
    }
}

proof fn lemma_escaped(s: Seq<char>)
    ensures
        replaced(replaced(s, seq!['\\'], seq!['\\', '\\']), seq!['"'], seq!['\\', '"']) == escaped(
            s,
        ),
    decreases s.len(),
{
    let a = seq!['\\'];
    let aa = seq!['\\', '\\'];
    let q = seq!['"'];
    let aq = seq!['\\', '"'];
    if s.len() == 0 {
        assert(replaced(s, a, aa) == s);
    } else {
        let c = s[0];
        let r = s.drop_first();
        assert(s =~= seq![c] + r);
        lemma_escaped(r);
        lemma_replaced_step(c, r, '\\', aa);
        let w = replaced(r, a, aa);
        if c == '\\' {
            assert(aa + w =~= seq!['\\'] + (seq!['\\'] + w));
            lemma_replaced_step('\\', seq!['\\'] + w, '"', aq);
            lemma_replaced_step('\\', w, '"', aq);
            assert(seq!['\\'] + (seq!['\\'] + replaced(w, q, aq)) =~= aa + replaced(w, q, aq));
        } else {
            lemma_replaced_step(c, w, '"', aq);
        }
    }
}

/// A text that would not be read as it is stands in double quotes, with a backslash before
/// each backslash and each quote in it; any other text is written as it is.
pub proof fn law_quoted_text(s: Seq<char>)
    ensures
        (exists|i: int|
            0 <= i < s.len() && (#[trigger] s[i] == ':' || s[i] == '[' || s[i] == ']' || s[i] == '{'
                || s[i] == '}' || s[i] == '#')) ==> yaml_quoted(s) == seq!['"'] + escaped(s) + seq![
            '"',
        ],
        (forall|i: int|
            0 <= i < s.len() ==> #[trigger] s[i] != ':' && s[i] != '[' && s[i] != ']' && s[i] != '{'
                && s[i] != '}' && s[i] != '#') ==> yaml_quoted(s) == s,
{
    reveal_strlit("\"");
    reveal_strlit("\\");
    reveal_strlit("\\\\");
    reveal_strlit("\\\"");
    assert("\""@ =~= seq!['"']);
    assert("\\"@ =~= seq!['\\']);
    assert("\\\\"@ =~= seq!['\\', '\\']);
    assert("\\\""@ =~= seq!['\\', '"']);
    lemma_escaped(s);
    if exists|i: int|
        0 <= i < s.len() && (#[trigger] s[i] == ':' || s[i] == '[' || s[i] == ']' || s[i] == '{'
            || s[i] == '}' || s[i] == '#') {
        let i = choose|i: int|
            0 <= i < s.len() && (#[trigger] s[i] == ':' || s[i] == '[' || s[i] == ']' || s[i] == '{'
                || s[i] == '}' || s[i] == '#');
        assert(s.contains(s[i]));
        assert(needs_quotes(s));
    } else {
        assert(!needs_quotes(s));
    }
}

/// The tags of a note are all in the list, in their order; one that is no text refuses it.
pub proof fn law_tags_read(l: Seq<YamlView>, written: Seq<Seq<char>>)
    ensures
        match tag_items(l, written) {
            Some(t) => t.len() == l.len() && forall|i: int|
                0 <= i < l.len() ==> crate::written::scalar_text(
                    #[trigger] l[i],
                    nth_text(written, i),
                ) == Some(t[i]),
            None => exists|i: int|
                0 <= i < l.len() && crate::written::scalar_text(
                    #[trigger] l[i],
                    nth_text(written, i),
                ) is None,
        },
    decreases l.len(),
{
    if l.len() > 0 {
        let d = l.drop_last();
        let n = l.len() - 1;
        law_tags_read(d, written);
        assert forall|i: int| 0 <= i < n implies #[trigger] l[i] == d[i] by {}
        assert(l[n] == l.last());
        if tag_items(d, written) is None {
            let i = choose|i: int|
                0 <= i < d.len() && crate::written::scalar_text(
                    #[trigger] d[i],
                    nth_text(written, i),
                ) is None;
            assert(l[i] == d[i]);
        }
    }
}

// ---------------------------------------------------------------------------
// Attachments
// ---------------------------------------------------------------------------
/// The attachments of a note are those of its list that have a name, in their order.
pub proof fn law_attachments_read(items: Items, id: Seq<char>, none: AttachmentView)
    ensures
        picked(
            infos(items, id),
            Seq::new(items.len(), |i: int| item_info(items[i], id).unwrap_or(none)),
            |i: int| item_name(items[i]) is Some,
        ),
    decreases items.len(),
{
    let whole = Seq::new(items.len(), |i: int| item_info(items[i], id).unwrap_or(none));
    let keep = |i: int| item_name(items[i]) is Some;
    if items.len() == 0 {
        assert(whole =~= Seq::<AttachmentView>::empty());
        lemma_pick_none::<AttachmentView>(keep);
    } else {
        let d = items.drop_last();
        law_attachments_read(d, id, none);
        assert(whole.drop_last() =~= Seq::new(
            d.len(),
            |i: int| item_info(d[i], id).unwrap_or(none),
        ));
        lemma_pick_more(infos(d, id), whole, |i: int| item_name(d[i]) is Some, keep);
    }
}

/// Taking an attachment takes each item of its name and keeps the others, in their order.
pub proof fn law_attachment_taken(items: Items, name: Seq<char>)
    ensures
        picked(without_items(items, name), items, |i: int| item_name(items[i]) != Some(name)),
    decreases items.len(),
{
    let keep = |i: int| item_name(items[i]) != Some(name);
    if items.len() == 0 {
        assert(items =~= Seq::<ValueView>::empty());
        lemma_pick_none::<ValueView>(keep);
    } else {
        let d = items.drop_last();
        law_attachment_taken(d, name);
        lemma_pick_more(
            without_items(d, name),
            items,
            |i: int| item_name(d[i]) != Some(name),
            keep,
        );
    }
}

/// What follows the last dot of a file's name is its extension.
pub proof fn law_extension(stem: Seq<char>, ext: Seq<char>)
    requires
        !ext.contains('.'),
    ensures
        extension_of(stem + "."@ + ext) == Some(ext),
        extension_of(ext) is None,
{
    reveal_strlit(".");
    assert forall|i: int| 0 <= i < ext.len() implies ext[i] != '.' by {
        assert(ext.contains(ext[i]));
    }
    crate::log_laws::lemma_split_one(ext, '.');
    crate::log_laws::lemma_split_cat(stem, '.', ext);
    text::lemma_split_nonempty(stem, '.');
    assert(stem + "."@ + ext =~= stem + seq!['.'] + ext);
    assert((split(stem, '.') + seq![ext]).last() == ext);
}

// ---------------------------------------------------------------------------
// Schemas
// ---------------------------------------------------------------------------
/// The columns of a schema are read one by one, each in its place; the first that cannot be
/// read refuses it.
pub proof fn law_columns_read(l: Seq<ValueView>)
    ensures
        match columns_of(l) {
            Ok(cs) => cs.len() == l.len() && forall|i: int|
                0 <= i < l.len() ==> column_of(#[trigger] l[i]) == Ok::<ColumnView, ErrorView>(
                    cs[i],
                ),
            Err(e) => exists|i: int|
                0 <= i < l.len() && column_of(#[trigger] l[i]) == Err::<ColumnView, ErrorView>(e)
                    && forall|j: int| 0 <= j < i ==> column_of(#[trigger] l[j]) is Ok,
        },
    decreases l.len(),
{
    if l.len() > 0 {
        let d = l.drop_last();
        let n = l.len() - 1;
        law_columns_read(d);
        assert forall|i: int| 0 <= i < n implies #[trigger] l[i] == d[i] by {}
        assert(l[n] == l.last());
        if let Err(e) = columns_of(d) {
            let i = choose|i: int|
                0 <= i < d.len() && column_of(#[trigger] d[i]) == Err::<ColumnView, ErrorView>(e)
                    && forall|j: int| 0 <= j < i ==> column_of(#[trigger] d[j]) is Ok;
            assert(l[i] == d[i]);
        }
    }
}

// ---------------------------------------------------------------------------
// Time stamps
// ---------------------------------------------------------------------------
/// A device's part of a time stamp is the first eight characters of its identifier, dashes
/// not counted.
pub proof fn law_node_part(id: Seq<char>)
    ensures
        picked(without_dashes(id), id, |i: int| id[i] != '-'),
        has_prefix(without_dashes(id), node_part(id)),
        node_part(id).len() == if without_dashes(id).len() < 8 {
            without_dashes(id).len()
        } else {
            8
        },
    decreases id.len(),
{
    let keep = |i: int| id[i] != '-';
    let w = without_dashes(id);
    assert(w.take(node_part(id).len() as int) =~= node_part(id));
    if id.len() == 0 {
        assert(id =~= Seq::<char>::empty());
        lemma_pick_none::<char>(keep);
    } else {
        let d = id.drop_last();
        law_node_part(d);
        lemma_pick_more(without_dashes(d), id, |i: int| d[i] != '-', keep);
    }
}

/// The time stamp in a message is on the last line that begins as one.
pub proof fn law_trailer(ls: Seq<Seq<char>>)
    ensures
        match trailer(ls) {
            Some(t) => exists|i: int|
                0 <= i < ls.len() && has_prefix(#[trigger] ls[i], "HLC: "@) && t == trimmed(
                    ls[i].skip(5),
                ) && forall|j: int|
                    i < j < ls.len() ==> !has_prefix(#[trigger] ls[j], "HLC: "@),
            None => forall|j: int| 0 <= j < ls.len() ==> !has_prefix(#[trigger] ls[j], "HLC: "@),
        },
    decreases ls.len(),
{
    reveal_strlit("HLC: ");
    if ls.len() > 0 {
        let d = ls.drop_last();
        let n = ls.len() - 1;
        if has_prefix(ls.last(), "HLC: "@) {
            assert(has_prefix(ls[n], "HLC: "@));
        } else {
            law_trailer(d);
            assert forall|j: int| 0 <= j < n implies #[trigger] ls[j] == d[j] by {}
            if let Some(t) = trailer(d) {
                let i = choose|i: int|
                    0 <= i < d.len() && has_prefix(#[trigger] d[i], "HLC: "@) && t == trimmed(
                        d[i].skip(5),
                    ) && forall|j: int| i < j < d.len() ==> !has_prefix(#[trigger] d[j], "HLC: "@);
                assert(ls[i] == d[i]);
            }
        }
    }
}

/// A tick shows the wall clock where that is ahead of the last time stamp; else it stays at the
/// last one's time and counts on by one.
pub proof fn law_tick(h: Hlc, wall: u64, node_id: Seq<char>, last: Option<Hlc>)
    requires
        h.is_tick(wall, node_id, last),
    ensures
        h.wall_ms >= wall,
        h.node@ == node_part(node_id),
        last is None ==> h.wall_ms == wall && h.counter == 0,
        last matches Some(prev) ==> {
            &&& prev.before(h)
            &&& h.wall_ms >= prev.wall_ms
            &&& h.wall_ms == wall || h.wall_ms == prev.wall_ms
            &&& h.wall_ms > prev.wall_ms ==> h.counter == 0
            &&& h.wall_ms == prev.wall_ms ==> h.counter == prev.counter + 1
        },
{
}

/// Two devices that take in each other's time stamps at one time come to the same time and
/// count, which is behind neither and no further ahead than it has to be.
pub proof fn law_merge_agrees(
    a: Hlc,
    b: Hlc,
    wall: u64,
    node: Seq<char>,
    other: Seq<char>,
    x: Hlc,
    y: Hlc,
)
    requires
        a.is_merge(wall, node, Some(x), y),
        b.is_merge(wall, other, Some(y), x),
    ensures
        a.wall_ms == b.wall_ms,
        a.counter == b.counter,
        x.before(a) && y.before(a) && x.before(b) && y.before(b),
        a.wall_ms == wall || a.wall_ms == x.wall_ms || a.wall_ms == y.wall_ms,
        a.wall_ms >= wall,
        a.wall_ms > x.wall_ms && a.wall_ms > y.wall_ms ==> a.counter == 0,
        a.counter <= x.counter + 1 || a.counter <= y.counter + 1,
        a.wall_ms == x.wall_ms && a.wall_ms > y.wall_ms ==> a.counter == x.counter + 1,
{
}

} // verus!
