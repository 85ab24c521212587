//! What single values are read as, and how a section is set.
use crate::attachments::{
    entry_of, item_info, item_name, items_of, others, with_attachment, with_extra, with_item,
    without_attachment, without_items,
};
use crate::git_ops::{conflict_path, ConflictSide};
use crate::indexer::{is_whole, type_of_value, LARGEST_WHOLE};
use crate::note_laws::{is_same_note, law_without};
use crate::parser::{id_field, text_field};
use crate::picks::{lemma_pick_more, lemma_pick_none, picked};
use crate::rows::{
    blank_after, has_heading, heading_of, next_heading, section_replaced, with_section,
};
use crate::schema::{column_of, text_at, Fields};
use crate::sql::{type_name_of, SqlType};
use crate::text::{self, has_prefix, is_blank, trimmed};
use crate::textmap::{self, keys, lookup};
use crate::types::{mime_of, AttachmentView, RealView, ValueView, ZettelView, Zone};
use crate::yaml::{value_of, YamlView};
use vstd::prelude::*;

verus! {

// ---------------------------------------------------------------------------
// Values
// ---------------------------------------------------------------------------
/// A number is a whole one where it is shown as one; a list or a mapping counts as a text.
pub proof fn law_type_of_number(n: RealView, l: Seq<ValueView>, m: Fields)
    ensures
        is_whole(n.display) ==> type_of_value(ValueView::Number(n)) == "INTEGER"@,
        !is_whole(n.display) ==> type_of_value(ValueView::Number(n)) == "REAL"@,
        type_of_value(ValueView::List(l)) == "TEXT"@,
        type_of_value(ValueView::Mapping(m)) == "TEXT"@,
        n.display.len() > 0 && text::all_digits(n.display) && crate::string_laws::value_of(n.display)
            <= LARGEST_WHOLE ==> is_whole(n.display),
        n.display.contains('.') ==> !is_whole(n.display),
{
    let d = n.display;
    crate::string_laws::law_scanned(d, LARGEST_WHOLE as int);
    if d.len() > 0 && text::all_digits(d) {
        assert(text::is_digit(d[0]));
    }
    if d.contains('.') {
        let i = d.index_of('.');
        assert(!text::is_digit(d[i]));
        if text::all_digits(d) {
            assert(text::is_digit(d[i]));
        }
        if d.len() > 0 && d[0] == '-' {
            let e = d.drop_first();
            assert(e[i - 1] == '.');
            assert(!text::all_digits(e)) by {
                if text::all_digits(e) {
                    assert(text::is_digit(e[i - 1]));
                }
            }
            crate::string_laws::law_scanned(e, LARGEST_WHOLE as int);
        }
    }
}

/// An attachment without a type or a size has the general type and no size.
pub proof fn law_attachment_defaults(m: Fields, id: Seq<char>, name: Seq<char>)
    requires
        lookup(m, "name"@) == Some(ValueView::Text(name)),
    ensures
        item_name(ValueView::Mapping(m)) == Some(name),
        item_info(ValueView::Mapping(m), id) matches Some(a) && {
            &&& a.name == name
            &&& a.path == "reference/"@ + id + "/"@ + name
            &&& lookup(m, "mime"@) is None ==> a.mime == "application/octet-stream"@
            &&& lookup(m, "mime"@) matches Some(ValueView::Text(t)) ==> a.mime == t
            &&& lookup(m, "size"@) is None ==> a.size == 0
            &&& lookup(m, "size"@) matches Some(ValueView::Number(n)) ==> a.size == n.as_u64
        },
{
}

/// A column has a name and a data type; the zone that it names counts, and one that is not known
/// is the body.
pub proof fn law_column_read(m: Fields)
    ensures
        column_of(ValueView::Mapping(m)) is Ok == (text_at(m, "name"@) is Some && text_at(
            m,
            "data_type"@,
        ) is Some),
        column_of(ValueView::Mapping(m)) matches Ok(c) ==> {
            &&& Some(c.name) == text_at(m, "name"@)
            &&& Some(c.data_type) == text_at(m, "data_type"@)
            &&& c.references == text_at(m, "references"@)
            &&& c.default_value == text_at(m, "default_value"@)
            &&& c.required == (lookup(m, "required"@) == Some(ValueView::Bool(true)))
            &&& text_at(m, "zone"@) is None ==> c.zone is None
            &&& text_at(m, "zone"@) == Some("frontmatter"@) ==> c.zone == Some(Zone::Frontmatter)
            &&& text_at(m, "zone"@) == Some("reference"@) ==> c.zone == Some(Zone::Reference)
            &&& text_at(m, "zone"@) matches Some(z) ==> z != "frontmatter"@ && z != "reference"@
                ==> c.zone == Some(Zone::Body)
        },
{
    crate::rule_laws::law_zone_text(Zone::Reference);
    reveal_strlit("frontmatter");
    reveal_strlit("reference");
    assert("frontmatter"@.len() != "reference"@.len());
}

/// An identifier is a text or a whole number, as it is written; a title is any single value.
pub proof fn law_fields_of_own(y: YamlView, w: Option<Seq<char>>)
    ensures
        y is Null ==> id_field(y) == Some(None::<Seq<char>>) && text_field(y, w) == Some(
            None::<Seq<char>>,
        ),
        y matches YamlView::Text(s) ==> id_field(y) == Some(Some(s)) && text_field(y, w) == Some(
            Some(s),
        ),
        y matches YamlView::Number { text: t, value: v } ==> text::all_digits(t) && t.len() > 0
            ==> id_field(y) == Some(Some(t)),
        y matches YamlView::Number { text: t, value: v } ==> t.contains('.') ==> id_field(y) is None,
        y is List || y is Mapping ==> id_field(y) is None && text_field(y, w) is None,
        y is Bool ==> id_field(y) is None,
{
    if let YamlView::Number { text: t, value: v } = y {
        if t.contains('.') {
            let i = t.index_of('.');
            assert(!text::is_digit(t[i]));
            if text::all_digits(t) {
                assert(text::is_digit(t[i]));
            }
            if t.len() > 1 && t[0] == '-' {
                let e = t.drop_first();
                assert(e[i - 1] == '.');
                if text::all_digits(e) {
                    assert(text::is_digit(e[i - 1]));
                }
            }
        }
    }
}

/// A value of a tree is taken as it is; what is null or has a tag is an empty text.
pub proof fn law_value_of_tree(y: YamlView)
    ensures
        y matches YamlView::Text(s) ==> value_of(y) == ValueView::Text(s),
        y matches YamlView::Bool(b) ==> value_of(y) == ValueView::Bool(b),
        y matches YamlView::Number { text: t, value: v } ==> value_of(y) == ValueView::Number(v),
        y is Null || y is Tagged ==> (value_of(y) matches ValueView::Text(s) && s.len() == 0),
        y is List == value_of(y) is List,
        y is Mapping == value_of(y) is Mapping,
{
}

/// A conflict that neither side names has no path.
pub proof fn law_nameless_conflict(theirs: Option<ConflictSide>)
    ensures
        conflict_path(None, None).len() == 0,
{
    reveal_strlit("");
}

// ---------------------------------------------------------------------------
// Sections
// ---------------------------------------------------------------------------
proof fn lemma_none_replaced(ls: Seq<Seq<char>>, i: int, h: Seq<char>, val: Seq<char>)
    requires
        0 <= i <= ls.len(),
        forall|j: int| i <= j < ls.len() ==> trimmed(#[trigger] ls[j]) != h,
    ensures
        section_replaced(ls, i, h, val) == ls.skip(i),
    decreases ls.len() - i,
{
    if i < ls.len() {
        lemma_none_replaced(ls, i + 1, h, val);
        assert(seq![ls[i]] + ls.skip(i + 1) =~= ls.skip(i));
    } else {
        assert(ls.skip(i) =~= Seq::empty());
    }
}

proof fn lemma_before_replaced(ls: Seq<Seq<char>>, i: int, k: int, h: Seq<char>, val: Seq<char>)
    requires
        0 <= i <= k <= ls.len(),
        forall|j: int| i <= j < k ==> trimmed(#[trigger] ls[j]) != h,
    ensures
        section_replaced(ls, i, h, val) == ls.subrange(i, k) + section_replaced(ls, k, h, val),
    decreases k - i,
{
    if i < k {
        lemma_before_replaced(ls, i + 1, k, h, val);
        assert(seq![ls[i]] + ls.subrange(i + 1, k) =~= ls.subrange(i, k));
        assert(section_replaced(ls, i, h, val) =~= ls.subrange(i, k) + section_replaced(
            ls,
            k,
            h,
            val,
        ));
    } else {
        assert(ls.subrange(i, k) + section_replaced(ls, k, h, val) =~= section_replaced(
            ls,
            k,
            h,
            val,
        ));
    }
}

/// Setting a section replaces the lines under its heading by the value. The lines before the
/// heading and from the next heading on stay as they are, and so does the heading; a blank line
/// behind it stays, and one stands before the next heading.
pub proof fn law_section_set(
    before: Seq<Seq<char>>,
    heading: Seq<char>,
    held: Seq<Seq<char>>,
    after: Seq<Seq<char>>,
    name: Seq<char>,
    val: Seq<char>,
)
    requires
        trimmed(heading) == "## "@ + name,
        forall|i: int| 0 <= i < before.len() ==> trimmed(#[trigger] before[i]) != "## "@ + name,
        forall|i: int| 0 <= i < held.len() ==> !has_prefix(#[trigger] held[i], "## "@),
        after.len() > 0 ==> has_prefix(after[0], "## "@),
        forall|i: int| 0 <= i < after.len() ==> trimmed(#[trigger] after[i]) != "## "@ + name,
        held.len() > 0 || after.len() == 0 || !is_blank(after[0]),
    ensures
        with_section(before + seq![heading] + held + after, name, val) == before + seq![heading] + (
        if held.len() > 0 && is_blank(held[0]) {
            seq![Seq::<char>::empty()]
        } else {
            Seq::empty()
        }) + seq![val] + (if after.len() > 0 {
            seq![Seq::<char>::empty()]
        } else {
            Seq::empty()
        }) + after,
{
    let ls = before + seq![heading] + held + after;
    let h = heading_of(name);
    let b = before.len() as int;
    let e = b + 1 + held.len();
    assert(ls[b] == heading);
    assert(has_heading(ls, h));
    assert forall|j: int| 0 <= j < b implies trimmed(#[trigger] ls[j]) != h by {
        assert(ls[j] == before[j]);
    }
    lemma_before_replaced(ls, 0, b, h, val);
    assert(ls.subrange(0, b) =~= before);
    let k = next_heading(ls, b + 1);
    crate::column_laws::law_next_heading(ls, b + 1);
    if k < e {
        assert(ls[k] == held[k - b - 1]);
    }
    if after.len() > 0 {
        assert(ls[e] == after[0]);
    }
    assert(k == e);
    assert forall|j: int| e <= j < ls.len() implies trimmed(#[trigger] ls[j]) != h by {
        assert(ls[j] == after[j - e]);
    }
    lemma_none_replaced(ls, e, h, val);
    assert(ls.skip(e) =~= after);
    if held.len() > 0 {
        assert(ls[b + 1] == held[0]);
    } else if after.len() > 0 {
        assert(ls[b + 1] == after[0]);
    }
    assert(blank_after(ls, b) == (held.len() > 0 && is_blank(held[0])));
    assert(with_section(ls, name, val) =~= before + seq![heading] + (if held.len() > 0 && is_blank(
        held[0],
    ) {
        seq![Seq::<char>::empty()]
    } else {
        Seq::empty()
    }) + seq![val] + (if after.len() > 0 {
        seq![Seq::<char>::empty()]
    } else {
        Seq::empty()
    }) + after);
}

/// A section that is not there is added at the end, behind a blank line; what was there stays.
pub proof fn law_section_added(ls: Seq<Seq<char>>, name: Seq<char>, val: Seq<char>)
    requires
        forall|i: int| 0 <= i < ls.len() ==> trimmed(#[trigger] ls[i]) != "## "@ + name,
    ensures
        with_section(ls, name, val) == ls + (if ls.len() > 0 && !is_blank(ls.last()) {
            seq![Seq::<char>::empty()]
        } else {
            Seq::empty()
        }) + seq!["## "@ + name, Seq::<char>::empty(), val],
{
    assert(!has_heading(ls, heading_of(name)));
}

// ---------------------------------------------------------------------------
// Attachments
// ---------------------------------------------------------------------------
/// Attaching a file and detaching one change the note's list of attachments. Its title, date, tags
/// and type, its other fields, its body and its reference section stay as they are.
pub proof fn law_attach_changes_one_field(
    z: ZettelView,
    a: AttachmentView,
    name: Seq<char>,
    key: Seq<char>,
)
    requires
        text::ascending(keys(z.meta.extra)),
        key != "attachments"@,
    ensures
        is_same_note(with_extra(z, with_attachment(z.meta.extra, a)), z),
        with_extra(z, with_attachment(z.meta.extra, a)).meta.title == z.meta.title,
        with_extra(z, with_attachment(z.meta.extra, a)).body == z.body,
        with_extra(z, with_attachment(z.meta.extra, a)).reference == z.reference,
        lookup(with_extra(z, with_attachment(z.meta.extra, a)).meta.extra, key) == lookup(
            z.meta.extra,
            key,
        ),
        without_attachment(z.meta.extra, name) matches Some(e) ==> {
            let y = with_extra(z, e);
            &&& is_same_note(y, z)
            &&& y.meta.title == z.meta.title && y.body == z.body && y.reference == z.reference
            &&& lookup(y.meta.extra, key) == lookup(z.meta.extra, key)
        },
{
    let extra = z.meta.extra;
    let l = "attachments"@;
    let items = items_of(extra);
    let x = ValueView::List(with_item(items, a.name, entry_of(a)));
    textmap::lemma_lookup_put(extra, l, x);
    let rest = without_items(items, name);
    textmap::lemma_lookup_put(extra, l, ValueView::List(rest));
    law_without(extra, l, key);
}

/// The other attachments are those of other names, in their order.
pub proof fn law_other_attachments(l: Seq<AttachmentView>, name: Seq<char>)
    ensures
        picked(others(l, name), l, |i: int| l[i].name != name),
    decreases l.len(),
{
    let keep = |i: int| l[i].name != name;
    if l.len() == 0 {
        assert(l =~= Seq::<AttachmentView>::empty());
        lemma_pick_none::<AttachmentView>(keep);
    } else {
        let d = l.drop_last();
        law_other_attachments(d, name);
        lemma_pick_more(others(d, name), l, |i: int| d[i].name != name, keep);
    }
}

// ---------------------------------------------------------------------------
// Names of types
// ---------------------------------------------------------------------------
/// The types of columns are whole numbers, real numbers, truth values and texts, under whatever
/// name a statement declares them.
pub proof fn law_column_types(t: SqlType)
    ensures
        t is Integer || t is Int || t is BigInt || t is SmallInt ==> type_name_of(t) == "INTEGER"@,
        t is Real || t is Float || t is Double || t is DoublePrecision ==> type_name_of(t)
            == "REAL"@,
        t is Boolean ==> type_name_of(t) == "BOOLEAN"@,
        t is Text || t is Varchar || t is CharVarying || t is Other ==> type_name_of(t) == "TEXT"@,
{
}

/// The type of a file follows from its extension.
#[verifier::spinoff_prover]
#[verifier::rlimit(60)]
pub proof fn law_file_types(ext: Seq<char>)
    ensures
        ext == "jpg"@ || ext == "jpeg"@ ==> mime_of(ext) == "image/jpeg"@,
        ext == "png"@ ==> mime_of(ext) == "image/png"@,
        ext == "gif"@ ==> mime_of(ext) == "image/gif"@,
        ext == "svg"@ ==> mime_of(ext) == "image/svg+xml"@,
        ext == "webp"@ ==> mime_of(ext) == "image/webp"@,
        ext == "bmp"@ ==> mime_of(ext) == "image/bmp"@,
        ext == "ico"@ ==> mime_of(ext) == "image/x-icon"@,
        ext == "pdf"@ ==> mime_of(ext) == "application/pdf"@,
        ext == "json"@ ==> mime_of(ext) == "application/json"@,
        ext == "xml"@ ==> mime_of(ext) == "application/xml"@,
        ext == "zip"@ ==> mime_of(ext) == "application/zip"@,
        ext == "gz"@ || ext == "gzip"@ ==> mime_of(ext) == "application/gzip"@,
        ext == "tar"@ ==> mime_of(ext) == "application/x-tar"@,
        ext == "txt"@ ==> mime_of(ext) == "text/plain"@,
        ext == "md"@ ==> mime_of(ext) == "text/markdown"@,
        ext == "html"@ || ext == "htm"@ ==> mime_of(ext) == "text/html"@,
        ext == "css"@ ==> mime_of(ext) == "text/css"@,
        ext == "csv"@ ==> mime_of(ext) == "text/csv"@,
        ext == "js"@ ==> mime_of(ext) == "text/javascript"@,
        ext == "mp3"@ ==> mime_of(ext) == "audio/mpeg"@,
        ext == "wav"@ ==> mime_of(ext) == "audio/wav"@,
        ext == "mp4"@ ==> mime_of(ext) == "video/mp4"@,
        ext == "webm"@ ==> mime_of(ext) == "video/webm"@,
        ext == "mov"@ ==> mime_of(ext) == "video/quicktime"@,
{
    reveal_strlit("jpg");
    reveal_strlit("jpeg");
    reveal_strlit("png");
    reveal_strlit("gif");
    reveal_strlit("svg");
    reveal_strlit("webp");
    reveal_strlit("bmp");
    reveal_strlit("ico");
    reveal_strlit("pdf");
    reveal_strlit("json");
    reveal_strlit("xml");
    reveal_strlit("zip");
    reveal_strlit("gz");
    reveal_strlit("gzip");
    reveal_strlit("tar");
    reveal_strlit("txt");
    reveal_strlit("md");
    reveal_strlit("html");
    reveal_strlit("htm");
    reveal_strlit("css");
    reveal_strlit("csv");
    reveal_strlit("js");
    reveal_strlit("mp3");
    reveal_strlit("wav");
    reveal_strlit("mp4");
    reveal_strlit("webm");
    reveal_strlit("mov");
    assert("jpg"@.len() == 3 && "jpg"@[0] == 'j' && "jpg"@[1] == 'p' && "jpg"@[2] == 'g');
    assert("jpeg"@.len() == 4 && "jpeg"@[0] == 'j' && "jpeg"@[1] == 'p' && "jpeg"@[2] == 'e'
        && "jpeg"@[3] == 'g');
    assert("png"@.len() == 3 && "png"@[0] == 'p' && "png"@[1] == 'n' && "png"@[2] == 'g');
    assert("gif"@.len() == 3 && "gif"@[0] == 'g' && "gif"@[1] == 'i' && "gif"@[2] == 'f');
    assert("svg"@.len() == 3 && "svg"@[0] == 's' && "svg"@[1] == 'v' && "svg"@[2] == 'g');
    assert("webp"@.len() == 4 && "webp"@[0] == 'w' && "webp"@[1] == 'e' && "webp"@[2] == 'b'
        && "webp"@[3] == 'p');
    assert("bmp"@.len() == 3 && "bmp"@[0] == 'b' && "bmp"@[1] == 'm' && "bmp"@[2] == 'p');
    assert("ico"@.len() == 3 && "ico"@[0] == 'i' && "ico"@[1] == 'c' && "ico"@[2] == 'o');
    assert("pdf"@.len() == 3 && "pdf"@[0] == 'p' && "pdf"@[1] == 'd' && "pdf"@[2] == 'f');
    assert("json"@.len() == 4 && "json"@[0] == 'j' && "json"@[1] == 's' && "json"@[2] == 'o'
        && "json"@[3] == 'n');
    assert("xml"@.len() == 3 && "xml"@[0] == 'x' && "xml"@[1] == 'm' && "xml"@[2] == 'l');
    assert("zip"@.len() == 3 && "zip"@[0] == 'z' && "zip"@[1] == 'i' && "zip"@[2] == 'p');
    assert("gz"@.len() == 2 && "gz"@[0] == 'g' && "gz"@[1] == 'z');
    assert("gzip"@.len() == 4 && "gzip"@[0] == 'g' && "gzip"@[1] == 'z' && "gzip"@[2] == 'i'
        && "gzip"@[3] == 'p');
    assert("tar"@.len() == 3 && "tar"@[0] == 't' && "tar"@[1] == 'a' && "tar"@[2] == 'r');
    assert("txt"@.len() == 3 && "txt"@[0] == 't' && "txt"@[1] == 'x' && "txt"@[2] == 't');
    assert("md"@.len() == 2 && "md"@[0] == 'm' && "md"@[1] == 'd');
    assert("html"@.len() == 4 && "html"@[0] == 'h' && "html"@[1] == 't' && "html"@[2] == 'm'
        && "html"@[3] == 'l');
    assert("htm"@.len() == 3 && "htm"@[0] == 'h' && "htm"@[1] == 't' && "htm"@[2] == 'm');
    assert("css"@.len() == 3 && "css"@[0] == 'c' && "css"@[1] == 's' && "css"@[2] == 's');
    assert("csv"@.len() == 3 && "csv"@[0] == 'c' && "csv"@[1] == 's' && "csv"@[2] == 'v');
    assert("js"@.len() == 2 && "js"@[0] == 'j' && "js"@[1] == 's');
    assert("mp3"@.len() == 3 && "mp3"@[0] == 'm' && "mp3"@[1] == 'p' && "mp3"@[2] == '3');
    assert("wav"@.len() == 3 && "wav"@[0] == 'w' && "wav"@[1] == 'a' && "wav"@[2] == 'v');
    assert("mp4"@.len() == 3 && "mp4"@[0] == 'm' && "mp4"@[1] == 'p' && "mp4"@[2] == '4');
    assert("webm"@.len() == 4 && "webm"@[0] == 'w' && "webm"@[1] == 'e' && "webm"@[2] == 'b'
        && "webm"@[3] == 'm');
    assert("mov"@.len() == 3 && "mov"@[0] == 'm' && "mov"@[1] == 'o' && "mov"@[2] == 'v');
}

} // verus!
