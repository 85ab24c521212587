//! Files attached to notes. They are kept under `reference/{id}/` and listed in
//! the front matter's `attachments`.
use crate::error::{ErrorView, ZettelError};
use crate::front_laws::{is_plain_meta, law_new_front_read};
use crate::parse_laws::is_settled;
use crate::parser::{
    self, is_reading, is_writing, parsed_zettel, with_path_id,
};
use crate::schema::Fields;
use crate::text;
use crate::textmap::{self, lookup, put, without, TextMap};
use crate::types::{
    attachments_view, copy_values, fields_view, lemma_fields_lookup, lemma_fields_put,
    lemma_fields_without, lemma_pairs_view, lemma_values_view, values_view, AttachmentInfo,
    AttachmentView, MetaView, ParsedZettel, Value, ValueView, ZettelId, ZettelView,
};
use crate::yaml::{is_whole_real, real_from_u64, real_of};
use vstd::prelude::*;

verus! {

broadcast use vstd::string::group_string_axioms;

pub type Items = Seq<ValueView>;

/// Whether a file name stays within its directory.
pub open spec fn valid_filename(s: Seq<char>) -> bool {
    s.len() > 0 && !text::has_part(s, ".."@) && !s.contains('/') && !s.contains('\\')
}

/// Refuses file names that would lead out of the directory of attachments.
pub fn validate_attachment_filename(filename: &str) -> (r: Result<(), ZettelError>)
    ensures
        match r {
            Ok(_) => valid_filename(filename@),
            Err(e) => !valid_filename(filename@) && e@ == ErrorView::Validation(
                "invalid attachment filename: '"@ + filename@ + "'"@,
            ),
        },
{
    if filename.is_empty() || text::contains_part(filename, "..") || text::contains_char(
        filename,
        '/',
    ) || text::contains_char(filename, '\\') {
        return Err(
            ZettelError::Validation(text::cat3("invalid attachment filename: '", filename, "'")),
        );
    }
    Ok(())
}

/// Whether a text is an identifier: fourteen digits.
pub open spec fn valid_id(s: Seq<char>) -> bool {
    s.len() == 14 && text::all_digits(s)
}

/// Refuses identifiers that are not fourteen digits.
pub fn validate_zettel_id_format(id: &ZettelId) -> (r: Result<(), ZettelError>)
    ensures
        match r {
            Ok(_) => valid_id(id.0@),
            Err(e) => !valid_id(id.0@) && e@ == ErrorView::Validation(
                "invalid zettel ID format: '"@ + id.0@ + "' (expected 14 digits)"@,
            ),
        },
{
    let cs = text::chars(id.0.as_str());
    if cs.len() != 14 || !text::only_digits(id.0.as_str()) {
        return Err(
            ZettelError::Validation(
                text::cat3("invalid zettel ID format: '", id.0.as_str(), "' (expected 14 digits)"),
            ),
        );
    }
    Ok(())
}

pub open spec fn path_of(id: Seq<char>, filename: Seq<char>) -> Seq<char> {
    "reference/"@ + id + "/"@ + filename
}

/// The path of an attached file.
pub fn attachment_path(zettel_id: &ZettelId, filename: &str) -> (r: String)
    ensures
        r@ == path_of(zettel_id.0@, filename@),
{
    let mut p = text::cat3("reference/", zettel_id.0.as_str(), "/");
    p.append(filename);
    p
}

pub open spec fn note_path(id: Seq<char>) -> Seq<char> {
    "zettelkasten/"@ + id + ".md"@
}

/// The path of the note with an identifier.
pub fn zettel_path(id: &ZettelId) -> (r: String)
    ensures
        r@ == note_path(id.0@),
{
    text::cat3("zettelkasten/", id.0.as_str(), ".md")
}

// ---------------------------------------------------------------------------
// The list in the front matter
// ---------------------------------------------------------------------------
/// The name that an item of the list gives, if it is a mapping that has one.
pub open spec fn item_name(v: ValueView) -> Option<Seq<char>> {
    match v {
        ValueView::Mapping(m) => match lookup(m, "name"@) {
            Some(ValueView::Text(s)) => Some(s),
            _ => None,
        },
        _ => None,
    }
}

/// The attachment that an item stands for, if it has a name.
pub open spec fn item_info(v: ValueView, id: Seq<char>) -> Option<AttachmentView> {
    match item_name(v) {
        Some(name) => Some(
            AttachmentView {
                name,
                mime: match lookup(v->Mapping_0, "mime"@) {
                    Some(ValueView::Text(s)) => s,
                    _ => "application/octet-stream"@,
                },
                size: match lookup(v->Mapping_0, "size"@) {
                    Some(ValueView::Number(n)) => n.as_u64,
                    _ => 0,
                },
                path: path_of(id, name),
            },
        ),
        None => None,
    }
}

/// The attachments that items stand for.
pub open spec fn infos(items: Items, id: Seq<char>) -> Seq<AttachmentView>
    decreases items.len(),
{
    if items.len() == 0 {
        Seq::empty()
    } else {
        match item_info(items.last(), id) {
            Some(a) => infos(items.drop_last(), id).push(a),
            None => infos(items.drop_last(), id),
        }
    }
}

/// The items of the list of attachments; none where there is no list.
pub open spec fn items_of(extra: Fields) -> Items {
    match lookup(extra, "attachments"@) {
        Some(ValueView::List(l)) => l,
        _ => Seq::empty(),
    }
}

fn read_name(v: &Value) -> (r: Option<&str>)
    ensures
        match r {
            Some(s) => item_name(v@) == Some(s@),
            None => item_name(v@) is None,
        },
{
    if let Some(m) = v.as_mapping() {
        proof {
            lemma_fields_lookup(*m, "name"@);
        }
        if let Some(n) = m.get("name") {
            return n.as_str();
        }
    }
    None
}

fn read_item(v: &Value, zettel_id: &ZettelId) -> (r: Option<AttachmentInfo>)
    ensures
        match r {
            Some(a) => item_info(v@, zettel_id.0@) == Some(a@),
            None => item_info(v@, zettel_id.0@) is None,
        },
{
    let name = match read_name(v) {
        Some(s) => text::copy(s),
        None => {
            return None;
        },
    };
    let m = match v.as_mapping() {
        Some(m) => m,
        None => {
            return None;
        },
    };
    proof {
        lemma_fields_lookup(*m, "mime"@);
        lemma_fields_lookup(*m, "size"@);
    }
    let mime = match m.get("mime") {
        Some(x) => match x.as_str() {
            Some(s) => text::copy(s),
            None => text::copy("application/octet-stream"),
        },
        None => text::copy("application/octet-stream"),
    };
    let size: u64 = match m.get("size") {
        Some(x) => match x.as_number() {
            Some(n) => n.as_u64,
            None => 0,
        },
        None => 0,
    };
    let path = attachment_path(zettel_id, name.as_str());
    Some(AttachmentInfo { name, mime, size, path })
}

/// The attachments that a note's front matter lists.
pub fn parse_attachments(extra: &TextMap<Value>, zettel_id: &ZettelId) -> (r: Vec<AttachmentInfo>)
    ensures
        attachments_view(r@) == infos(items_of(fields_view(*extra)), zettel_id.0@),
{
    let ghost idv = zettel_id.0@;
    let mut out: Vec<AttachmentInfo> = Vec::new();
    proof {
        lemma_fields_lookup(*extra, "attachments"@);
        assert(attachments_view(out@) =~= Seq::<AttachmentView>::empty());
    }
    let list = match extra.get("attachments") {
        Some(v) => match v.as_sequence() {
            Some(l) => l,
            None => {
                return out;
            },
        },
        None => {
            return out;
        },
    };
    let ghost items = values_view(list@);
    let mut i: usize = 0;
    proof {
        lemma_values_view(list@);
        assert(items.take(0) =~= Seq::<ValueView>::empty());
    }
    while i < list.len()
        invariant
            i <= list@.len() == items.len(),
            items == values_view(list@),
            attachments_view(out@) == infos(items.take(i as int), idv),
        decreases list@.len() - i,
    {
        proof {
            let t = items.take(i + 1);
            assert(t.drop_last() =~= items.take(i as int));
            assert(t.last() == list@[i as int]@);
        }
        if let Some(a) = read_item(&list[i], zettel_id) {
            let ghost before = out@;
            out.push(a);
            proof {
                assert(attachments_view(out@) =~= attachments_view(before).push(a@));
            }
        }
        i = i + 1;
    }
    proof {
        assert(items.take(i as int) =~= items);
    }
    out
}

/// The item of the list for an attachment.
pub open spec fn entry_of(a: AttachmentView) -> ValueView {
    ValueView::Mapping(
        put(
            put(
                put(Seq::<(Seq<char>, ValueView)>::empty(), "name"@, ValueView::Text(a.name)),
                "mime"@,
                ValueView::Text(a.mime),
            ),
            "size"@,
            ValueView::Number(real_of(a.size as int)),
        ),
    )
}

/// The size up to which a number in the front matter keeps every byte count.
pub const LARGEST_EXACT: u64 = 0x20_0000_0000_0000;

pub fn attachment_to_value(info: &AttachmentInfo) -> (r: Value)
    ensures
        r@ == entry_of(info@),
        info.size <= LARGEST_EXACT ==> real_of(info.size as int).as_u64 == info.size
            && is_whole_real(real_of(info.size as int)),
{
    let mut m: TextMap<Value> = TextMap::new();
    proof {
        lemma_pairs_view(m.entries@);
        assert(m.entries@.len() == m@.len());
        assert(fields_view(m) =~= Seq::<(Seq<char>, ValueView)>::empty());
    }
    let name = Value::String(text::copy(info.name.as_str()));
    let ghost m0 = m;
    m.insert(text::copy("name"), name);
    proof {
        lemma_fields_put(m0, m, "name"@, name);
    }
    let mime = Value::String(text::copy(info.mime.as_str()));
    let ghost m1 = m;
    m.insert(text::copy("mime"), mime);
    proof {
        lemma_fields_put(m1, m, "mime"@, mime);
    }
    let size = Value::Number(real_from_u64(info.size));
    let ghost m2 = m;
    m.insert(text::copy("size"), size);
    proof {
        lemma_fields_put(m2, m, "size"@, size);
    }
    Value::Mapping(m)
}

/// The place of the first item with a name, or the end.
pub open spec fn place_of(items: Items, name: Seq<char>) -> int
    decreases items.len(),
{
    if items.len() == 0 || item_name(items[0]) == Some(name) {
        0
    } else {
        1 + place_of(items.drop_first(), name)
    }
}

proof fn lemma_place_of(items: Items, name: Seq<char>)
    ensures
        0 <= place_of(items, name) <= items.len(),
        forall|i: int|
            0 <= i < place_of(items, name) ==> item_name(#[trigger] items[i]) != Some(name),
        place_of(items, name) < items.len() ==> item_name(items[place_of(items, name)]) == Some(
            name,
        ),
    decreases items.len(),
{
    if items.len() > 0 && item_name(items[0]) != Some(name) {
        let d = items.drop_first();
        lemma_place_of(d, name);
        let p = place_of(d, name);
        assert forall|i: int| 0 <= i < p + 1 implies item_name(#[trigger] items[i]) != Some(
            name,
        ) by {
            if i > 0 {
                assert(d[i - 1] == items[i]);
            }
        }
        if p < d.len() {
            assert(d[p] == items[p + 1]);
        }
    }
}

proof fn lemma_place_is(items: Items, name: Seq<char>, p: int)
    requires
        0 <= p <= items.len(),
        forall|i: int| 0 <= i < p ==> item_name(#[trigger] items[i]) != Some(name),
        p < items.len() ==> item_name(items[p]) == Some(name),
    ensures
        place_of(items, name) == p,
{
    lemma_place_of(items, name);
    let q = place_of(items, name);
    if q < p {
        assert(item_name(items[q]) != Some(name));
    }
    if p < q {
        assert(item_name(items[p]) != Some(name));
    }
}

/// The list with an attachment: in place of the first of that name, or at the
/// end.
pub open spec fn with_item(items: Items, name: Seq<char>, entry: ValueView) -> Items {
    let p = place_of(items, name);
    if p < items.len() {
        items.update(p, entry)
    } else {
        items.push(entry)
    }
}

/// The items that do not have a name.
pub open spec fn without_items(items: Items, name: Seq<char>) -> Items
    decreases items.len(),
{
    if items.len() == 0 {
        Seq::empty()
    } else if item_name(items.last()) == Some(name) {
        without_items(items.drop_last(), name)
    } else {
        without_items(items.drop_last(), name).push(items.last())
    }
}

/// The front matter with an attachment in its list.
pub open spec fn with_attachment(extra: Fields, a: AttachmentView) -> Fields {
    put(
        extra,
        "attachments"@,
        ValueView::List(with_item(items_of(extra), a.name, entry_of(a))),
    )
}

/// The front matter without the attachments of a name, or nothing where there
/// are none. An empty list is left out.
pub open spec fn without_attachment(extra: Fields, name: Seq<char>) -> Option<Fields> {
    let items = items_of(extra);
    let rest = without_items(items, name);
    if rest.len() == items.len() {
        None
    } else if rest.len() == 0 {
        Some(without(extra, "attachments"@))
    } else {
        Some(put(extra, "attachments"@, ValueView::List(rest)))
    }
}

fn list_of(extra: &TextMap<Value>) -> (r: Vec<Value>)
    ensures
        values_view(r@) == items_of(fields_view(*extra)),
{
    proof {
        lemma_fields_lookup(*extra, "attachments"@);
    }
    if let Some(v) = extra.get("attachments") {
        if let Some(l) = v.as_sequence() {
            return copy_values(l);
        }
    }
    let r: Vec<Value> = Vec::new();
    proof {
        lemma_values_view(r@);
        assert(values_view(r@) =~= Seq::<ValueView>::empty());
    }
    r
}

fn seek_item(list: &Vec<Value>, name: &str) -> (p: usize)
    ensures
        p == place_of(values_view(list@), name@),
        p <= list@.len(),
{
    let ghost items = values_view(list@);
    proof {
        lemma_values_view(list@);
    }
    let mut i: usize = 0;
    while i < list.len()
        invariant
            i <= list@.len() == items.len(),
            items == values_view(list@),
            forall|k: int| 0 <= k < i ==> item_name(#[trigger] items[k]) != Some(name@),
        decreases list@.len() - i,
    {
        proof {
            assert(items[i as int] == list@[i as int]@);
        }
        if let Some(s) = read_name(&list[i]) {
            if text::same(s, name) {
                proof {
                    lemma_place_is(items, name@, i as int);
                }
                return i;
            }
        }
        i = i + 1;
    }
    proof {
        lemma_place_is(items, name@, i as int);
    }
    i
}

/// Puts an attachment into the list of a note's front matter.
pub fn add_attachment(extra: &mut TextMap<Value>, info: &AttachmentInfo)
    ensures
        fields_view(*final(extra)) == with_attachment(fields_view(*old(extra)), info@),
        old(extra).sorted() ==> final(extra).sorted(),
        info.size <= LARGEST_EXACT ==> real_of(info.size as int).as_u64 == info.size
            && is_whole_real(real_of(info.size as int)),
{
    let mut list = list_of(extra);
    let ghost before = list@;
    let entry = attachment_to_value(info);
    let ghost ev = entry@;
    let p = seek_item(&list, info.name.as_str());
    proof {
        lemma_values_view(before);
    }
    if p < list.len() {
        let _ = list.remove(p);
        list.insert(p, entry);
    } else {
        list.push(entry);
    }
    proof {
        lemma_values_view(list@);
        assert(values_view(list@) =~= with_item(values_view(before), info@.name, ev));
    }
    let value = Value::List(list);
    let ghost e0 = *extra;
    extra.insert(text::copy("attachments"), value);
    proof {
        lemma_fields_put(e0, *extra, "attachments"@, value);
    }
}

/// Takes the attachments of a name out of the list of a note's front matter.
/// Says whether there were any; where there were none nothing changes.
pub fn remove_attachment(extra: &mut TextMap<Value>, name: &str) -> (removed: bool)
    ensures
        removed == (without_attachment(fields_view(*old(extra)), name@) is Some),
        removed ==> Some(fields_view(*final(extra))) == without_attachment(
            fields_view(*old(extra)),
            name@,
        ),
        !removed ==> *final(extra) == *old(extra),
        old(extra).sorted() ==> final(extra).sorted(),
{
    let list = list_of(extra);
    let ghost items = values_view(list@);
    let mut rest: Vec<Value> = Vec::new();
    let mut i: usize = 0;
    proof {
        lemma_values_view(list@);
        lemma_values_view(rest@);
        assert(items.take(0) =~= Seq::<ValueView>::empty());
        assert(values_view(rest@) =~= Seq::<ValueView>::empty());
    }
    while i < list.len()
        invariant
            i <= list@.len() == items.len(),
            items == values_view(list@),
            values_view(rest@) == without_items(items.take(i as int), name@),
            rest@.len() <= i,
        decreases list@.len() - i,
    {
        proof {
            let t = items.take(i + 1);
            assert(t.drop_last() =~= items.take(i as int));
            assert(t.last() == list@[i as int]@);
        }
        let same = match read_name(&list[i]) {
            Some(s) => text::same(s, name),
            None => false,
        };
        if !same {
            let v = list[i].copy();
            let ghost r0 = rest@;
            rest.push(v);
            proof {
                lemma_values_view(r0);
                lemma_values_view(rest@);
                assert(values_view(rest@) =~= values_view(r0).push(v@));
            }
        }
        i = i + 1;
    }
    proof {
        assert(items.take(i as int) =~= items);
        lemma_values_view(rest@);
    }
    if rest.len() == list.len() {
        return false;
    }
    let ghost e0 = *extra;
    if rest.len() == 0 {
        let _ = extra.remove("attachments");
        proof {
            lemma_fields_without(e0, *extra, "attachments"@);
        }
    } else {
        let value = Value::List(rest);
        extra.insert(text::copy("attachments"), value);
        proof {
            lemma_fields_put(e0, *extra, "attachments"@, value);
        }
    }
    true
}

// ---------------------------------------------------------------------------
// Operations on a note's text
// ---------------------------------------------------------------------------
/// The attachments of a note, from its text.
pub fn list_attachments(id: &ZettelId, content: &str) -> (r: Result<
    Vec<AttachmentInfo>,
    ZettelError,
>)
    ensures
        if !valid_id(id.0@) {
            r matches Err(e) && e@ == ErrorView::Validation(
                "invalid zettel ID format: '"@ + id.0@ + "' (expected 14 digits)"@,
            )
        } else {
            match parsed_zettel(content@, note_path(id.0@)) {
                Err(x) => r matches Err(e) && e@ == x,
                Ok(z) => r matches Ok(l) && attachments_view(l@) == infos(
                    items_of(z.meta.extra),
                    id.0@,
                ),
            }
        },
{
    match validate_zettel_id_format(id) {
        Ok(_) => {},
        Err(e) => {
            return Err(e);
        },
    }
    let path = zettel_path(id);
    match parser::parse(content, path.as_str()) {
        Ok(z) => Ok(parse_attachments(&z.meta.extra, id)),
        Err(e) => Err(e),
    }
}

/// Refuses what cannot be attached or detached: an identifier that is none, or
/// a file name that leads elsewhere.
pub open spec fn refused(id: Seq<char>, filename: Seq<char>) -> Option<ErrorView> {
    if !valid_id(id) {
        Some(
            ErrorView::Validation(
                "invalid zettel ID format: '"@ + id + "' (expected 14 digits)"@,
            ),
        )
    } else if !valid_filename(filename) {
        Some(ErrorView::Validation("invalid attachment filename: '"@ + filename + "'"@))
    } else {
        None
    }
}

pub fn check_attachment(id: &ZettelId, filename: &str) -> (r: Result<(), ZettelError>)
    ensures
        match refused(id.0@, filename@) {
            Some(x) => r matches Err(e) && e@ == x,
            None => r is Ok,
        },
{
    match validate_zettel_id_format(id) {
        Ok(_) => validate_attachment_filename(filename),
        Err(e) => Err(e),
    }
}

pub open spec fn with_extra(z: ZettelView, extra: Fields) -> ZettelView {
    ZettelView { meta: MetaView { extra, ..z.meta }, ..z }
}

/// A note after a file was attached.
#[derive(Debug)]
pub struct Attached {
    pub info: AttachmentInfo,
    pub zettel: ParsedZettel,
    pub content: String,
}

/// Attaches a file of a size to a note: its front matter then lists the file.
pub fn attach_file(id: &ZettelId, content: &str, filename: &str, size: u64, mime: &str) -> (r:
    Result<Attached, ZettelError>)
    ensures
        match refused(id.0@, filename@) {
            Some(x) => r matches Err(e) && e@ == x,
            None => match parsed_zettel(content@, note_path(id.0@)) {
                Err(x) => r matches Err(e) && e@ == x,
                Ok(z) => {
                    let a = AttachmentView {
                        name: filename@,
                        mime: mime@,
                        size,
                        path: path_of(id.0@, filename@),
                    };
                    let after = with_extra(z, with_attachment(z.meta.extra, a));
                    r matches Ok(x) && x.info@ == a && x.zettel@ == after && is_writing(
                        after,
                        x.content@,
                    ) && x.zettel.meta.extra.sorted() && (size <= LARGEST_EXACT ==> infos(
                        items_of(after.meta.extra),
                        id.0@,
                    ).contains(a) && is_whole_real(real_of(size as int)))
                },
            },
        },
{
    match check_attachment(id, filename) {
        Ok(_) => {},
        Err(e) => {
            return Err(e);
        },
    }
    let path = zettel_path(id);
    let mut zettel = match parser::parse(content, path.as_str()) {
        Ok(z) => z,
        Err(e) => {
            return Err(e);
        },
    };
    let info = AttachmentInfo {
        name: text::copy(filename),
        mime: text::copy(mime),
        size,
        path: attachment_path(id, filename),
    };
    let ghost before = zettel@;
    add_attachment(&mut zettel.meta.extra, &info);
    proof {
        if size <= LARGEST_EXACT {
            law_attached_is_listed(before.meta.extra, info@, id.0@);
        }
        assert(zettel@ == with_extra(before, with_attachment(before.meta.extra, info@)));
    }
    let content = parser::serialize(&zettel);
    Ok(Attached { info, zettel, content })
}

/// A note after a file was detached, and the path of the file.
#[derive(Debug)]
pub struct Detached {
    pub path: String,
    pub zettel: ParsedZettel,
    pub content: String,
}

/// Detaches a file from a note: its front matter then does not list the file.
pub fn detach_file(id: &ZettelId, content: &str, filename: &str) -> (r: Result<
    Detached,
    ZettelError,
>)
    ensures
        match refused(id.0@, filename@) {
            Some(x) => r matches Err(e) && e@ == x,
            None => match parsed_zettel(content@, note_path(id.0@)) {
                Err(x) => r matches Err(e) && e@ == x,
                Ok(z) => match without_attachment(z.meta.extra, filename@) {
                    None => r matches Err(e) && e@ == ErrorView::NotFound(
                        "attachment '"@ + filename@ + "' not found on zettel "@ + id.0@,
                    ),
                    Some(extra) => {
                        let after = with_extra(z, extra);
                        r matches Ok(x) && x.path@ == path_of(id.0@, filename@) && x.zettel@
                            == after && is_writing(after, x.content@) && x.zettel.meta.extra.sorted()
                    },
                },
            },
        },
{
    match check_attachment(id, filename) {
        Ok(_) => {},
        Err(e) => {
            return Err(e);
        },
    }
    let note = zettel_path(id);
    let mut zettel = match parser::parse(content, note.as_str()) {
        Ok(z) => z,
        Err(e) => {
            return Err(e);
        },
    };
    let ghost before = zettel@;
    if !remove_attachment(&mut zettel.meta.extra, filename) {
        let mut m = text::cat3("attachment '", filename, "' not found on zettel ");
        m.append(id.0.as_str());
        return Err(ZettelError::NotFound(m));
    }
    let content = parser::serialize(&zettel);
    Ok(Detached { path: attachment_path(id, filename), zettel, content })
}

// ---------------------------------------------------------------------------
// Laws
// ---------------------------------------------------------------------------
proof fn lemma_entry(a: AttachmentView, id: Seq<char>)
    ensures
        item_name(entry_of(a)) == Some(a.name),
        item_info(entry_of(a), id) == Some(
            AttachmentView {
                size: real_of(a.size as int).as_u64,
                path: path_of(id, a.name),
                ..a
            },
        ),
{
    let e = Seq::<(Seq<char>, ValueView)>::empty();
    textmap::lemma_empty::<ValueView>();
    reveal_strlit("name");
    reveal_strlit("mime");
    reveal_strlit("size");
    assert("name"@ != "mime"@) by {
        assert("name"@[0] != "mime"@[0]);
    }
    assert("name"@ != "size"@) by {
        assert("name"@[0] != "size"@[0]);
    }
    assert("mime"@ != "size"@) by {
        assert("mime"@[0] != "size"@[0]);
    }
    let m1 = put(e, "name"@, ValueView::Text(a.name));
    let m2 = put(m1, "mime"@, ValueView::Text(a.mime));
    textmap::law_put_sorted(e, "name"@, ValueView::Text(a.name));
    textmap::lemma_lookup_put(e, "name"@, ValueView::Text(a.name));
    textmap::law_put_sorted(m1, "mime"@, ValueView::Text(a.mime));
    textmap::lemma_lookup_put(m1, "mime"@, ValueView::Text(a.mime));
    textmap::lemma_lookup_put(m2, "size"@, ValueView::Number(real_of(a.size as int)));
}

proof fn lemma_infos_contains(items: Items, id: Seq<char>, i: int)
    requires
        0 <= i < items.len(),
        item_info(items[i], id) is Some,
    ensures
        infos(items, id).contains(item_info(items[i], id)->0),
    decreases items.len(),
{
    let a = item_info(items[i], id)->0;
    let r = infos(items, id);
    if i == items.len() - 1 {
        assert(r[r.len() - 1] == a);
    } else {
        let d = items.drop_last();
        assert(d[i] == items[i]);
        lemma_infos_contains(d, id, i);
        let k = infos(d, id).index_of(a);
        assert(r[k] == a);
    }
}

/// A file that was attached is listed, with its media type, and with its size
/// as the front matter's number says it.
pub proof fn law_attached_is_listed(extra: Fields, a: AttachmentView, id: Seq<char>)
    requires
        a.path == path_of(id, a.name),
    ensures
        infos(items_of(with_attachment(extra, a)), id).contains(
            (AttachmentView { size: real_of(a.size as int).as_u64, ..a }),
        ),
{
    let items = items_of(extra);
    let after = with_item(items, a.name, entry_of(a));
    textmap::law_lookup_put(extra, "attachments"@, ValueView::List(after));
    lemma_entry(a, id);
    lemma_place_of(items, a.name);
    let p = place_of(items, a.name);
    assert(after[p] == entry_of(a));
    lemma_infos_contains(after, id, p);
}

/// A file that was attached to a note is listed in the text that is written of it:
/// where the front matter then holds plain values, reading the text gives a note
/// that lists the file.
pub proof fn law_attached_is_read_back(
    content: Seq<char>,
    id: Seq<char>,
    p: ParsedZettel,
    a: AttachmentView,
    z: ParsedZettel,
    s: Seq<char>,
    q: Result<ParsedZettel, ZettelError>,
)
    requires
        is_reading(content, note_path(id), Ok(p)),
        is_settled(content),
        a.path == path_of(id, a.name),
        z@ == with_extra(p@, with_attachment(p@.meta.extra, a)),
        is_plain_meta(z@.meta),
        is_writing(z@, s),
        is_reading(s, note_path(id), q),
    ensures
        q matches Ok(y) && y@.meta == z@.meta && y@.body == p@.body && infos(
            items_of(y@.meta.extra),
            id,
        ).contains((AttachmentView { size: real_of(a.size as int).as_u64, ..a })),
{
    assert(with_path_id(z@.meta, note_path(id)) == z@.meta);
    law_new_front_read(content, note_path(id), p, z, s, q);
    law_attached_is_listed(p@.meta.extra, a, id);
}

/// Attachments other than those of a name.
pub open spec fn others(l: Seq<AttachmentView>, name: Seq<char>) -> Seq<AttachmentView>
    decreases l.len(),
{
    if l.len() == 0 {
        Seq::empty()
    } else if l.last().name == name {
        others(l.drop_last(), name)
    } else {
        others(l.drop_last(), name).push(l.last())
    }
}

proof fn lemma_others_without(items: Items, name: Seq<char>, id: Seq<char>)
    ensures
        infos(without_items(items, name), id) == others(infos(items, id), name),
    decreases items.len(),
{
    if items.len() > 0 {
        let d = items.drop_last();
        lemma_others_without(d, name, id);
        let w = without_items(d, name);
        if item_name(items.last()) != Some(name) {
            assert(w.push(items.last()).drop_last() =~= w);
        }
        if item_info(items.last(), id) is Some {
            let a = item_info(items.last(), id)->0;
            assert(infos(d, id).push(a).drop_last() =~= infos(d, id));
        }
    }
}

proof fn lemma_others_push(l: Seq<AttachmentView>, a: AttachmentView)
    ensures
        others(l.push(a), a.name) == others(l, a.name),
{
    assert(l.push(a).drop_last() =~= l);
}

proof fn lemma_others_update(items: Items, p: int, e: ValueView, name: Seq<char>, id: Seq<char>)
    requires
        0 <= p < items.len(),
        item_name(items[p]) == Some(name),
        item_name(e) == Some(name),
    ensures
        others(infos(items.update(p, e), id), name) == others(infos(items, id), name),
    decreases items.len(),
{
    let d = items.drop_last();
    let u = items.update(p, e);
    if p == items.len() - 1 {
        assert(u.drop_last() =~= d);
        lemma_others_push(infos(d, id), item_info(e, id)->0);
        lemma_others_push(infos(d, id), item_info(items[p], id)->0);
    } else {
        assert(u.drop_last() =~= d.update(p, e));
        assert(u.last() == items.last());
        lemma_others_update(d, p, e, name, id);
        if item_info(items.last(), id) is Some {
            let a = item_info(items.last(), id)->0;
            assert(infos(d, id).push(a).drop_last() =~= infos(d, id));
            assert(infos(d.update(p, e), id).push(a).drop_last() =~= infos(d.update(p, e), id));
        }
    }
}

/// Attaching a file leaves the attachments of other names as they are.
pub proof fn law_attach_keeps_others(extra: Fields, a: AttachmentView, id: Seq<char>)
    ensures
        others(infos(items_of(with_attachment(extra, a)), id), a.name) == others(
            infos(items_of(extra), id),
            a.name,
        ),
{
    let items = items_of(extra);
    let e = entry_of(a);
    let after = with_item(items, a.name, e);
    textmap::law_lookup_put(extra, "attachments"@, ValueView::List(after));
    lemma_entry(a, id);
    lemma_place_of(items, a.name);
    let p = place_of(items, a.name);
    if p < items.len() {
        lemma_others_update(items, p, e, a.name, id);
    } else {
        assert(items.push(e).drop_last() =~= items);
        lemma_others_push(infos(items, id), item_info(e, id)->0);
    }
}

proof fn lemma_lookup_without(extra: Fields, key: Seq<char>)
    requires
        text::ascending(textmap::keys(extra)),
    ensures
        lookup(without(extra, key), key) is None,
{
    textmap::law_without_sorted(extra, key);
    textmap::lemma_lookup_none(without(extra, key), key);
    assert(textmap::keys(without(extra, key)).contains(key) == (textmap::keys(extra).contains(key)
        && key != key));
}

/// After a file was detached the list is that of the other files.
pub proof fn law_detach_keeps_others(extra: Fields, name: Seq<char>, id: Seq<char>)
    requires
        text::ascending(textmap::keys(extra)),
        without_attachment(extra, name) is Some,
    ensures
        infos(items_of(without_attachment(extra, name)->0), id) == others(
            infos(items_of(extra), id),
            name,
        ),
{
    let items = items_of(extra);
    let rest = without_items(items, name);
    lemma_others_without(items, name, id);
    textmap::law_lookup_put(extra, "attachments"@, ValueView::List(rest));
    lemma_lookup_without(extra, "attachments"@);
    if rest.len() == 0 {
        assert(rest =~= Seq::<ValueView>::empty());
    }
}

proof fn lemma_without_some(items: Items, name: Seq<char>, i: int)
    requires
        0 <= i < items.len(),
        item_name(items[i]) == Some(name),
    ensures
        without_items(items, name).len() < items.len(),
    decreases items.len(),
{
    let d = items.drop_last();
    lemma_without_len(d, name);
    if i < items.len() - 1 {
        assert(d[i] == items[i]);
        lemma_without_some(d, name, i);
    }
}

proof fn lemma_without_len(items: Items, name: Seq<char>)
    ensures
        without_items(items, name).len() <= items.len(),
    decreases items.len(),
{
    if items.len() > 0 {
        lemma_without_len(items.drop_last(), name);
    }
}

/// Detaching a file that was just attached succeeds, and the list is then that
/// of the other files.
pub proof fn law_attach_then_detach(extra: Fields, a: AttachmentView, id: Seq<char>)
    requires
        text::ascending(textmap::keys(extra)),
    ensures
        without_attachment(with_attachment(extra, a), a.name) is Some,
        infos(items_of(without_attachment(with_attachment(extra, a), a.name)->0), id) == others(
            infos(items_of(extra), id),
            a.name,
        ),
{
    let items = items_of(extra);
    let after = with_item(items, a.name, entry_of(a));
    let x = with_attachment(extra, a);
    textmap::law_lookup_put(extra, "attachments"@, ValueView::List(after));
    textmap::law_put_sorted(extra, "attachments"@, ValueView::List(after));
    lemma_entry(a, id);
    lemma_place_of(items, a.name);
    lemma_without_some(after, a.name, place_of(items, a.name));
    law_attach_keeps_others(extra, a, id);
    law_detach_keeps_others(x, a.name, id);
}

} // verus!
