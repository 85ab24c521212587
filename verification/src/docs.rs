//! Documents that merge: what the `automerge` crate keeps in a document, and
//! what merging two copies of one leaves, and the differences between two
//! texts that the `similar` crate finds.
//!
//! A document here holds one object: a map of texts, a list of texts, or a
//! text. Each thing that was ever put into it has an identity of its own. Two
//! copies that were changed apart and are merged keep what neither removed.
use crate::error::ZettelError;
use automerge::transaction::Transactable;
use automerge::{AutoCommit, AutomergeError, ObjId, ReadDoc};
use vstd::prelude::*;

verus! {

/// A document of `automerge`.
#[verifier::external_type_specification]
#[verifier::external_body]
pub struct ExAutoCommit(automerge::AutoCommit);

/// The identity of an object in a document.
#[verifier::external_type_specification]
#[verifier::external_body]
pub struct ExObjId(automerge::ObjId);

/// An error of `automerge`.
#[verifier::external_type_specification]
#[verifier::external_body]
pub struct ExAutomergeError(automerge::AutomergeError);

/// The characters of the document's text, each with its identity.
pub uninterp spec fn text_chars(doc: AutoCommit) -> Seq<(int, char)>;

/// The items of the document's list, each with its identity.
pub uninterp spec fn list_items(doc: AutoCommit) -> Seq<(int, Seq<char>)>;

/// The entries of the document's map that nothing has replaced: identity, key
/// and value. A key has more than one where copies were changed apart.
pub uninterp spec fn map_entries(doc: AutoCommit) -> Set<(int, Seq<char>, Seq<char>)>;

/// The identities of all that was ever put into the object of the document.
pub uninterp spec fn known(doc: AutoCommit) -> Set<int>;

/// The identity of the object that the document was made with.
pub uninterp spec fn origin(doc: AutoCommit) -> int;

/// The changes that a document has gone through, those not yet closed too.
pub uninterp spec fn changes_in(doc: AutoCommit) -> Set<int>;

/// Whether no change waits in the document for another that it lacks. A document
/// that was loaded may hold such changes; they do not count as gone through.
pub uninterp spec fn nothing_waits(doc: AutoCommit) -> bool;

/// The changes of the document that bytes hold, if they hold one.
pub uninterp spec fn saved_changes(bytes: Seq<u8>) -> Option<Set<int>>;

/// The key and the kind of the one object that a document was made with; none
/// where it holds nothing.
pub uninterp spec fn root(doc: AutoCommit) -> Option<(Seq<char>, Kind)>;

/// Whether a document with some changes takes those of another: `automerge`
/// refuses changes of one author that bear one number.
pub uninterp spec fn mergeable(doc: Set<int>, other: Set<int>) -> bool;

/// The author as whom a document makes its changes.
pub uninterp spec fn author(doc: AutoCommit) -> int;

/// The author who put the thing of an identity: an identity names its author.
pub uninterp spec fn author_of(identity: int) -> int;

/// The author of a change.
pub uninterp spec fn change_author(change: int) -> int;

/// The author of a name.
pub uninterp spec fn author_named(name: Seq<u8>) -> int;

/// The object that an identifier stands for.
pub uninterp spec fn object(id: ObjId) -> int;

/// The kinds of objects.
#[derive(Debug, Clone, Copy, PartialEq, Eq, Structural)]
pub enum Kind {
    Entries,
    Items,
    Characters,
}

/// Whether each identity occurs once.
pub open spec fn distinct<T>(s: Seq<(int, T)>) -> bool {
    forall|i: int, j: int| 0 <= i < j < s.len() ==> (#[trigger] s[i]).0 != (#[trigger] s[j]).0
}

/// Whether `t` is `s` with `del` members at `pos` replaced by new ones, which
/// hold `ins`.
pub open spec fn is_splice<T>(
    s: Seq<(int, T)>,
    ks: Set<int>,
    t: Seq<(int, T)>,
    kt: Set<int>,
    pos: int,
    del: int,
    ins: Seq<T>,
) -> bool {
    &&& t.len() == s.len() - del + ins.len()
    &&& t.take(pos) == s.take(pos)
    &&& t.skip(pos + ins.len()) == s.skip(pos + del)
    &&& forall|i: int|
        pos <= i < pos + ins.len() ==> (#[trigger] t[i]).1 == ins[i - pos] && !ks.contains(t[i].0)
    &&& forall|i: int, j: int|
        pos <= i < j < pos + ins.len() ==> (#[trigger] t[i]).0 != (#[trigger] t[j]).0
    &&& forall|k: int|
        #![trigger kt.contains(k)]
        kt.contains(k) == (ks.contains(k) || exists|i: int|
            pos <= i < pos + ins.len() && (#[trigger] t[i]).0 == k)
}

/// Whether members of `s` that are in `m` stand there in the same order.
pub open spec fn keeps_order<T>(s: Seq<(int, T)>, m: Seq<(int, T)>) -> bool {
    forall|i: int, j: int, a: int, b: int|
        #![trigger s[i], s[j], m[a], m[b]]
        0 <= i < j < s.len() && 0 <= a < m.len() && 0 <= b < m.len() && m[a] == s[i] && m[b]
            == s[j] ==> a < b
}

/// Whether `m` merges the sequences `s` and `o`, of copies that know of `ks`
/// and `ko`: it has what both have, and what one has and the other does not
/// know of, in the order of each.
pub open spec fn is_merge<T>(
    s: Seq<(int, T)>,
    ks: Set<int>,
    o: Seq<(int, T)>,
    ko: Set<int>,
    m: Seq<(int, T)>,
) -> bool {
    &&& distinct(m)
    &&& forall|e: (int, T)|
        #![trigger m.contains(e)]
        m.contains(e) == ((s.contains(e) && (o.contains(e) || !ko.contains(e.0))) || (o.contains(e)
            && !ks.contains(e.0)))
    &&& keeps_order(s, m)
    &&& keeps_order(o, m)
    &&& forall|e: (int, T), f: (int, T)|
        #![trigger s.contains(e), o.contains(f)]
        s.contains(e) && o.contains(f) && e.0 == f.0 ==> e == f
}

/// The same of the entries of a map.
pub open spec fn is_map_merge(
    s: Set<(int, Seq<char>, Seq<char>)>,
    ks: Set<int>,
    o: Set<(int, Seq<char>, Seq<char>)>,
    ko: Set<int>,
    m: Set<(int, Seq<char>, Seq<char>)>,
) -> bool {
    &&& forall|e: (int, Seq<char>, Seq<char>)|
        #![trigger m.contains(e)]
        m.contains(e) == ((s.contains(e) && (o.contains(e) || !ko.contains(e.0))) || (o.contains(e)
            && !ks.contains(e.0)))
    &&& forall|e: (int, Seq<char>, Seq<char>), f: (int, Seq<char>, Seq<char>)|
        #![trigger s.contains(e), o.contains(f)]
        s.contains(e) && o.contains(f) && e.0 == f.0 ==> e == f
}

/// Whether two documents hold the same.
pub open spec fn same_contents(a: AutoCommit, b: AutoCommit) -> bool {
    &&& text_chars(a) == text_chars(b)
    &&& list_items(a) == list_items(b)
    &&& map_entries(a) == map_entries(b)
    &&& known(a) == known(b)
    &&& origin(a) == origin(b)
    &&& root(a) == root(b)
    &&& changes_in(a) == changes_in(b)
    &&& nothing_waits(a) == nothing_waits(b)
}

/// Whether an identifier is that of the one object of a document, of a kind.
pub open spec fn is_at(id: ObjId, doc: AutoCommit, kind: Kind) -> bool {
    &&& object(id) == origin(doc)
    &&& is_made(doc, kind)
}

/// Whether a document was made here with one object of a kind.
pub open spec fn is_made(doc: AutoCommit, kind: Kind) -> bool {
    &&& root(doc) matches Some(r) && r.1 == kind
    &&& nothing_waits(doc)
}

/// Whether a document is one that was made before, with more changes or none:
/// what is new in it is by its author.
pub open spec fn goes_on(before: AutoCommit, after: AutoCommit) -> bool {
    &&& author(after) == author(before)
    &&& forall|n: int|
        #![trigger known(after).contains(n)]
        known(after).contains(n) ==> known(before).contains(n) || author_of(n) == author(after)
    &&& origin(after) == origin(before)
    &&& root(after) == root(before)
    &&& nothing_waits(after) == nothing_waits(before)
    &&& changes_in(before).subset_of(changes_in(after))
    &&& forall|c: int|
        #![trigger changes_in(after).contains(c)]
        changes_in(after).contains(c) ==> changes_in(before).contains(c) || change_author(c)
            == author(after)
}

/// Whether two documents are copies of one that was made here, changed apart.
pub open spec fn are_copies(a: AutoCommit, b: AutoCommit) -> bool {
    &&& origin(a) == origin(b)
    &&& root(a) is Some && root(a) == root(b)
    &&& nothing_waits(a) && nothing_waits(b)
}

/// Whether what a document went through and another did not is by its author.
pub open spec fn is_own(a: AutoCommit, b: AutoCommit) -> bool {
    forall|c: int|
        #![trigger changes_in(a).contains(c)]
        changes_in(a).contains(c) ==> changes_in(b).contains(c) || change_author(c) == author(a)
}

/// Whether two documents are copies that two authors changed apart.
pub open spec fn changed_apart(a: AutoCommit, b: AutoCommit) -> bool {
    &&& are_copies(a, b)
    &&& author(a) != author(b)
    &&& is_own(a, b) && is_own(b, a)
}

/// Whether a document's objects hold nothing.
pub open spec fn has_no_members(doc: AutoCommit) -> bool {
    &&& text_chars(doc) == Seq::<(int, char)>::empty()
    &&& list_items(doc) == Seq::<(int, Seq<char>)>::empty()
    &&& map_entries(doc) == Set::<(int, Seq<char>, Seq<char>)>::empty()
    &&& known(doc) == Set::<int>::empty()
}

/// `AutoCommit::new`: a document that holds nothing.
#[verifier::external_body]
pub(crate) fn new_doc() -> (doc: AutoCommit)
    ensures
        has_no_members(doc),
        root(doc) is None,
        changes_in(doc) == Set::<int>::empty(),
        nothing_waits(doc),
{
    AutoCommit::new()
}

/// `Transactable::put_object` at the root of a document that holds nothing: the
/// document then has one object, of the kind and under the key, which holds
/// nothing. At the root a key always takes an object.
#[verifier::external_body]
pub(crate) fn put_object(doc: &mut AutoCommit, key: &str, kind: Kind) -> (r: Result<
    ObjId,
    AutomergeError,
>)
    requires
        has_no_members(*old(doc)),
        root(*old(doc)) is None,
        nothing_waits(*old(doc)),
    ensures
        r matches Ok(id) && has_no_members(*final(doc)) && is_at(id, *final(doc), kind) && root(
            *final(doc),
        ) == Some((key@, kind)),
{
    let object_type = match kind {
        Kind::Entries => automerge::ObjType::Map,
        Kind::Items => automerge::ObjType::List,
        Kind::Characters => automerge::ObjType::Text,
    };
    doc.put_object(automerge::ROOT, key, object_type)
}

/// `ReadDoc::get` at the root of a document, under the key of the one object
/// that it was made with: the identifier of that object.
#[verifier::external_body]
pub(crate) fn object_at(doc: &AutoCommit, key: &str) -> (r: Result<Option<ObjId>, AutomergeError>)
    requires
        root(*doc) matches Some(o) && o.0 == key@,
    ensures
        match r {
            Ok(Some(id)) => object(id) == origin(*doc),
            _ => false,
        },
{
    Ok(doc.get(automerge::ROOT, key)?.map(|(_, id)| id))
}

/// `AutoCommit::fork`: a copy that can be changed apart.
#[verifier::external_body]
pub(crate) fn fork(doc: &mut AutoCommit) -> (r: AutoCommit)
    ensures
        same_contents(*final(doc), *old(doc)),
        same_contents(r, *old(doc)),
{
    doc.fork()
}

/// `AutoCommit::get_actor` of two documents: whether they have one author.
#[verifier::external_body]
pub(crate) fn same_author(a: &AutoCommit, b: &AutoCommit) -> (r: bool)
    ensures
        r == (author(*a) == author(*b)),
{
    a.get_actor() == b.get_actor()
}

/// `AutoCommit::get_actor`, and `ActorId::to_bytes` of it: the name of the
/// document's author.
#[verifier::external_body]
pub(crate) fn author_name(doc: &AutoCommit) -> (r: Vec<u8>)
    ensures
        author(*doc) == author_named(r@),
{
    doc.get_actor().to_bytes().to_vec()
}

/// `AutoCommit::set_actor`: the document makes its changes as the author of a
/// name from now on; it holds what it held. Authors of two names are two.
#[verifier::external_body]
pub(crate) fn set_author(doc: &mut AutoCommit, name: &Vec<u8>)
    ensures
        same_contents(*final(doc), *old(doc)),
        author(*final(doc)) == author_named(name@),
        forall|other: Seq<u8>| #[trigger]
            author_named(other) == author(*final(doc)) ==> other == name@,
{
    doc.set_actor(automerge::ActorId::from(name.as_slice()));
}

/// A copy that another author than that of a first copy can change apart. The
/// author is drawn at random; one that is the first copy's gives way to another.
pub(crate) fn second_copy(doc: &mut AutoCommit, first: &AutoCommit) -> (r: AutoCommit)
    ensures
        same_contents(*final(doc), *old(doc)),
        same_contents(r, *old(doc)),
        author(r) != author(*first),
{
    let mut r = fork(doc);
    if same_author(first, &r) {
        let mut name = author_name(first);
        let ghost taken = name@;
        name.push(0);
        set_author(&mut r, &name);
        proof {
            assert(name@.len() == taken.len() + 1);
        }
    }
    r
}

/// `AutoCommit::merge`: takes the changes of another document that this one
/// does not have; whether it can is named `mergeable`. It can where the other
/// has none more, and where the two are copies that two authors changed apart:
/// only a change that bears an author and a number which are there already is
/// refused. Where none waited, none waits then. The objects of copies are merged.
/// Which of two entries under one key is shown, and in which order
/// stands what both put at one place, is left open: it depends on identities
/// drawn at random.
#[verifier::external_body]
pub(crate) fn merge(doc: &mut AutoCommit, other: &mut AutoCommit) -> (r: Result<
    (),
    AutomergeError,
>)
    ensures
        nothing_waits(*old(doc)) ==> r is Ok == mergeable(
            changes_in(*old(doc)),
            changes_in(*old(other)),
        ),
        changes_in(*old(other)).subset_of(changes_in(*old(doc))) ==> r is Ok,
        changed_apart(*old(doc), *old(other)) ==> r is Ok,
        r is Ok && nothing_waits(*old(doc)) ==> {
            &&& nothing_waits(*final(doc))
            &&& changes_in(*final(doc)) == changes_in(*old(doc)).union(changes_in(*old(other)))
        },
        r is Ok && are_copies(*old(doc), *old(other)) ==> {
            &&& origin(*final(doc)) == origin(*old(doc))
            &&& root(*final(doc)) == root(*old(doc))
            &&& is_merge(
                text_chars(*old(doc)),
                known(*old(doc)),
                text_chars(*old(other)),
                known(*old(other)),
                text_chars(*final(doc)),
            )
            &&& is_merge(
                list_items(*old(doc)),
                known(*old(doc)),
                list_items(*old(other)),
                known(*old(other)),
                list_items(*final(doc)),
            )
            &&& is_map_merge(
                map_entries(*old(doc)),
                known(*old(doc)),
                map_entries(*old(other)),
                known(*old(other)),
                map_entries(*final(doc)),
            )
        },
{
    doc.merge(other).map(|_| ())
}

/// `AutoCommit::load`: the document that bytes hold. Its changes are named
/// `saved_changes`.
#[verifier::external_body]
pub(crate) fn load(bytes: &Vec<u8>) -> (r: Option<AutoCommit>)
    ensures
        match r {
            Some(doc) => saved_changes(bytes@) == Some(changes_in(doc)),
            None => saved_changes(bytes@) is None,
        },
{
    AutoCommit::load(bytes).ok()
}

/// `AutoCommit::save`: bytes that hold the document, with all its changes.
#[verifier::external_body]
pub(crate) fn save(doc: &mut AutoCommit) -> (r: Vec<u8>)
    ensures
        saved_changes(r@) == Some(changes_in(*old(doc))),
{
    doc.save()
}

/// `Transactable::splice_text`: replaces characters at a position; what it puts,
/// and the change that it makes, is by the document's author. It fails only for an
/// object that is no text or a position beyond its end.
#[verifier::external_body]
pub(crate) fn splice_text(doc: &mut AutoCommit, id: &ObjId, pos: usize, del: usize, ins: &str) -> (r:
    Result<(), AutomergeError>)
    requires
        is_at(*id, *old(doc), Kind::Characters),
        pos + del <= text_chars(*old(doc)).len(),
        del <= isize::MAX,
    ensures
        forall|n: int|
            #![trigger known(*final(doc)).contains(n)]
            known(*final(doc)).contains(n) ==> known(*old(doc)).contains(n) || author_of(n)
                == author(*final(doc)),
        forall|c: int|
            #![trigger changes_in(*final(doc)).contains(c)]
            changes_in(*final(doc)).contains(c) ==> changes_in(*old(doc)).contains(c)
                || change_author(c) == author(*final(doc)),
        r is Ok && goes_on(*old(doc), *final(doc)) && is_splice(
            text_chars(*old(doc)),
            known(*old(doc)),
            text_chars(*final(doc)),
            known(*final(doc)),
            pos as int,
            del as int,
            ins@,
        ),
{
    doc.splice_text(id, pos, del as isize, ins)
}

/// `ReadDoc::text`: the document's text. It fails only for an object that is not
/// there.
#[verifier::external_body]
pub(crate) fn read_text(doc: &AutoCommit, id: &ObjId) -> (r: Result<String, AutomergeError>)
    requires
        is_at(*id, *doc, Kind::Characters),
    ensures
        match r {
            Ok(s) => s@ == values(text_chars(*doc)),
            Err(_) => false,
        },
{
    doc.text(id)
}

/// What the members of a sequence hold.
pub open spec fn values<T>(s: Seq<(int, T)>) -> Seq<T> {
    Seq::new(s.len(), |i: int| s[i].1)
}

/// `Transactable::insert` of a text into the document's list. It fails only for
/// an object that is no list or a place beyond its end.
#[verifier::external_body]
pub(crate) fn insert_item(doc: &mut AutoCommit, id: &ObjId, at: usize, item: &str) -> (r: Result<
    (),
    AutomergeError,
>)
    requires
        is_at(*id, *old(doc), Kind::Items),
        at <= list_items(*old(doc)).len(),
    ensures
        r is Ok && goes_on(*old(doc), *final(doc)) && is_splice(
            list_items(*old(doc)),
            known(*old(doc)),
            list_items(*final(doc)),
            known(*final(doc)),
            at as int,
            0,
            seq![item@],
        ),
{
    doc.insert(id, at, item)
}

/// `Transactable::delete` of an item of the document's list. It fails only for
/// an object that is no list or a place beyond its end.
#[verifier::external_body]
pub(crate) fn delete_item(doc: &mut AutoCommit, id: &ObjId, at: usize) -> (r: Result<
    (),
    AutomergeError,
>)
    requires
        is_at(*id, *old(doc), Kind::Items),
        at < list_items(*old(doc)).len(),
    ensures
        r is Ok && goes_on(*old(doc), *final(doc)) && is_splice(
            list_items(*old(doc)),
            known(*old(doc)),
            list_items(*final(doc)),
            known(*final(doc)),
            at as int,
            1,
            Seq::<Seq<char>>::empty(),
        ),
{
    doc.delete(id, at)
}

/// `ReadDoc::length` of the document's list.
#[verifier::external_body]
pub(crate) fn list_len(doc: &AutoCommit, id: &ObjId) -> (n: usize)
    requires
        is_at(*id, *doc, Kind::Items),
    ensures
        n == list_items(*doc).len(),
{
    doc.length(id)
}

/// `ReadDoc::get` of an item of the document's list, as `Display` shows it: a
/// text in double quotes.
#[verifier::external_body]
pub(crate) fn list_item(doc: &AutoCommit, id: &ObjId, at: usize) -> (r: Result<
    Option<String>,
    AutomergeError,
>)
    requires
        is_at(*id, *doc, Kind::Items),
        at < list_items(*doc).len(),
    ensures
        match r {
            Ok(Some(s)) => s@ == "\""@ + list_items(*doc)[at as int].1 + "\""@,
            _ => false,
        },
{
    Ok(doc.get(id, at)?.map(|(v, _)| v.to_string()))
}

/// `Transactable::put` of a text under a key of the document's map that does
/// not hold it: the entry takes the place of those that the key had. It fails
/// only for an object that is no map.
#[verifier::external_body]
pub(crate) fn put_entry(doc: &mut AutoCommit, id: &ObjId, key: &str, value: &str) -> (r: Result<
    (),
    AutomergeError,
>)
    requires
        is_at(*id, *old(doc), Kind::Entries),
        forall|n: int| !map_entries(*old(doc)).contains((n, key@, value@)),
    ensures
        r is Ok && goes_on(*old(doc), *final(doc)),
        exists|n: int|
            {
                &&& !known(*old(doc)).contains(n)
                &&& known(*final(doc)) == known(*old(doc)).insert(n)
                &&& map_entries(*final(doc)) == without_key(map_entries(*old(doc)), key@).insert(
                    #[trigger] entry(n, key@, value@),
                )
            },
{
    doc.put(id, key, value)
}

pub open spec fn entry(n: int, key: Seq<char>, value: Seq<char>) -> (int, Seq<char>, Seq<char>) {
    (n, key, value)
}

/// The entries of the other keys.
pub open spec fn without_key(m: Set<(int, Seq<char>, Seq<char>)>, key: Seq<char>) -> Set<
    (int, Seq<char>, Seq<char>),
> {
    m.filter(|e: (int, Seq<char>, Seq<char>)| e.1 != key)
}

/// `Transactable::delete` of a key of the document's map; nothing happens where
/// the key is not there. It fails only for an object that is no map.
#[verifier::external_body]
pub(crate) fn delete_entry(doc: &mut AutoCommit, id: &ObjId, key: &str) -> (r: Result<
    (),
    AutomergeError,
>)
    requires
        is_at(*id, *old(doc), Kind::Entries),
    ensures
        r is Ok && goes_on(*old(doc), *final(doc)),
        known(*final(doc)) == known(*old(doc)),
        map_entries(*final(doc)) == without_key(map_entries(*old(doc)), key@),
{
    doc.delete(id, key)
}

/// `ReadDoc::keys` of the document's map.
#[verifier::external_body]
pub(crate) fn map_keys(doc: &AutoCommit, id: &ObjId) -> (r: Vec<String>)
    requires
        is_at(*id, *doc, Kind::Entries),
    ensures
        forall|k: Seq<char>| #[trigger]
            crate::text::texts(r@).contains(k) == has_key(map_entries(*doc), k),
{
    doc.keys(id).collect()
}

pub open spec fn has_key(m: Set<(int, Seq<char>, Seq<char>)>, key: Seq<char>) -> bool {
    exists|n: int, v: Seq<char>| m.contains(#[trigger] entry(n, key, v))
}

/// `ReadDoc::get` of a key of the document's map, as `Display` shows it: a text
/// in double quotes, that of one of the key's entries.
#[verifier::external_body]
pub(crate) fn map_value(doc: &AutoCommit, id: &ObjId, key: &str) -> (r: Result<
    Option<String>,
    AutomergeError,
>)
    requires
        is_at(*id, *doc, Kind::Entries),
    ensures
        match r {
            Ok(Some(s)) => exists|n: int, v: Seq<char>|
                map_entries(*doc).contains(#[trigger] entry(n, key@, v)) && s@ == "\""@ + v
                    + "\""@,
            Ok(None) => !has_key(map_entries(*doc), key@),
            Err(_) => false,
        },
{
    Ok(doc.get(id, key)?.map(|(v, _)| v.to_string()))
}

/// `Display` of an error of `automerge`. Nothing is promised of the message.
#[verifier::external_body]
fn message_of(e: &AutomergeError) -> (s: String) {
    e.to_string()
}

/// The library's error for an error of `automerge`.
pub(crate) fn failure(e: AutomergeError) -> (r: ZettelError)
    ensures
        r@ is Automerge,
{
    ZettelError::Automerge(message_of(&e))
}

// ---------------------------------------------------------------------------
// Differences between texts
// ---------------------------------------------------------------------------
/// What happens to a character on the way from one text to another.
#[derive(Debug, Clone, Copy, PartialEq, Eq, Structural)]
pub enum Tag {
    Equal,
    Delete,
    Insert,
}

/// The characters that the old text has.
pub open spec fn old_chars(cs: Seq<(Tag, char)>) -> Seq<char>
    decreases cs.len(),
{
    if cs.len() == 0 {
        Seq::empty()
    } else if cs.last().0 == Tag::Insert {
        old_chars(cs.drop_last())
    } else {
        old_chars(cs.drop_last()).push(cs.last().1)
    }
}

/// The characters that the new text has.
pub open spec fn new_chars(cs: Seq<(Tag, char)>) -> Seq<char>
    decreases cs.len(),
{
    if cs.len() == 0 {
        Seq::empty()
    } else if cs.last().0 == Tag::Delete {
        new_chars(cs.drop_last())
    } else {
        new_chars(cs.drop_last()).push(cs.last().1)
    }
}

/// The changes that `similar` finds between two texts.
pub uninterp spec fn changes_between(old_text: Seq<char>, new_text: Seq<char>) -> Seq<(Tag, char)>;

/// `similar::TextDiff::from_chars` and its `iter_all_changes`: one change for
/// each character, in order, named `changes_between`. What is kept and deleted
/// is the old text, what is kept and inserted is the new one.
#[verifier::external_body]
pub(crate) fn diff_chars(old_text: &str, new_text: &str) -> (r: Vec<(Tag, char)>)
    ensures
        r@ == changes_between(old_text@, new_text@),
        old_chars(r@) == old_text@,
        new_chars(r@) == new_text@,
{
    let diff = similar::TextDiff::from_chars(old_text, new_text);
    let tag = |t: similar::ChangeTag| match t {
        similar::ChangeTag::Equal => Tag::Equal,
        similar::ChangeTag::Delete => Tag::Delete,
        similar::ChangeTag::Insert => Tag::Insert,
    };
    diff.iter_all_changes().flat_map(|c| c.value().chars().map(move |ch| (tag(c.tag()), ch))).collect()
}

} // verus!
