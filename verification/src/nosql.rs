//! The keys of the key-value index: what a note is found under, and what a scan
//! by prefix gives.
use crate::error::{ErrorView, ZettelError};
use crate::indexer::notes_view;
use crate::parser::{parse, parsed_zettel};
use crate::text::{self, texts};
use crate::types::{links_view, LinkView, ParsedZettel, WikiLink, ZettelView};
use vstd::prelude::*;

verus! {

broadcast use vstd::string::group_string_axioms;

/// A key of a secondary index: what a note is found under, and its identifier.
pub open spec fn index_key(by: Seq<char>, id: Seq<char>) -> Seq<char> {
    by + "/"@ + id
}

/// What a note is found under.
#[derive(Debug, Clone)]
pub struct IndexKeys {
    pub id: String,
    pub by_type: Option<String>,
    pub by_tag: Vec<String>,
    pub links: Vec<String>,
}

pub open spec fn tag_keys(tags: Seq<Seq<char>>, id: Seq<char>) -> Seq<Seq<char>> {
    Seq::new(tags.len(), |i: int| index_key(tags[i], id))
}

pub open spec fn link_keys(links: Seq<LinkView>, id: Seq<char>) -> Seq<Seq<char>> {
    Seq::new(links.len(), |i: int| index_key(links[i].target, id))
}

/// Whether keys are those of a note with an identifier.
pub open spec fn are_keys(k: IndexKeys, z: ZettelView, id: Seq<char>) -> bool {
    &&& k.id@ == id
    &&& text::opt_text(k.by_type) == match z.meta.zettel_type {
        Some(t) => Some(index_key(t, id)),
        None => None,
    }
    &&& texts(k.by_tag@) == tag_keys(z.meta.tags, id)
    &&& texts(k.links@) == link_keys(z.links, id)
}

fn make_key(by: &str, id: &str) -> (r: String)
    ensures
        r@ == index_key(by@, id@),
{
    text::cat3(by, "/", id)
}

fn make_tag_keys(tags: &Vec<String>, id: &str) -> (r: Vec<String>)
    ensures
        texts(r@) == tag_keys(texts(tags@), id@),
{
    let ghost goal = tag_keys(texts(tags@), id@);
    let mut out: Vec<String> = Vec::new();
    let mut i: usize = 0;
    proof {
        assert(texts(out@) =~= goal.take(0));
    }
    while i < tags.len()
        invariant
            i <= tags@.len(),
            goal == tag_keys(texts(tags@), id@),
            texts(out@) == goal.take(i as int),
        decreases tags@.len() - i,
    {
        let k = make_key(tags[i].as_str(), id);
        proof {
            text::lemma_texts_push(out@, k);
            assert(goal.take(i + 1) =~= goal.take(i as int).push(goal[i as int]));
        }
        out.push(k);
        i = i + 1;
    }
    proof {
        assert(goal.take(i as int) =~= goal);
    }
    out
}

fn make_link_keys(links: &Vec<WikiLink>, id: &str) -> (r: Vec<String>)
    ensures
        texts(r@) == link_keys(links_view(links@), id@),
{
    let ghost goal = link_keys(links_view(links@), id@);
    let mut out: Vec<String> = Vec::new();
    let mut i: usize = 0;
    proof {
        assert(texts(out@) =~= goal.take(0));
    }
    while i < links.len()
        invariant
            i <= links@.len(),
            goal == link_keys(links_view(links@), id@),
            texts(out@) == goal.take(i as int),
        decreases links@.len() - i,
    {
        let k = make_key(links[i].target.as_str(), id);
        proof {
            text::lemma_texts_push(out@, k);
            assert(goal.take(i + 1) =~= goal.take(i as int).push(goal[i as int]));
        }
        out.push(k);
        i = i + 1;
    }
    proof {
        assert(goal.take(i as int) =~= goal);
    }
    out
}

fn keys_under(zettel: &ParsedZettel, id: &str) -> (r: IndexKeys)
    ensures
        are_keys(r, zettel@, id@),
{
    let by_type = match &zettel.meta.zettel_type {
        Some(t) => Some(make_key(t.as_str(), id)),
        None => None,
    };
    IndexKeys {
        id: text::copy(id),
        by_type,
        by_tag: make_tag_keys(&zettel.meta.tags, id),
        links: make_link_keys(&zettel.wikilinks, id),
    }
}

/// The keys of a note, which are added when it is indexed. A note without an
/// identifier cannot be indexed.
pub fn index_zettel(zettel: &ParsedZettel) -> (r: Result<IndexKeys, ZettelError>)
    ensures
        match zettel@.meta.id {
            Some(id) => r matches Ok(k) && are_keys(k, zettel@, id),
            None => r matches Err(e) && e@ == ErrorView::Validation("zettel has no id"@),
        },
{
    match &zettel.meta.id {
        Some(id) => Ok(keys_under(zettel, id.0.as_str())),
        None => Err(ZettelError::Validation(text::copy("zettel has no id"))),
    }
}

/// The keys that go before a note is indexed anew or removed: those of the note
/// that was stored under the identifier, if one was.
pub fn remove_secondary_entries(stored: &Option<ParsedZettel>, id: &str) -> (r: Option<IndexKeys>)
    ensures
        match *stored {
            Some(old) => r matches Some(k) && are_keys(k, old@, id@),
            None => r is None,
        },
{
    match stored {
        Some(old) => Some(keys_under(old, id)),
        None => None,
    }
}

/// The notes of the files that could be read and that parse, in order.
pub open spec fn readable(files: Seq<(Seq<char>, Option<Seq<char>>)>) -> Seq<ZettelView>
    decreases files.len(),
{
    if files.len() == 0 {
        Seq::empty()
    } else {
        let last = files.last();
        let before = readable(files.drop_last());
        match last.1 {
            Some(content) => match parsed_zettel(content, last.0) {
                Ok(z) => before.push(z),
                Err(_) => before,
            },
            None => before,
        }
    }
}

pub open spec fn files_view(s: Seq<(String, Option<String>)>) -> Seq<
    (Seq<char>, Option<Seq<char>>),
> {
    Seq::new(s.len(), |i: int| (s[i].0@, text::opt_text(s[i].1)))
}

/// The notes that a rebuild indexes: a file that cannot be read, or that does
/// not parse, is passed over.
pub fn rebuild(files: &Vec<(String, Option<String>)>) -> (r: Vec<ParsedZettel>)
    ensures
        notes_view(r@) == readable(files_view(files@)),
{
    let ghost all = files_view(files@);
    let mut out: Vec<ParsedZettel> = Vec::new();
    let mut i: usize = 0;
    proof {
        assert(notes_view(out@) =~= readable(all.take(0)));
    }
    while i < files.len()
        invariant
            i <= files@.len(),
            all == files_view(files@),
            notes_view(out@) == readable(all.take(i as int)),
        decreases files@.len() - i,
    {
        let ghost before = out@;
        proof {
            assert(all.take(i + 1).drop_last() =~= all.take(i as int));
            assert(all.take(i + 1).last() == all[i as int]);
        }
        match &files[i].1 {
            Some(content) => match parse(content.as_str(), files[i].0.as_str()) {
                Ok(z) => {
                    out.push(z);
                    proof {
                        assert(notes_view(out@) =~= notes_view(before).push(z@));
                    }
                },
                Err(_) => {},
            },
            None => {},
        }
        i = i + 1;
    }
    proof {
        assert(all.take(i as int) =~= all);
    }
    out
}

/// The prefix under which notes are scanned.
pub fn scan_prefix(by: &str) -> (r: String)
    ensures
        r@ == by@ + "/"@,
{
    text::cat(by, "/")
}

/// What a scan gives of the keys from a prefix on: the rest of each key that
/// has the prefix, up to the first that does not.
pub open spec fn scanned_ids(keys: Seq<Seq<char>>, prefix: Seq<char>) -> Seq<Seq<char>>
    decreases keys.len(),
{
    if keys.len() == 0 || !text::has_prefix(keys[0], prefix) {
        Seq::empty()
    } else {
        seq![keys[0].skip(prefix.len() as int)] + scanned_ids(keys.drop_first(), prefix)
    }
}

/// The identifiers that a scan by prefix gives, from the keys that come at or
/// after the prefix.
pub fn prefix_scan(keys: &Vec<String>, prefix: &str) -> (r: Vec<String>)
    ensures
        texts(r@) == scanned_ids(texts(keys@), prefix@),
{
    let ghost all = texts(keys@);
    let mut out: Vec<String> = Vec::new();
    let mut i: usize = 0;
    proof {
        assert(all.skip(0) =~= all);
        assert(texts(out@) + scanned_ids(all, prefix@) =~= scanned_ids(all, prefix@));
    }
    while i < keys.len()
        invariant
            i <= keys@.len(),
            all == texts(keys@),
            texts(out@) + scanned_ids(all.skip(i as int), prefix@) == scanned_ids(all, prefix@),
        decreases keys@.len() - i,
    {
        proof {
            assert(all.skip(i as int)[0] == keys@[i as int]@);
            assert(all.skip(i as int).drop_first() =~= all.skip(i + 1));
        }
        match text::strip_prefix(keys[i].as_str(), prefix) {
            Some(id) => {
                let ghost before = texts(out@);
                let ghost idv = id@;
                proof {
                    text::lemma_texts_push(out@, id);
                }
                out.push(id);
                proof {
                    let rest = scanned_ids(all.skip(i + 1), prefix@);
                    assert(before.push(idv) + rest =~= before + (seq![idv] + rest));
                }
            },
            None => {
                proof {
                    assert(texts(out@) + Seq::<Seq<char>>::empty() =~= texts(out@));
                }
                return out;
            },
        }
        i = i + 1;
    }
    proof {
        assert(texts(out@) + Seq::<Seq<char>>::empty() =~= texts(out@));
    }
    out
}

// ---------------------------------------------------------------------------
// Laws
// ---------------------------------------------------------------------------
/// What lies between a prefix and a text that has it has it too.
proof fn lemma_between(p: Seq<char>, a: Seq<char>, b: Seq<char>)
    requires
        !text::lt(a, p),
        text::lt(a, b),
        text::has_prefix(b, p),
    ensures
        text::has_prefix(a, p),
    decreases p.len(),
{
    if p.len() == 0 {
        assert(a.take(0) =~= p);
    } else {
        assert(b[0] == b.take(p.len() as int)[0]);
        assert(a.len() > 0);
        let q = p.drop_first();
        let x = a.drop_first();
        let y = b.drop_first();
        assert(a[0] == p[0]);
        assert(y.take(q.len() as int) =~= b.take(p.len() as int).drop_first());
        lemma_between(q, x, y);
        assert(a.take(p.len() as int) =~= p) by {
            let t = x.take(q.len() as int);
            assert(t =~= q);
            assert forall|i: int| 0 <= i < p.len() implies a.take(p.len() as int)[i] == p[i] by {
                if i > 0 {
                    assert(t[i - 1] == x[i - 1]);
                    assert(q[i - 1] == p[i]);
                }
            }
        }
    }
}

/// A scan finds every key that has the prefix, and no other.
pub proof fn law_scan_complete(keys: Seq<Seq<char>>, prefix: Seq<char>, id: Seq<char>)
    requires
        text::ascending(keys),
        forall|i: int| 0 <= i < keys.len() ==> !text::lt(#[trigger] keys[i], prefix),
    ensures
        scanned_ids(keys, prefix).contains(id) == keys.contains(prefix + id),
    decreases keys.len(),
{
    let r = scanned_ids(keys, prefix);
    let k = prefix + id;
    assert(k.take(prefix.len() as int) =~= prefix);
    assert(k.skip(prefix.len() as int) =~= id);
    if keys.len() == 0 {
    } else if !text::has_prefix(keys[0], prefix) {
        if keys.contains(k) {
            let i = keys.index_of(k);
            if i > 0 {
                lemma_between(prefix, keys[0], keys[i]);
            }
        }
    } else {
        let d = keys.drop_first();
        let rest = scanned_ids(d, prefix);
        let first = keys[0].skip(prefix.len() as int);
        assert(keys[0] =~= prefix + first);
        assert forall|i: int, j: int| 0 <= i < j < d.len() implies text::lt(
            #[trigger] d[i],
            #[trigger] d[j],
        ) by {
            assert(text::lt(keys[i + 1], keys[j + 1]));
        }
        assert forall|i: int| 0 <= i < d.len() implies !text::lt(#[trigger] d[i], prefix) by {
            assert(d[i] == keys[i + 1]);
        }
        law_scan_complete(d, prefix, id);
        if keys.contains(k) {
            let i = keys.index_of(k);
            if i == 0 {
                assert(r[0] == id);
            } else {
                assert(d[i - 1] == k);
                let j = rest.index_of(id);
                assert(r[j + 1] == id);
            }
        }
        if r.contains(id) {
            let i = r.index_of(id);
            if i == 0 {
                assert(keys[0] == k);
            } else {
                assert(rest[i - 1] == id);
                let j = d.index_of(k);
                assert(keys[j + 1] == k);
            }
        }
    }
}

/// A note is found under what it was indexed by: its key is the prefix of the
/// scan and its identifier.
pub proof fn law_key_has_prefix(by: Seq<char>, id: Seq<char>)
    ensures
        index_key(by, id) == (by + "/"@) + id,
        text::has_prefix(index_key(by, id), by + "/"@),
        index_key(by, id).skip((by + "/"@).len() as int) == id,
{
    let p = by + "/"@;
    assert((p + id).take(p.len() as int) =~= p);
    assert((p + id).skip(p.len() as int) =~= id);
}

/// What the tables hold: the notes by identifier, and the keys of the secondary
/// indices.
#[verifier::ext_equal]
pub struct Tables {
    pub notes: Map<Seq<char>, ZettelView>,
    pub by_type: Set<Seq<char>>,
    pub by_tag: Set<Seq<char>>,
    pub links: Set<Seq<char>>,
}

pub open spec fn type_key_set(z: ZettelView, id: Seq<char>) -> Set<Seq<char>> {
    match z.meta.zettel_type {
        Some(t) => Set::empty().insert(index_key(t, id)),
        None => Set::empty(),
    }
}

pub open spec fn tag_key_set(z: ZettelView, id: Seq<char>) -> Set<Seq<char>> {
    tag_keys(z.meta.tags, id).to_set()
}

pub open spec fn link_key_set(z: ZettelView, id: Seq<char>) -> Set<Seq<char>> {
    link_keys(z.links, id).to_set()
}

/// The tables without a note: its keys go, and the note.
pub open spec fn without_note(t: Tables, id: Seq<char>) -> Tables {
    if t.notes.dom().contains(id) {
        let old = t.notes[id];
        Tables {
            notes: t.notes.remove(id),
            by_type: t.by_type.difference(type_key_set(old, id)),
            by_tag: t.by_tag.difference(tag_key_set(old, id)),
            links: t.links.difference(link_key_set(old, id)),
        }
    } else {
        t
    }
}

/// The tables with a note in place of what was under its identifier: the old
/// keys go, and the note comes with its own.
pub open spec fn with_note(t: Tables, id: Seq<char>, z: ZettelView) -> Tables {
    let r = without_note(t, id);
    Tables {
        notes: r.notes.insert(id, z),
        by_type: r.by_type.union(type_key_set(z, id)),
        by_tag: r.by_tag.union(tag_key_set(z, id)),
        links: r.links.union(link_key_set(z, id)),
    }
}

/// The table of a secondary index holds the keys of the stored notes and no
/// other.
pub open spec fn holds_keys(
    notes: Map<Seq<char>, ZettelView>,
    keys: Set<Seq<char>>,
    of: spec_fn(ZettelView, Seq<char>) -> Set<Seq<char>>,
) -> bool {
    forall|k: Seq<char>| #[trigger]
        keys.contains(k) <==> exists|id: Seq<char>| #[trigger]
            notes.dom().contains(id) && of(notes[id], id).contains(k)
}

/// The secondary indices agree with the notes.
pub open spec fn consistent(t: Tables) -> bool {
    &&& holds_keys(t.notes, t.by_type, |z: ZettelView, id: Seq<char>| type_key_set(z, id))
    &&& holds_keys(t.notes, t.by_tag, |z: ZettelView, id: Seq<char>| tag_key_set(z, id))
    &&& holds_keys(t.notes, t.links, |z: ZettelView, id: Seq<char>| link_key_set(z, id))
}

/// No identifier holds the character that ends what a note is found under.
pub open spec fn plain_ids(notes: Map<Seq<char>, ZettelView>) -> bool {
    forall|id: Seq<char>| #[trigger] notes.dom().contains(id) ==> !id.contains('/')
}

/// Keys of two plain identifiers differ.
proof fn lemma_key_of_one(a: Seq<char>, i: Seq<char>, b: Seq<char>, j: Seq<char>)
    requires
        !i.contains('/'),
        !j.contains('/'),
        index_key(a, i) == index_key(b, j),
    ensures
        i == j,
        a == b,
{
    reveal_strlit("/");
    let k = index_key(a, i);
    let m = index_key(b, j);
    assert(k.len() == a.len() + 1 + i.len());
    assert(m.len() == b.len() + 1 + j.len());
    assert(k[a.len() as int] == '/');
    assert(m[b.len() as int] == '/');
    if a.len() < b.len() {
        let n = b.len() - a.len() - 1;
        assert(k[b.len() as int] == i[n]);
        assert(i.contains('/'));
    }
    if b.len() < a.len() {
        let n = a.len() - b.len() - 1;
        assert(m[a.len() as int] == j[n]);
        assert(j.contains('/'));
    }
    assert(a =~= k.take(a.len() as int));
    assert(b =~= m.take(a.len() as int));
    assert(i =~= k.skip(a.len() as int + 1));
    assert(j =~= m.skip(a.len() as int + 1));
}

/// Every key of the given index is made from the identifier of its note.
pub open spec fn keys_of_id(of: spec_fn(ZettelView, Seq<char>) -> Set<Seq<char>>) -> bool {
    forall|z: ZettelView, id: Seq<char>, k: Seq<char>| #[trigger]
        of(z, id).contains(k) ==> exists|by: Seq<char>| k == #[trigger] index_key(by, id)
}

proof fn lemma_keys_of_id()
    ensures
        keys_of_id(|z: ZettelView, id: Seq<char>| type_key_set(z, id)),
        keys_of_id(|z: ZettelView, id: Seq<char>| tag_key_set(z, id)),
        keys_of_id(|z: ZettelView, id: Seq<char>| link_key_set(z, id)),
{
    assert forall|z: ZettelView, id: Seq<char>, k: Seq<char>|
        tag_key_set(z, id).contains(k) implies exists|by: Seq<char>| k == #[trigger] index_key(
        by,
        id,
    ) by {
        let keys = tag_keys(z.meta.tags, id);
        let i = keys.index_of(k);
        assert(k == index_key(z.meta.tags[i], id));
    }
    assert forall|z: ZettelView, id: Seq<char>, k: Seq<char>|
        link_key_set(z, id).contains(k) implies exists|by: Seq<char>| k == #[trigger] index_key(
        by,
        id,
    ) by {
        let keys = link_keys(z.links, id);
        let i = keys.index_of(k);
        assert(k == index_key(z.links[i].target, id));
    }
}

proof fn lemma_removed_keys(
    notes: Map<Seq<char>, ZettelView>,
    keys: Set<Seq<char>>,
    of: spec_fn(ZettelView, Seq<char>) -> Set<Seq<char>>,
    id: Seq<char>,
)
    requires
        holds_keys(notes, keys, of),
        keys_of_id(of),
        plain_ids(notes),
        notes.dom().contains(id),
    ensures
        holds_keys(notes.remove(id), keys.difference(of(notes[id], id)), of),
{
    let gone = of(notes[id], id);
    let rest = keys.difference(gone);
    let left = notes.remove(id);
    assert forall|k: Seq<char>| #[trigger] rest.contains(k) implies exists|o: Seq<char>| #[trigger]
        left.dom().contains(o) && of(left[o], o).contains(k) by {
        assert(keys.contains(k));
        let o = choose|o: Seq<char>| #[trigger]
            notes.dom().contains(o) && of(notes[o], o).contains(k);
        assert(o != id);
        assert(left.dom().contains(o));
    }
    assert forall|k: Seq<char>|
        (exists|o: Seq<char>| #[trigger] left.dom().contains(o) && of(left[o], o).contains(
            k,
        )) implies #[trigger] rest.contains(k) by {
        let o = choose|o: Seq<char>| #[trigger]
            left.dom().contains(o) && of(left[o], o).contains(k);
        assert(notes.dom().contains(o));
        assert(keys.contains(k));
        if gone.contains(k) {
            let a = choose|by: Seq<char>| k == #[trigger] index_key(by, id);
            let b = choose|by: Seq<char>| k == #[trigger] index_key(by, o);
            lemma_key_of_one(a, id, b, o);
        }
    }
}

proof fn lemma_added_keys(
    notes: Map<Seq<char>, ZettelView>,
    keys: Set<Seq<char>>,
    of: spec_fn(ZettelView, Seq<char>) -> Set<Seq<char>>,
    id: Seq<char>,
    z: ZettelView,
)
    requires
        holds_keys(notes, keys, of),
        !notes.dom().contains(id),
    ensures
        holds_keys(notes.insert(id, z), keys.union(of(z, id)), of),
{
    let more = notes.insert(id, z);
    let all = keys.union(of(z, id));
    assert forall|k: Seq<char>| #[trigger] all.contains(k) implies exists|o: Seq<char>| #[trigger]
        more.dom().contains(o) && of(more[o], o).contains(k) by {
        if keys.contains(k) {
            let o = choose|o: Seq<char>| #[trigger]
                notes.dom().contains(o) && of(notes[o], o).contains(k);
            assert(more.dom().contains(o) && of(more[o], o).contains(k));
        } else {
            assert(more.dom().contains(id));
        }
    }
    assert forall|k: Seq<char>|
        (exists|o: Seq<char>| #[trigger] more.dom().contains(o) && of(more[o], o).contains(
            k,
        )) implies #[trigger] all.contains(k) by {
        let o = choose|o: Seq<char>| #[trigger]
            more.dom().contains(o) && of(more[o], o).contains(k);
        if o != id {
            assert(notes.dom().contains(o));
            assert(keys.contains(k));
        }
    }
}

/// Removing a note leaves the secondary indices in agreement with the notes.
pub proof fn law_remove_keeps_agreement(t: Tables, id: Seq<char>)
    requires
        consistent(t),
        plain_ids(t.notes),
    ensures
        consistent(without_note(t, id)),
        plain_ids(without_note(t, id).notes),
        !without_note(t, id).notes.dom().contains(id),
{
    if t.notes.dom().contains(id) {
        lemma_keys_of_id();
        lemma_removed_keys(
            t.notes,
            t.by_type,
            |z: ZettelView, i: Seq<char>| type_key_set(z, i),
            id,
        );
        lemma_removed_keys(
            t.notes,
            t.by_tag,
            |z: ZettelView, i: Seq<char>| tag_key_set(z, i),
            id,
        );
        lemma_removed_keys(
            t.notes,
            t.links,
            |z: ZettelView, i: Seq<char>| link_key_set(z, i),
            id,
        );
        let left = t.notes.remove(id);
        assert forall|o: Seq<char>| #[trigger] left.dom().contains(o) implies !o.contains('/') by {
            assert(t.notes.dom().contains(o));
        }
    }
}

/// Indexing a note, new or in place of an older one, leaves the secondary
/// indices in agreement with the notes: nothing stays under which only the older
/// one was found.
pub proof fn law_index_keeps_agreement(t: Tables, id: Seq<char>, z: ZettelView)
    requires
        consistent(t),
        plain_ids(t.notes),
        !id.contains('/'),
    ensures
        consistent(with_note(t, id, z)),
        plain_ids(with_note(t, id, z).notes),
        with_note(t, id, z).notes[id] == z,
        forall|o: Seq<char>|
            o != id && t.notes.dom().contains(o) ==> #[trigger] with_note(
                t,
                id,
                z,
            ).notes.dom().contains(o) && with_note(t, id, z).notes[o] == t.notes[o],
{
    law_remove_keeps_agreement(t, id);
    let r = without_note(t, id);
    lemma_added_keys(
        r.notes,
        r.by_type,
        |v: ZettelView, i: Seq<char>| type_key_set(v, i),
        id,
        z,
    );
    lemma_added_keys(r.notes, r.by_tag, |v: ZettelView, i: Seq<char>| tag_key_set(v, i), id, z);
    lemma_added_keys(r.notes, r.links, |v: ZettelView, i: Seq<char>| link_key_set(v, i), id, z);
    let more = r.notes.insert(id, z);
    assert forall|o: Seq<char>| #[trigger] more.dom().contains(o) implies !o.contains('/') by {
        if o != id {
            assert(r.notes.dom().contains(o));
        }
    }
}

/// While the tables agree, a scan by type gives an identifier exactly where the
/// note under it has the type.
pub proof fn law_scan_by_type(
    t: Tables,
    keys: Seq<Seq<char>>,
    zettel_type: Seq<char>,
    id: Seq<char>,
)
    requires
        consistent(t),
        plain_ids(t.notes),
        !id.contains('/'),
        text::ascending(keys),
        forall|i: int| 0 <= i < keys.len() ==> !text::lt(#[trigger] keys[i], zettel_type + "/"@),
        forall|k: Seq<char>|
            text::has_prefix(k, zettel_type + "/"@) ==> (#[trigger] keys.contains(k)
                <==> t.by_type.contains(k)),
    ensures
        scanned_ids(keys, zettel_type + "/"@).contains(id) == (t.notes.dom().contains(id)
            && t.notes[id].meta.zettel_type == Some(zettel_type)),
{
    law_scan_complete(keys, zettel_type + "/"@, id);
    law_key_has_prefix(zettel_type, id);
    let k = index_key(zettel_type, id);
    assert(keys.contains(k) <==> t.by_type.contains(k));
    let of = |z: ZettelView, i: Seq<char>| type_key_set(z, i);
    if t.by_type.contains(k) {
        let o = choose|o: Seq<char>| #[trigger]
            t.notes.dom().contains(o) && of(t.notes[o], o).contains(k);
        match t.notes[o].meta.zettel_type {
            Some(a) => {
                lemma_key_of_one(a, o, zettel_type, id);
            },
            None => {},
        }
    }
    if t.notes.dom().contains(id) && t.notes[id].meta.zettel_type == Some(zettel_type) {
        assert(of(t.notes[id], id).contains(k));
    }
}

/// While the tables agree, a scan by tag gives an identifier exactly where the
/// note under it has the tag.
pub proof fn law_scan_by_tag(t: Tables, keys: Seq<Seq<char>>, tag: Seq<char>, id: Seq<char>)
    requires
        consistent(t),
        plain_ids(t.notes),
        !id.contains('/'),
        text::ascending(keys),
        forall|i: int| 0 <= i < keys.len() ==> !text::lt(#[trigger] keys[i], tag + "/"@),
        forall|k: Seq<char>|
            text::has_prefix(k, tag + "/"@) ==> (#[trigger] keys.contains(k)
                <==> t.by_tag.contains(k)),
    ensures
        scanned_ids(keys, tag + "/"@).contains(id) == (t.notes.dom().contains(id)
            && t.notes[id].meta.tags.contains(tag)),
{
    law_scan_complete(keys, tag + "/"@, id);
    law_key_has_prefix(tag, id);
    let k = index_key(tag, id);
    assert(keys.contains(k) <==> t.by_tag.contains(k));
    let of = |z: ZettelView, i: Seq<char>| tag_key_set(z, i);
    if t.by_tag.contains(k) {
        let o = choose|o: Seq<char>| #[trigger]
            t.notes.dom().contains(o) && of(t.notes[o], o).contains(k);
        let tags = t.notes[o].meta.tags;
        let i = tag_keys(tags, o).index_of(k);
        lemma_key_of_one(tags[i], o, tag, id);
    }
    if t.notes.dom().contains(id) && t.notes[id].meta.tags.contains(tag) {
        let tags = t.notes[id].meta.tags;
        let i = tags.index_of(tag);
        assert(tag_keys(tags, id)[i] == k);
        assert(of(t.notes[id], id).contains(k));
    }
}

/// Whether a note links to a target.
pub open spec fn links_to(z: ZettelView, target: Seq<char>) -> bool {
    exists|i: int| 0 <= i < z.links.len() && (#[trigger] z.links[i]).target == target
}

/// While the tables agree, the backlinks of a target are the identifiers of the
/// notes that link to it.
pub proof fn law_backlinks(t: Tables, keys: Seq<Seq<char>>, target: Seq<char>, id: Seq<char>)
    requires
        consistent(t),
        plain_ids(t.notes),
        !id.contains('/'),
        text::ascending(keys),
        forall|i: int| 0 <= i < keys.len() ==> !text::lt(#[trigger] keys[i], target + "/"@),
        forall|k: Seq<char>|
            text::has_prefix(k, target + "/"@) ==> (#[trigger] keys.contains(k)
                <==> t.links.contains(k)),
    ensures
        scanned_ids(keys, target + "/"@).contains(id) == (t.notes.dom().contains(id) && links_to(
            t.notes[id],
            target,
        )),
{
    law_scan_complete(keys, target + "/"@, id);
    law_key_has_prefix(target, id);
    let k = index_key(target, id);
    assert(keys.contains(k) <==> t.links.contains(k));
    let of = |z: ZettelView, i: Seq<char>| link_key_set(z, i);
    if t.links.contains(k) {
        let o = choose|o: Seq<char>| #[trigger]
            t.notes.dom().contains(o) && of(t.notes[o], o).contains(k);
        let links = t.notes[o].links;
        let i = link_keys(links, o).index_of(k);
        lemma_key_of_one(links[i].target, o, target, id);
        assert(links[i].target == target);
    }
    if t.notes.dom().contains(id) && links_to(t.notes[id], target) {
        let links = t.notes[id].links;
        let i = choose|i: int| 0 <= i < links.len() && (#[trigger] links[i]).target == target;
        assert(link_keys(links, id)[i] == k);
        assert(of(t.notes[id], id).contains(k));
    }
}

} // verus!
