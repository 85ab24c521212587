//! What is kept of temporary files, and what a bundle is known by.
use crate::bundle::{
    bundle_bytes, create_args, entries_bytes, entry_bytes, excluded, step_after, BundleEntry,
    ImportEvent, ImportStep, CHECKSUM_FILE,
};
use crate::compaction::{
    all_changes, commit_named, compact_step_after, compact_steps, files_of_zettel, groups, heads_of,
    members, seen, temp_key, temp_name, CompactStep, TempKey,
};
use crate::docs::saved_changes;
use crate::picks::{lemma_pick_more, lemma_pick_none, picked};
use crate::textmap::TextMap;
use crate::types::{NodeConfig, NodeStatus};
use vstd::prelude::*;
use vstd::utf8::encode_utf8;

verus! {

// ---------------------------------------------------------------------------
// Compaction
// ---------------------------------------------------------------------------
/// The commit that a device is known to have.
pub open spec fn head_of(n: NodeConfig) -> Option<Seq<char>> {
    if n.known_heads@.len() > 0 {
        commit_named(n.known_heads@[0]@)
    } else {
        None
    }
}

/// The heads that count are those of the active devices, in their order; a device without a
/// head that names a commit has none.
pub proof fn law_active_heads(nodes: Seq<NodeConfig>)
    ensures
        picked(
            heads_of(nodes),
            Seq::new(nodes.len(), |i: int| head_of(nodes[i]).unwrap_or(Seq::empty())),
            |i: int| nodes[i].status == NodeStatus::Active && head_of(nodes[i]) is Some,
        ),
    decreases nodes.len(),
{
    let whole = Seq::new(nodes.len(), |i: int| head_of(nodes[i]).unwrap_or(Seq::empty()));
    let keep = |i: int| nodes[i].status == NodeStatus::Active && head_of(nodes[i]) is Some;
    if nodes.len() == 0 {
        assert(whole =~= Seq::<Seq<char>>::empty());
        lemma_pick_none::<Seq<char>>(keep);
    } else {
        let d = nodes.drop_last();
        law_active_heads(d);
        assert(whole.drop_last() =~= Seq::new(
            d.len(),
            |i: int| head_of(d[i]).unwrap_or(Seq::empty()),
        ));
        lemma_pick_more(
            heads_of(d),
            whole,
            |i: int| d[i].status == NodeStatus::Active && head_of(d[i]) is Some,
            keep,
        );
    }
}

/// The files of a part are all that their names say are, in their order.
pub proof fn law_files_of_part(names: Seq<Seq<char>>, key: TempKey)
    ensures
        picked(members(names, key), names, |i: int| temp_key(names[i]) == Some(key)),
    decreases names.len(),
{
    let keep = |i: int| temp_key(names[i]) == Some(key);
    if names.len() == 0 {
        assert(names =~= Seq::<Seq<char>>::empty());
        lemma_pick_none::<Seq<char>>(keep);
    } else {
        let d = names.drop_last();
        law_files_of_part(d, key);
        lemma_pick_more(members(d, key), names, |i: int| temp_key(d[i]) == Some(key), keep);
    }
}

/// The files of a note are all that their names say are, in their order.
pub proof fn law_files_of_note(names: Seq<Seq<char>>, id: Seq<char>)
    ensures
        picked(
            files_of_zettel(names, id),
            names,
            |i: int| temp_name(names[i]) matches Some(t) && t.zettel_id == Some(id),
        ),
    decreases names.len(),
{
    let keep = |i: int| temp_name(names[i]) matches Some(t) && t.zettel_id == Some(id);
    if names.len() == 0 {
        assert(names =~= Seq::<Seq<char>>::empty());
        lemma_pick_none::<Seq<char>>(keep);
    } else {
        let d = names.drop_last();
        law_files_of_note(d, id);
        lemma_pick_more(
            files_of_zettel(d, id),
            names,
            |i: int| temp_name(d[i]) matches Some(t) && t.zettel_id == Some(id),
            keep,
        );
    }
}

/// Each part with two files or more is a group, with all its files. There is one group of a
/// part and no other group.
pub proof fn law_groups(names: Seq<Seq<char>>, n: int)
    requires
        0 <= n <= names.len(),
    ensures
        forall|i: int|
            0 <= i < groups(names, n).len() ==> {
                let g = #[trigger] groups(names, n)[i];
                seen(names, n, g.0) && g.1 == members(names, g.0) && g.1.len() >= 2
            },
        forall|k: TempKey|
            #[trigger] seen(names, n, k) && members(names, k).len() >= 2 ==> groups(
                names,
                n,
            ).contains((k, members(names, k))),
        forall|i: int, j: int|
            0 <= i < j < groups(names, n).len() ==> (#[trigger] groups(names, n)[i]).0 != (
            #[trigger] groups(names, n)[j]).0,
    decreases n,
{
    if n > 0 {
        law_groups(names, n - 1);
        let p = groups(names, n - 1);
        let r = groups(names, n);
        assert forall|k: TempKey| #[trigger] seen(names, n, k) == (seen(names, n - 1, k)
            || temp_key(names[n - 1]) == Some(k)) by {
            if seen(names, n - 1, k) {
                let i = choose|i: int| 0 <= i < n - 1 && temp_key(#[trigger] names[i]) == Some(k);
                assert(temp_key(names[i]) == Some(k));
            }
            if seen(names, n, k) {
                let i = choose|i: int| 0 <= i < n && temp_key(#[trigger] names[i]) == Some(k);
                if i < n - 1 {
                    assert(temp_key(names[i]) == Some(k));
                }
            }
        }
        assert forall|i: int| 0 <= i < r.len() implies ({
            let g = #[trigger] r[i];
            seen(names, n, g.0) && g.1 == members(names, g.0) && g.1.len() >= 2
        }) by {
            if i < p.len() {
                assert(r[i] == p[i]);
                assert(seen(names, n - 1, p[i].0));
            } else {
                assert(seen(names, n, r[i].0));
            }
        }
        assert forall|k: TempKey|
            #[trigger] seen(names, n, k) && members(names, k).len() >= 2 implies r.contains(
            (k, members(names, k)),
        ) by {
            let g = (k, members(names, k));
            if seen(names, n - 1, k) {
                assert(p.contains(g));
                assert(r[p.index_of(g)] == g);
            } else {
                assert(r[p.len() as int] == g);
            }
        }
        assert forall|i: int, j: int| 0 <= i < j < r.len() implies (#[trigger] r[i]).0 != (
        #[trigger] r[j]).0 by {
            assert(r[i] == p[i]);
            assert(seen(names, n - 1, p[i].0));
            if j < p.len() {
                assert(r[j] == p[j]);
            }
        }
    }
}

/// No change comes from elsewhere when files become one.
pub proof fn law_no_change_made_up(blobs: Seq<Vec<u8>>, x: int)
    requires
        all_changes(blobs).contains(x),
    ensures
        exists|i: int|
            0 <= i < blobs.len() && (saved_changes((#[trigger] blobs[i])@) matches Some(c)
                && c.contains(x)),
    decreases blobs.len(),
{
    if blobs.len() > 0 {
        let d = blobs.drop_last();
        if all_changes(d).contains(x) {
            law_no_change_made_up(d, x);
            let i = choose|i: int|
                0 <= i < d.len() && (saved_changes((#[trigger] d[i])@) matches Some(c)
                    && c.contains(x));
            assert(blobs[i] == d[i]);
        } else {
            assert(blobs[blobs.len() - 1] == blobs.last());
        }
    }
}

/// A compaction makes its backup, takes files away, joins documents, collects what is not
/// used and ends, in this order; then it stays ended.
pub proof fn law_compaction_steps(n: nat)
    ensures
        compact_steps(CompactStep::Backup, 1) == CompactStep::CleanUp,
        compact_steps(CompactStep::Backup, 2) == CompactStep::MergeDocuments,
        compact_steps(CompactStep::Backup, 3) == CompactStep::CollectGarbage,
        compact_steps(CompactStep::Backup, 4 + n) == CompactStep::Finish,
    decreases n,
{
    reveal_with_fuel(compact_steps, 5);
    if n > 0 {
        law_compaction_steps((n - 1) as nat);
        assert(compact_steps(CompactStep::Backup, 4 + n) == compact_step_after(
            compact_steps(CompactStep::Backup, (3 + n) as nat),
        ));
    }
}

// ---------------------------------------------------------------------------
// Bundles
// ---------------------------------------------------------------------------
/// The bytes of a bundle are those of its entries, one after the other.
pub proof fn law_bundle_bytes_of_parts(
    a: Seq<(Seq<char>, BundleEntry)>,
    b: Seq<(Seq<char>, BundleEntry)>,
)
    ensures
        bundle_bytes(a + b) == bundle_bytes(a) + bundle_bytes(b),
    decreases b.len(),
{
    if b.len() == 0 {
        assert(a + b =~= a);
        assert(bundle_bytes(a) + bundle_bytes(b) =~= bundle_bytes(a));
    } else {
        law_bundle_bytes_of_parts(a, b.drop_last());
        assert((a + b).drop_last() =~= a + b.drop_last());
        assert(bundle_bytes(a + b) =~= bundle_bytes(a) + bundle_bytes(b));
    }
}

/// The bytes of a directory are those of its entries, one after the other.
pub proof fn law_directory_bytes_of_parts(
    a: Seq<(String, BundleEntry)>,
    b: Seq<(String, BundleEntry)>,
)
    ensures
        entries_bytes(a + b) == entries_bytes(a) + entries_bytes(b),
    decreases b.len(),
{
    if b.len() == 0 {
        assert(a + b =~= a);
        assert(entries_bytes(a) + entries_bytes(b) =~= entries_bytes(a));
    } else {
        law_directory_bytes_of_parts(a, b.drop_last());
        assert((a + b).drop_last() =~= a + b.drop_last());
        assert(entries_bytes(a + b) =~= entries_bytes(a) + entries_bytes(b));
    }
}

/// An entry of a bundle that is a file gives its name and what it holds; the file of the
/// checksum gives nothing.
pub proof fn law_bundle_bytes_of_file(name: Seq<char>, b: Vec<u8>)
    ensures
        name != "checksum.sha256"@ ==> bundle_bytes(seq![(name, BundleEntry::File(b))])
            == encode_utf8(name) + b@,
        name == "checksum.sha256"@ ==> bundle_bytes(seq![(name, BundleEntry::File(b))]).len() == 0,
{
    let s = seq![(name, BundleEntry::File(b))];
    assert(s.drop_last() =~= Seq::<(Seq<char>, BundleEntry)>::empty());
    assert(bundle_bytes(s.drop_last()) =~= Seq::<u8>::empty());
    if name != CHECKSUM_FILE@ {
        assert(bundle_bytes(s) =~= encode_utf8(name) + b@);
    }
}

/// An entry that is a directory gives what its own entries give.
pub proof fn law_bundle_bytes_of_directory(name: Seq<char>, m: TextMap<BundleEntry>)
    requires
        name != "checksum.sha256"@,
    ensures
        bundle_bytes(seq![(name, BundleEntry::Directory(m))]) == entries_bytes(m.entries@),
{
    let s = seq![(name, BundleEntry::Directory(m))];
    assert(s.drop_last() =~= Seq::<(Seq<char>, BundleEntry)>::empty());
    assert(bundle_bytes(s.drop_last()) =~= Seq::<u8>::empty());
    assert(bundle_bytes(s) =~= entries_bytes(m.entries@));
}

/// The entries of a directory give what they would give on their own.
pub proof fn law_directory_bytes_of_entry(name: String, b: Vec<u8>)
    ensures
        entries_bytes(seq![(name, BundleEntry::File(b))]) == encode_utf8(name@) + b@,
{
    let s = seq![(name, BundleEntry::File(b))];
    assert(s.drop_last() =~= Seq::<(String, BundleEntry)>::empty());
    assert(entries_bytes(s.drop_last()) =~= Seq::<u8>::empty());
    assert(entry_bytes(name@, BundleEntry::File(b)) == encode_utf8(name@) + b@);
    assert(s.last() == (name, BundleEntry::File(b)));
    assert(entries_bytes(s) == entries_bytes(s.drop_last()) + entry_bytes(s.last().0@, s.last().1));
    assert(entries_bytes(s) =~= encode_utf8(name@) + b@);
}

/// A file of a bundle that holds something else changes what the checksum is taken of.
pub proof fn law_change_is_noticed(
    a: Seq<(Seq<char>, BundleEntry)>,
    name: Seq<char>,
    x: Vec<u8>,
    y: Vec<u8>,
    b: Seq<(Seq<char>, BundleEntry)>,
)
    requires
        name != "checksum.sha256"@,
        x@ != y@,
    ensures
        bundle_bytes(a + seq![(name, BundleEntry::File(x))] + b) != bundle_bytes(
            a + seq![(name, BundleEntry::File(y))] + b,
        ),
{
    let p = seq![(name, BundleEntry::File(x))];
    let q = seq![(name, BundleEntry::File(y))];
    law_bundle_bytes_of_file(name, x);
    law_bundle_bytes_of_file(name, y);
    law_bundle_bytes_of_parts(a + p, b);
    law_bundle_bytes_of_parts(a + q, b);
    law_bundle_bytes_of_parts(a, p);
    law_bundle_bytes_of_parts(a, q);
    let u = bundle_bytes(a + p + b);
    let v = bundle_bytes(a + q + b);
    let k = bundle_bytes(a).len() + encode_utf8(name).len();
    let t = bundle_bytes(b).len();
    if u == v {
        assert(u.subrange(k as int, u.len() - t) =~= x@);
        assert(v.subrange(k as int, v.len() - t) =~= y@);
    }
}

/// A bundle for others holds all there is where nothing is known of them; else what is
/// reached from the main branch, without what each commit that they know reaches.
pub proof fn law_bundle_basis(path: Seq<char>, heads: Seq<Seq<char>>)
    ensures
        heads.len() == 0 ==> create_args(path, excluded(heads)) == seq![
            "bundle"@,
            "create"@,
            path,
            "--all"@,
        ],
        heads.len() > 0 ==> {
            let r = create_args(path, excluded(heads));
            &&& r.len() == heads.len() + 4
            &&& r.take(3) == seq!["bundle"@, "create"@, path]
            &&& r.last() == "refs/heads/master"@
            &&& forall|i: int| 0 <= i < heads.len() ==> r[i + 3] == "^"@ + #[trigger] heads[i]
        },
{
    let r = create_args(path, excluded(heads));
    if heads.len() == 0 {
        assert(r =~= seq!["bundle"@, "create"@, path, "--all"@]);
    } else {
        assert(r.take(3) =~= seq!["bundle"@, "create"@, path]);
    }
}

/// An import goes on only from a step that succeeded: it fetches after it unpacked, merges
/// after it fetched, resolves conflicts after a merge that had some, and ends after a merge
/// or a resolution. A command that failed ends it, but for a merge with conflicts.
pub proof fn law_import_steps(step: ImportStep, event: ImportEvent)
    ensures
        step_after(step, event) matches Some(Ok(next)) ==> {
            &&& next is Fetch ==> step is Unbundle
            &&& next is Merge ==> step is Fetch
            &&& next is ResolveConflicts ==> step is Merge
            &&& next is Finish ==> step is Merge || step is ResolveConflicts
            &&& !(next is Unbundle)
            &&& event matches ImportEvent::Ran { success, stderr } ==> success
                || next is ResolveConflicts
            &&& next matches ImportStep::Finish { conflicts_resolved } ==> (event
                matches ImportEvent::Resolved(n) ==> conflicts_resolved == n)
            &&& next matches ImportStep::Finish { conflicts_resolved } ==> step is Merge
                ==> conflicts_resolved == 0
        },
        event matches ImportEvent::Ran { success, stderr } ==> success ==> (step is Unbundle
            || step is Fetch || step is Merge) ==> (step_after(step, event) matches Some(Ok(_))),
{
}

} // verus!
