//! Bundles for synchronisation without a network: what goes into one, how it is
//! checked, and what an import does.
use crate::error::{ErrorView, ZettelError};
use crate::text::{self, texts};
use crate::textmap::{self, put, TextMap};
use crate::types::{BundleManifest, NodeConfig, SyncReport};
use sha2::Digest;
use vstd::prelude::*;
use vstd::utf8::encode_utf8;

verus! {

broadcast use vstd::string::group_string_axioms;

/// A file or a directory of a bundle. A directory has its entries by name.
#[derive(Debug)]
pub enum BundleEntry {
    File(Vec<u8>),
    Directory(TextMap<BundleEntry>),
}

/// What is hashed of an entry: of a file its name and its bytes, of a directory
/// its entries in the order of their names.
pub open spec fn entry_bytes(name: Seq<char>, e: BundleEntry) -> Seq<u8>
    decreases e,
{
    match e {
        BundleEntry::File(b) => encode_utf8(name) + b@,
        BundleEntry::Directory(m) => entries_bytes(m.entries@),
    }
}

pub open spec fn entries_bytes(s: Seq<(String, BundleEntry)>) -> Seq<u8>
    decreases s,
{
    if s.len() == 0 {
        Seq::empty()
    } else {
        entries_bytes(s.drop_last()) + entry_bytes(s.last().0@, s.last().1)
    }
}

/// The name of the file that holds the checksum. It is not hashed itself.
pub const CHECKSUM_FILE: &'static str = "checksum.sha256";

/// What is hashed of a bundle.
pub open spec fn bundle_bytes(s: Seq<(Seq<char>, BundleEntry)>) -> Seq<u8>
    decreases s.len(),
{
    if s.len() == 0 {
        Seq::empty()
    } else if s.last().0 == CHECKSUM_FILE@ {
        bundle_bytes(s.drop_last())
    } else {
        bundle_bytes(s.drop_last()) + entry_bytes(s.last().0, s.last().1)
    }
}

fn push_bytes(out: &mut Vec<u8>, b: &[u8])
    ensures
        final(out)@ == old(out)@ + b@,
{
    let ghost before = out@;
    let mut i: usize = 0;
    proof {
        assert(before + b@.take(0) =~= before);
    }
    while i < b.len()
        invariant
            i <= b@.len(),
            out@ == before + b@.take(i as int),
        decreases b@.len() - i,
    {
        out.push(b[i]);
        proof {
            assert(before + b@.take(i + 1) =~= (before + b@.take(i as int)).push(b@[i as int]));
        }
        i = i + 1;
    }
    proof {
        assert(b@.take(i as int) =~= b@);
    }
}

fn push_entry(out: &mut Vec<u8>, name: &str, e: &BundleEntry)
    ensures
        final(out)@ == old(out)@ + entry_bytes(name@, *e),
    decreases e,
{
    let ghost before = out@;
    match e {
        BundleEntry::File(b) => {
            push_bytes(out, name.as_bytes());
            push_bytes(out, b.as_slice());
            proof {
                assert(out@ =~= before + (encode_utf8(name@) + b@));
            }
        },
        BundleEntry::Directory(m) => {
            push_directory(out, m);
        },
    }
}

fn push_directory(out: &mut Vec<u8>, m: &TextMap<BundleEntry>)
    ensures
        final(out)@ == old(out)@ + entries_bytes(m.entries@),
    decreases m,
{
    let ghost before = out@;
    let ghost all = m.entries@;
    let mut i: usize = 0;
    proof {
        assert(all.take(0) =~= Seq::<(String, BundleEntry)>::empty());
        assert(before + entries_bytes(all.take(0)) =~= before);
    }
    while i < m.entries.len()
        invariant
            i <= all.len(),
            all == m.entries@,
            out@ == before + entries_bytes(all.take(i as int)),
        decreases all.len() - i,
    {
        push_entry(out, m.entries[i].0.as_str(), &m.entries[i].1);
        proof {
            let t = all.take(i + 1);
            assert(t.drop_last() =~= all.take(i as int));
            assert(t.last() == all[i as int]);
            assert(out@ =~= before + entries_bytes(t));
        }
        i = i + 1;
    }
    proof {
        assert(all.take(i as int) =~= all);
    }
}

/// The SHA-256 hash of bytes in hexadecimal digits; by `sha2`.
pub uninterp spec fn sha256(bytes: Seq<u8>) -> Seq<char>;

pub open spec fn is_hex(c: char) -> bool {
    ('0' <= c && c <= '9') || ('a' <= c && c <= 'f')
}

/// `sha2::Sha256::digest`, in lower-case hexadecimal digits, named `sha256`.
/// There are 64 of them.
#[verifier::external_body]
fn hash(bytes: &Vec<u8>) -> (r: String)
    ensures
        r@ == sha256(bytes@),
        r@.len() == 64,
        forall|i: int| 0 <= i < r@.len() ==> is_hex(#[trigger] r@[i]),
{
    format!("{:x}", sha2::Sha256::digest(bytes))
}

/// The checksum of a bundle: the hash of all its files but the checksum's own.
/// As text it has no white space at its ends, so that it is found again in the
/// file it is written to.
pub fn compute_bundle_checksum(dir: &TextMap<BundleEntry>) -> (r: String)
    ensures
        r@ == sha256(bundle_bytes(dir@)),
        text::trimmed(r@) == r@,
{
    let mut out: Vec<u8> = Vec::new();
    let ghost all = dir@;
    let mut i: usize = 0;
    proof {
        assert(all.take(0) =~= Seq::<(Seq<char>, BundleEntry)>::empty());
    }
    while i < dir.entries.len()
        invariant
            i <= all.len(),
            all == dir@,
            all.len() == dir.entries@.len(),
            out@ == bundle_bytes(all.take(i as int)),
        decreases all.len() - i,
    {
        proof {
            let t = all.take(i + 1);
            assert(t.drop_last() =~= all.take(i as int));
            assert(t.last() == (dir.entries@[i as int].0@, dir.entries@[i as int].1));
        }
        let name = dir.entries[i].0.as_str();
        if !text::same(name, CHECKSUM_FILE) {
            push_entry(&mut out, name, &dir.entries[i].1);
        }
        i = i + 1;
    }
    proof {
        assert(all.take(i as int) =~= all);
    }
    let h = hash(&out);
    proof {
        assert(is_hex(h@[0]) && is_hex(h@[63]));
    }
    h
}

/// Checks a bundle against the text of its checksum file.
pub fn verify_extracted_checksum(stored: &Option<String>, dir: &TextMap<BundleEntry>) -> (r: Result<
    (),
    ZettelError,
>)
    ensures
        match *stored {
            None => r matches Err(e) && e@ == ErrorView::Validation(
                "bundle missing checksum.sha256"@,
            ),
            Some(s) => {
                let expected = text::trimmed(s@);
                let actual = sha256(bundle_bytes(dir@));
                if expected == actual {
                    r is Ok
                } else {
                    r matches Err(e) && e@ == ErrorView::Validation(
                        "bundle checksum mismatch: expected "@ + expected + ", got "@ + actual,
                    )
                }
            },
        },
{
    let expected = match stored {
        None => {
            return Err(ZettelError::Validation(text::copy("bundle missing checksum.sha256")));
        },
        Some(s) => text::trim(s.as_str()),
    };
    let actual = compute_bundle_checksum(dir);
    if text::same(expected.as_str(), actual.as_str()) {
        return Ok(());
    }
    let mut m = text::cat3("bundle checksum mismatch: expected ", expected.as_str(), ", got ");
    m.append(actual.as_str());
    Err(ZettelError::Validation(m))
}

// ---------------------------------------------------------------------------
// Export
// ---------------------------------------------------------------------------
/// The place of the first node with an identifier.
pub open spec fn node_place(nodes: Seq<NodeConfig>, uuid: Seq<char>) -> Option<int> {
    if exists|i: int| 0 <= i < nodes.len() && (#[trigger] nodes[i]).uuid@ == uuid {
        Some(
            choose|i: int|
                0 <= i < nodes.len() && (#[trigger] nodes[i]).uuid@ == uuid && (forall|j: int|
                    0 <= j < i ==> (#[trigger] nodes[j]).uuid@ != uuid),
        )
    } else {
        None
    }
}

pub open spec fn excluded(heads: Seq<Seq<char>>) -> Seq<Seq<char>> {
    Seq::new(heads.len(), |i: int| "^"@ + heads[i])
}

/// What a bundle for a node leaves out: the commits that the node knows.
pub fn basis_for(nodes: &Vec<NodeConfig>, uuid: &str) -> (r: Result<Vec<String>, ZettelError>)
    ensures
        match r {
            Ok(v) => node_place(nodes@, uuid@) matches Some(i) && texts(v@) == excluded(
                texts(nodes@[i].known_heads@),
            ),
            Err(e) => node_place(nodes@, uuid@) is None && e@ == ErrorView::NotFound(
                "node "@ + uuid@,
            ),
        },
{
    let mut i: usize = 0;
    while i < nodes.len()
        invariant
            i <= nodes@.len(),
            forall|j: int| 0 <= j < i ==> (#[trigger] nodes@[j]).uuid@ != uuid@,
        decreases nodes@.len() - i,
    {
        if text::same(nodes[i].uuid.as_str(), uuid) {
            proof {
                let p = node_place(nodes@, uuid@);
                assert(nodes@[i as int].uuid@ == uuid@);
                assert(p is Some);
                let q = p->0;
                assert(0 <= q < nodes@.len() && nodes@[q].uuid@ == uuid@ && (forall|j: int|
                    0 <= j < q ==> (#[trigger] nodes@[j]).uuid@ != uuid@));
                assert(q == i);
            }
            return Ok(basis_args(&nodes[i].known_heads));
        }
        i = i + 1;
    }
    Err(ZettelError::NotFound(text::cat("node ", uuid)))
}

fn basis_args(heads: &Vec<String>) -> (r: Vec<String>)
    ensures
        texts(r@) == excluded(texts(heads@)),
{
    let ghost goal = excluded(texts(heads@));
    let mut out: Vec<String> = Vec::new();
    let mut i: usize = 0;
    proof {
        assert(texts(out@) =~= goal.take(0));
    }
    while i < heads.len()
        invariant
            i <= heads@.len(),
            goal == excluded(texts(heads@)),
            texts(out@) == goal.take(i as int),
        decreases heads@.len() - i,
    {
        let s = text::cat("^", heads[i].as_str());
        proof {
            text::lemma_texts_push(out@, s);
            assert(goal.take(i + 1) =~= goal.take(i as int).push(goal[i as int]));
        }
        out.push(s);
        i = i + 1;
    }
    proof {
        assert(goal.take(i as int) =~= goal);
    }
    out
}

/// What git is called with to write the objects of a bundle.
pub open spec fn create_args(path: Seq<char>, basis: Seq<Seq<char>>) -> Seq<Seq<char>> {
    let head = seq!["bundle"@, "create"@, path];
    if basis.len() == 0 {
        head.push("--all"@)
    } else {
        (head + basis).push("refs/heads/master"@)
    }
}

/// The arguments of git for a bundle: all references where nothing is left out,
/// else what the main branch has more.
pub fn bundle_args(path: &str, basis: &Vec<String>) -> (r: Vec<String>)
    ensures
        texts(r@) == create_args(path@, texts(basis@)),
{
    let ghost bv = texts(basis@);
    let mut args: Vec<String> = Vec::new();
    args.push(text::copy("bundle"));
    args.push(text::copy("create"));
    args.push(text::copy(path));
    let ghost head = seq!["bundle"@, "create"@, path@];
    proof {
        assert(texts(args@) =~= head);
        assert(head + bv.take(0) =~= head);
    }
    if basis.len() == 0 {
        let s = text::copy("--all");
        proof {
            text::lemma_texts_push(args@, s);
        }
        args.push(s);
        return args;
    }
    let mut i: usize = 0;
    while i < basis.len()
        invariant
            i <= basis@.len(),
            bv == texts(basis@),
            texts(args@) == head + bv.take(i as int),
        decreases basis@.len() - i,
    {
        let s = text::copy(basis[i].as_str());
        proof {
            text::lemma_texts_push(args@, s);
            assert(head + bv.take(i + 1) =~= (head + bv.take(i as int)).push(bv[i as int]));
        }
        args.push(s);
        i = i + 1;
    }
    let s = text::copy("refs/heads/master");
    proof {
        assert(bv.take(i as int) =~= bv);
        text::lemma_texts_push(args@, s);
    }
    args.push(s);
    args
}

/// The version of the form of bundles.
pub const BUNDLE_VERSION: u32 = 1;

/// The manifest of a bundle; without a target it is for every node.
pub fn make_manifest(source: &str, target: &Option<String>, timestamp: &str) -> (r: BundleManifest)
    ensures
        r.source_node@ == source@,
        r.target_node@ == match *target {
            Some(t) => t@,
            None => "*"@,
        },
        r.timestamp@ == timestamp@,
        r.format_version == 1,
{
    BundleManifest {
        source_node: text::copy(source),
        target_node: match target {
            Some(t) => text::copy(t.as_str()),
            None => text::copy("*"),
        },
        timestamp: text::copy(timestamp),
        format_version: BUNDLE_VERSION,
    }
}

/// Whether a file registers a node and goes into a bundle.
pub fn is_node_file(name: &str) -> (r: bool)
    ensures
        r == text::has_suffix(name@, ".toml"@),
{
    text::ends_with(name, ".toml")
}

// ---------------------------------------------------------------------------
// Import
// ---------------------------------------------------------------------------
/// What a command that was run says.
pub fn check_command(success: bool, what: &str, stderr: &str) -> (r: Result<(), ZettelError>)
    ensures
        match r {
            Ok(_) => success,
            Err(e) => !success && e@ == ErrorView::Git(what@ + " failed: "@ + stderr@),
        },
{
    if success {
        return Ok(());
    }
    Err(ZettelError::Git(text::cat3(what, " failed: ", stderr)))
}

/// Whether a failed merge has conflicts that can be resolved.
pub open spec fn is_conflict(stderr: Seq<char>) -> bool {
    text::has_part(stderr, "CONFLICT"@) || text::has_part(stderr, "Automatic merge failed"@)
}

/// Says whether there are conflicts to resolve after a merge was tried.
pub fn judge_merge(success: bool, stderr: &str) -> (r: Result<bool, ZettelError>)
    ensures
        match r {
            Ok(conflicts) => (success || is_conflict(stderr@)) && conflicts == !success,
            Err(e) => !success && !is_conflict(stderr@) && e@ == ErrorView::Git(
                "git merge failed: "@ + stderr@,
            ),
        },
{
    if success {
        return Ok(false);
    }
    if text::contains_part(stderr, "CONFLICT") || text::contains_part(
        stderr,
        "Automatic merge failed",
    ) {
        return Ok(true);
    }
    Err(ZettelError::Git(text::cat("git merge failed: ", stderr)))
}

/// Decides whether the registration of a node is taken over: where its name has
/// the extension, with something before it, and it is not there yet.
pub fn takes_registration(name: &str, present: bool) -> (r: bool)
    ensures
        r == (text::has_suffix(name@, ".toml"@) && name@.len() > 5 && !present),
{
    if !text::ends_with(name, ".toml") {
        return false;
    }
    let cs = text::chars(name);
    cs.len() > 5 && !present
}

/// What is done next in the import of a bundle that was unpacked and checked.
#[derive(Debug)]
pub enum ImportStep {
    /// Bring the objects of the bundle into the repository.
    Unbundle,
    /// Fetch its references.
    Fetch,
    /// Merge its main branch.
    Merge,
    /// Resolve the conflicts that the merge left.
    ResolveConflicts,
    /// Take over registrations of nodes, drop the references, index anew.
    Finish { conflicts_resolved: usize },
}

/// What came of a step.
#[derive(Debug)]
pub enum ImportEvent {
    /// A command ran.
    Ran { success: bool, stderr: String },
    /// So many conflicts were resolved.
    Resolved(usize),
}

/// The first step: a bundle without objects goes to the merge at once.
pub fn first_step(has_objects: bool) -> (r: ImportStep)
    ensures
        r == if has_objects {
            ImportStep::Unbundle
        } else {
            ImportStep::Merge
        },
{
    if has_objects {
        ImportStep::Unbundle
    } else {
        ImportStep::Merge
    }
}

/// The step after another, or the error that ends the import; nothing where the
/// event is not one of the step.
pub open spec fn step_after(step: ImportStep, event: ImportEvent) -> Option<
    Result<ImportStep, ErrorView>,
> {
    match (step, event) {
        (ImportStep::Unbundle, ImportEvent::Ran { success, stderr }) => Some(
            if success {
                Ok(ImportStep::Fetch)
            } else {
                Err(ErrorView::Git("git bundle unbundle"@ + " failed: "@ + stderr@))
            },
        ),
        (ImportStep::Fetch, ImportEvent::Ran { success, stderr }) => Some(
            if success {
                Ok(ImportStep::Merge)
            } else {
                Err(ErrorView::Git("git fetch from bundle"@ + " failed: "@ + stderr@))
            },
        ),
        (ImportStep::Merge, ImportEvent::Ran { success, stderr }) => Some(
            if success {
                Ok(ImportStep::Finish { conflicts_resolved: 0 })
            } else if is_conflict(stderr@) {
                Ok(ImportStep::ResolveConflicts)
            } else {
                Err(ErrorView::Git("git merge failed: "@ + stderr@))
            },
        ),
        (ImportStep::ResolveConflicts, ImportEvent::Resolved(n)) => Some(
            Ok(ImportStep::Finish { conflicts_resolved: n }),
        ),
        _ => None,
    }
}

/// Decides what comes after a step.
pub fn next_step(step: ImportStep, event: ImportEvent) -> (r: Result<ImportStep, ZettelError>)
    requires
        step_after(step, event) is Some,
    ensures
        match r {
            Ok(s) => step_after(step, event) == Some(Ok::<ImportStep, ErrorView>(s)),
            Err(e) => step_after(step, event) == Some(Err::<ImportStep, ErrorView>(e@)),
        },
{
    match (step, event) {
        (ImportStep::Unbundle, ImportEvent::Ran { success, stderr }) => match check_command(
            success,
            "git bundle unbundle",
            stderr.as_str(),
        ) {
            Ok(_) => Ok(ImportStep::Fetch),
            Err(e) => Err(e),
        },
        (ImportStep::Fetch, ImportEvent::Ran { success, stderr }) => match check_command(
            success,
            "git fetch from bundle",
            stderr.as_str(),
        ) {
            Ok(_) => Ok(ImportStep::Merge),
            Err(e) => Err(e),
        },
        (ImportStep::Merge, ImportEvent::Ran { success, stderr }) => match judge_merge(
            success,
            stderr.as_str(),
        ) {
            Ok(true) => Ok(ImportStep::ResolveConflicts),
            Ok(false) => Ok(ImportStep::Finish { conflicts_resolved: 0 }),
            Err(e) => Err(e),
        },
        (ImportStep::ResolveConflicts, ImportEvent::Resolved(n)) => Ok(
            ImportStep::Finish { conflicts_resolved: n },
        ),
        (other, _) => Ok(other),
    }
}

/// The report on an import.
pub fn import_report(conflicts_resolved: usize) -> (r: SyncReport)
    ensures
        r.direction@ == "bundle-import"@,
        r.commits_transferred == 0,
        r.conflicts_resolved == conflicts_resolved,
        r.resurrected == 0,
{
    SyncReport {
        direction: text::copy("bundle-import"),
        commits_transferred: 0,
        conflicts_resolved,
        resurrected: 0,
    }
}

// ---------------------------------------------------------------------------
// Laws
// ---------------------------------------------------------------------------
/// The checksum does not depend on the order in which a directory gives its
/// entries.
pub proof fn law_checksum_order(
    dir: TextMap<BundleEntry>,
    a: Seq<char>,
    x: BundleEntry,
    b: Seq<char>,
    y: BundleEntry,
)
    requires
        dir.sorted(),
        a != b,
    ensures
        bundle_bytes(put(put(dir@, a, x), b, y)) == bundle_bytes(put(put(dir@, b, y), a, x)),
{
    textmap::law_put_commutes(dir@, a, x, b, y);
}

proof fn lemma_bytes_insert(s: Seq<(Seq<char>, BundleEntry)>, p: int, e: BundleEntry)
    requires
        0 <= p <= s.len(),
    ensures
        bundle_bytes(s.insert(p, (CHECKSUM_FILE@, e))) == bundle_bytes(s),
    decreases s.len(),
{
    let n = (CHECKSUM_FILE@, e);
    let t = s.insert(p, n);
    if p == s.len() {
        assert(t.drop_last() =~= s);
    } else {
        assert(t.drop_last() =~= s.drop_last().insert(p, n));
        assert(t.last() == s.last());
        lemma_bytes_insert(s.drop_last(), p, e);
    }
}

proof fn lemma_bytes_update(s: Seq<(Seq<char>, BundleEntry)>, p: int, e: BundleEntry)
    requires
        0 <= p < s.len(),
        s[p].0 == CHECKSUM_FILE@,
    ensures
        bundle_bytes(s.update(p, (CHECKSUM_FILE@, e))) == bundle_bytes(s),
    decreases s.len(),
{
    let n = (CHECKSUM_FILE@, e);
    let t = s.update(p, n);
    if p == s.len() - 1 {
        assert(t.drop_last() =~= s.drop_last());
    } else {
        assert(t.drop_last() =~= s.drop_last().update(p, n));
        assert(t.last() == s.last());
        lemma_bytes_update(s.drop_last(), p, e);
    }
}

/// Writing the checksum into the bundle does not change the checksum.
pub proof fn law_checksum_excluded(dir: TextMap<BundleEntry>, e: BundleEntry)
    ensures
        bundle_bytes(put(dir@, CHECKSUM_FILE@, e)) == bundle_bytes(dir@),
{
    let p = textmap::place(dir@, CHECKSUM_FILE@);
    textmap::lemma_place(dir@, CHECKSUM_FILE@);
    if p < dir@.len() && dir@[p].0 == CHECKSUM_FILE@ {
        lemma_bytes_update(dir@, p, e);
    } else {
        lemma_bytes_insert(dir@, p, e);
    }
}

} // verus!
