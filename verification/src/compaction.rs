//! What compaction keeps and drops of the temporary files that merging leaves.
use crate::docs::{self, changes_in, mergeable, nothing_waits, saved_changes};
use crate::error::ZettelError;
use crate::text::{self, texts};
use crate::types::{CompactionReport, NodeConfig, NodeStatus};
use vstd::prelude::*;

verus! {

broadcast use vstd::string::group_string_axioms;

// ---------------------------------------------------------------------------
// Commits
// ---------------------------------------------------------------------------
pub open spec fn is_hex(c: char) -> bool {
    ('0' <= c && c <= '9') || ('a' <= c && c <= 'f') || ('A' <= c && c <= 'F')
}

/// The full identifier of the commit that a text names, if it can be one; by
/// `git2`.
pub uninterp spec fn commit_named(s: Seq<char>) -> Option<Seq<char>>;

/// `git2::Oid::from_str`, as text, named `commit_named`. There is one only for
/// one to forty hexadecimal digits.
#[verifier::external_body]
fn read_oid(s: &str) -> (r: Option<String>)
    ensures
        match r {
            Some(x) => commit_named(s@) == Some(x@) && 1 <= s@.len() <= 40 && (forall|i: int|
                0 <= i < s@.len() ==> is_hex(#[trigger] s@[i])),
            None => commit_named(s@) is None,
        },
{
    git2::Oid::from_str(s).ok().map(|oid| oid.to_string())
}

/// The commits that the active nodes were last seen at.
pub open spec fn heads_of(nodes: Seq<NodeConfig>) -> Seq<Seq<char>>
    decreases nodes.len(),
{
    if nodes.len() == 0 {
        Seq::empty()
    } else {
        let n = nodes.last();
        let p = heads_of(nodes.drop_last());
        if n.status == NodeStatus::Active && n.known_heads@.len() > 0 && commit_named(
            n.known_heads@[0]@,
        ) is Some {
            p.push(commit_named(n.known_heads@[0]@)->0)
        } else {
            p
        }
    }
}

/// The commits whose common ancestor all active nodes have: the first known
/// head of each, where it names a commit. Stale and retired nodes do not count.
pub fn active_heads(nodes: &Vec<NodeConfig>) -> (r: Vec<String>)
    ensures
        texts(r@) == heads_of(nodes@),
{
    let mut out: Vec<String> = Vec::new();
    let mut i: usize = 0;
    proof {
        assert(nodes@.take(0) =~= Seq::<NodeConfig>::empty());
        assert(texts(out@) =~= Seq::<Seq<char>>::empty());
    }
    while i < nodes.len()
        invariant
            i <= nodes@.len(),
            texts(out@) == heads_of(nodes@.take(i as int)),
        decreases nodes@.len() - i,
    {
        proof {
            let t = nodes@.take(i + 1);
            assert(t.drop_last() =~= nodes@.take(i as int));
            assert(t.last() == nodes@[i as int]);
        }
        let n = &nodes[i];
        if n.status == NodeStatus::Active && n.known_heads.len() > 0 {
            if let Some(x) = read_oid(n.known_heads[0].as_str()) {
                proof {
                    text::lemma_texts_push(out@, x);
                }
                out.push(x);
            }
        }
        i = i + 1;
    }
    proof {
        assert(nodes@.take(i as int) =~= nodes@);
    }
    out
}

// ---------------------------------------------------------------------------
// Temporary files
// ---------------------------------------------------------------------------
/// What the name of a temporary file says.
#[derive(Debug, Clone)]
pub struct CrdtTempName {
    pub commit: String,
    pub zettel_id: Option<String>,
    pub is_frontmatter: bool,
}

pub struct TempView {
    pub commit: Seq<char>,
    pub zettel_id: Option<Seq<char>>,
    pub is_frontmatter: bool,
}

impl View for CrdtTempName {
    type V = TempView;

    open spec fn view(&self) -> TempView {
        TempView {
            commit: self.commit@,
            zettel_id: text::opt_text(self.zettel_id),
            is_frontmatter: self.is_frontmatter,
        }
    }
}

pub open spec fn without_suffix(s: Seq<char>, suffix: Seq<char>) -> Seq<char> {
    if text::has_suffix(s, suffix) {
        s.take(s.len() - suffix.len())
    } else {
        s
    }
}

/// Reads the name of a temporary file: `{commit}_{id}.crdt`,
/// `{commit}_{id}_fm.crdt`, `{commit}.crdt` or `{commit}`.
pub open spec fn temp_name(name: Seq<char>) -> Option<TempView> {
    let stem = without_suffix(name, ".crdt"@);
    let at = text::until(stem, '_');
    let commit = stem.take(at);
    match commit_named(commit) {
        None => None,
        Some(c) => if at == stem.len() {
            Some(TempView { commit: c, zettel_id: None, is_frontmatter: false })
        } else {
            let rest = stem.skip(at + 1);
            Some(
                TempView {
                    commit: c,
                    zettel_id: Some(without_suffix(rest, "_fm"@)),
                    is_frontmatter: text::has_suffix(rest, "_fm"@),
                },
            )
        },
    }
}

fn cut_suffix(s: &str, suffix: &str) -> (r: String)
    ensures
        r@ == without_suffix(s@, suffix@),
{
    if text::ends_with(s, suffix) {
        let cs = text::chars(s);
        let n = text::chars(suffix).len();
        let r = text::slice(&cs, 0, cs.len() - n);
        proof {
            assert(r@ =~= without_suffix(s@, suffix@));
        }
        r
    } else {
        text::copy(s)
    }
}

pub fn parse_crdt_temp_name(name: &str) -> (r: Option<CrdtTempName>)
    ensures
        match r {
            Some(t) => temp_name(name@) == Some(t@),
            None => temp_name(name@) is None,
        },
{
    let stem = cut_suffix(name, ".crdt");
    let cs = text::chars(stem.as_str());
    let at = text::find_char(&cs, '_', 0);
    proof {
        assert(cs@.skip(0) =~= stem@);
        text::lemma_until(stem@, '_');
    }
    let part = text::slice(&cs, 0, at);
    proof {
        assert(part@ =~= stem@.take(at as int));
    }
    let commit = match read_oid(part.as_str()) {
        Some(c) => c,
        None => {
            return None;
        },
    };
    if at == cs.len() {
        return Some(CrdtTempName { commit, zettel_id: None, is_frontmatter: false });
    }
    let rest = text::slice(&cs, at + 1, cs.len());
    proof {
        assert(rest@ =~= stem@.skip(at + 1));
    }
    let is_frontmatter = text::ends_with(rest.as_str(), "_fm");
    let zettel_id = cut_suffix(rest.as_str(), "_fm");
    Some(CrdtTempName { commit, zettel_id: Some(zettel_id), is_frontmatter })
}

/// A zettel's part: its identifier, and whether the front matter is meant.
pub type TempKey = (Seq<char>, bool);

/// What a file in the directory of temporary files belongs to, if to anything.
pub open spec fn temp_key(name: Seq<char>) -> Option<TempKey> {
    if name == ".gitkeep"@ {
        None
    } else {
        match temp_name(name) {
            Some(t) => match t.zettel_id {
                Some(id) => Some((id, t.is_frontmatter)),
                None => None,
            },
            None => None,
        }
    }
}

/// The files that belong to a zettel's part.
pub open spec fn members(names: Seq<Seq<char>>, key: TempKey) -> Seq<Seq<char>>
    decreases names.len(),
{
    if names.len() == 0 {
        Seq::empty()
    } else if temp_key(names.last()) == Some(key) {
        members(names.drop_last(), key).push(names.last())
    } else {
        members(names.drop_last(), key)
    }
}

/// Files that become one.
#[derive(Debug, Clone)]
pub struct CrdtGroup {
    pub zettel_id: String,
    pub is_frontmatter: bool,
    pub files: Vec<String>,
}

pub open spec fn group_view(g: CrdtGroup) -> (TempKey, Seq<Seq<char>>) {
    ((g.zettel_id@, g.is_frontmatter), texts(g.files@))
}

pub open spec fn groups_view(s: Seq<CrdtGroup>) -> Seq<(TempKey, Seq<Seq<char>>)> {
    Seq::new(s.len(), |i: int| group_view(s[i]))
}

pub open spec fn seen(names: Seq<Seq<char>>, n: int, key: TempKey) -> bool {
    exists|i: int| 0 <= i < n && temp_key(#[trigger] names[i]) == Some(key)
}

/// The groups of files that become one each: those of a zettel's part, where
/// there are two or more. They come in the order of their first files.
pub open spec fn groups(names: Seq<Seq<char>>, n: int) -> Seq<(TempKey, Seq<Seq<char>>)>
    decreases n,
{
    if n <= 0 {
        Seq::empty()
    } else {
        let p = groups(names, n - 1);
        match temp_key(names[n - 1]) {
            None => p,
            Some(k) => if seen(names, n - 1, k) || members(names, k).len() < 2 {
                p
            } else {
                p.push((k, members(names, k)))
            },
        }
    }
}

fn read_key(name: &str) -> (r: Option<(String, bool)>)
    ensures
        match r {
            Some((id, fm)) => temp_key(name@) == Some((id@, fm)),
            None => temp_key(name@) is None,
        },
{
    if text::same(name, ".gitkeep") {
        return None;
    }
    match parse_crdt_temp_name(name) {
        Some(t) => match t.zettel_id {
            Some(id) => Some((id, t.is_frontmatter)),
            None => None,
        },
        None => None,
    }
}

fn collect_members(names: &Vec<String>, id: &str, fm: bool) -> (r: Vec<String>)
    ensures
        texts(r@) == members(texts(names@), (id@, fm)),
{
    let ghost nv = texts(names@);
    let mut out: Vec<String> = Vec::new();
    let mut i: usize = 0;
    proof {
        assert(nv.take(0) =~= Seq::<Seq<char>>::empty());
        assert(texts(out@) =~= Seq::<Seq<char>>::empty());
    }
    while i < names.len()
        invariant
            i <= names@.len(),
            nv == texts(names@),
            texts(out@) == members(nv.take(i as int), (id@, fm)),
        decreases names@.len() - i,
    {
        proof {
            let t = nv.take(i + 1);
            assert(t.drop_last() =~= nv.take(i as int));
            assert(t.last() == names@[i as int]@);
        }
        if let Some((k, f)) = read_key(names[i].as_str()) {
            if f == fm && text::same(k.as_str(), id) {
                let s = text::copy(names[i].as_str());
                proof {
                    text::lemma_texts_push(out@, s);
                }
                out.push(s);
            }
        }
        i = i + 1;
    }
    proof {
        assert(nv.take(i as int) =~= nv);
    }
    out
}

fn is_seen(names: &Vec<String>, n: usize, id: &str, fm: bool) -> (r: bool)
    requires
        n <= names@.len(),
    ensures
        r == seen(texts(names@), n as int, (id@, fm)),
{
    let ghost nv = texts(names@);
    let mut i: usize = 0;
    while i < n
        invariant
            i <= n <= names@.len(),
            nv == texts(names@),
            forall|k: int| 0 <= k < i ==> temp_key(#[trigger] nv[k]) != Some((id@, fm)),
        decreases n - i,
    {
        proof {
            assert(nv[i as int] == names@[i as int]@);
        }
        if let Some((k, f)) = read_key(names[i].as_str()) {
            if f == fm && text::same(k.as_str(), id) {
                return true;
            }
        }
        i = i + 1;
    }
    false
}

/// Groups the temporary files by what they belong to. Front matter and body of
/// a zettel are apart.
pub fn group_files(names: &Vec<String>) -> (r: Vec<CrdtGroup>)
    ensures
        groups_view(r@) == groups(texts(names@), names@.len() as int),
{
    let ghost nv = texts(names@);
    let mut out: Vec<CrdtGroup> = Vec::new();
    let mut i: usize = 0;
    proof {
        assert(groups_view(out@) =~= Seq::<(TempKey, Seq<Seq<char>>)>::empty());
    }
    while i < names.len()
        invariant
            i <= names@.len(),
            nv == texts(names@),
            groups_view(out@) == groups(nv, i as int),
        decreases names@.len() - i,
    {
        proof {
            assert(nv[i as int] == names@[i as int]@);
        }
        if let Some((id, fm)) = read_key(names[i].as_str()) {
            if !is_seen(names, i, id.as_str(), fm) {
                let files = collect_members(names, id.as_str(), fm);
                proof {
                    assert(texts(files@).len() == files@.len());
                }
                if files.len() >= 2 {
                    let g = CrdtGroup { zettel_id: id, is_frontmatter: fm, files };
                    let ghost before = out@;
                    out.push(g);
                    proof {
                        assert(groups_view(out@) =~= groups_view(before).push(group_view(g)));
                    }
                }
            }
        }
        i = i + 1;
    }
    out
}

pub open spec fn merged_name(id: Seq<char>, is_frontmatter: bool) -> Seq<char> {
    "compacted_"@ + id + (if is_frontmatter {
        "_fm"@
    } else {
        ""@
    }) + ".crdt"@
}

/// The name of the file that the files of a group become.
pub fn compacted_name(zettel_id: &str, is_frontmatter: bool) -> (r: String)
    ensures
        r@ == merged_name(zettel_id@, is_frontmatter),
{
    let suffix = if is_frontmatter {
        "_fm"
    } else {
        ""
    };
    let mut s = text::cat3("compacted_", zettel_id, suffix);
    s.append(".crdt");
    s
}

/// The files that belong to a zettel, to its front matter or its body.
pub open spec fn files_of_zettel(names: Seq<Seq<char>>, id: Seq<char>) -> Seq<Seq<char>>
    decreases names.len(),
{
    if names.len() == 0 {
        Seq::empty()
    } else if temp_name(names.last()) matches Some(t) && t.zettel_id == Some(id) {
        files_of_zettel(names.drop_last(), id).push(names.last())
    } else {
        files_of_zettel(names.drop_last(), id)
    }
}

/// The files of one zettel that become one; none where there are fewer than
/// two.
pub fn zettel_files(names: &Vec<String>, zettel_id: &str) -> (r: Vec<String>)
    ensures
        ({
            let all = files_of_zettel(texts(names@), zettel_id@);
            texts(r@) == if all.len() < 2 {
                Seq::empty()
            } else {
                all
            }
        }),
{
    let ghost nv = texts(names@);
    let mut out: Vec<String> = Vec::new();
    let mut i: usize = 0;
    proof {
        assert(nv.take(0) =~= Seq::<Seq<char>>::empty());
        assert(texts(out@) =~= Seq::<Seq<char>>::empty());
    }
    while i < names.len()
        invariant
            i <= names@.len(),
            nv == texts(names@),
            texts(out@) == files_of_zettel(nv.take(i as int), zettel_id@),
        decreases names@.len() - i,
    {
        proof {
            let t = nv.take(i + 1);
            assert(t.drop_last() =~= nv.take(i as int));
            assert(t.last() == names@[i as int]@);
        }
        if let Some(t) = parse_crdt_temp_name(names[i].as_str()) {
            if let Some(id) = t.zettel_id {
                if text::same(id.as_str(), zettel_id) {
                    let s = text::copy(names[i].as_str());
                    proof {
                        text::lemma_texts_push(out@, s);
                    }
                    out.push(s);
                }
            }
        }
        i = i + 1;
    }
    proof {
        assert(nv.take(i as int) =~= nv);
        assert(texts(out@).len() == out@.len());
    }
    if out.len() < 2 {
        let none: Vec<String> = Vec::new();
        proof {
            assert(texts(none@) =~= Seq::<Seq<char>>::empty());
        }
        return none;
    }
    out
}

/// The commits that temporary files belong to; a file that belongs to none is
/// left alone. A file goes when its commit is an ancestor of the shared head.
pub fn temp_commit(name: &str) -> (r: Option<String>)
    ensures
        match r {
            Some(c) => name@ != ".gitkeep"@ && (temp_name(name@) matches Some(t) && t.commit == c@),
            None => name@ == ".gitkeep"@ || temp_name(name@) is None,
        },
{
    if text::same(name, ".gitkeep") {
        return None;
    }
    match parse_crdt_temp_name(name) {
        Some(t) => Some(t.commit),
        None => None,
    }
}

// ---------------------------------------------------------------------------
// Merging documents
// ---------------------------------------------------------------------------
/// The changes of all documents that some files hold.
pub open spec fn all_changes(blobs: Seq<Vec<u8>>) -> Set<int>
    decreases blobs.len(),
{
    if blobs.len() == 0 {
        Set::empty()
    } else {
        match saved_changes(blobs.last()@) {
            Some(c) => all_changes(blobs.drop_last()).union(c),
            None => all_changes(blobs.drop_last()),
        }
    }
}

/// Whether the documents that some files hold can be merged one after the other.
pub open spec fn all_merge(blobs: Seq<Vec<u8>>) -> bool
    decreases blobs.len(),
{
    blobs.len() == 0 || (all_merge(blobs.drop_last()) && match saved_changes(blobs.last()@) {
        Some(c) => mergeable(all_changes(blobs.drop_last()), c),
        None => true,
    })
}

proof fn lemma_stops(blobs: Seq<Vec<u8>>, k: int)
    requires
        0 <= k <= blobs.len(),
        !all_merge(blobs.take(k)),
    ensures
        !all_merge(blobs),
    decreases blobs.len(),
{
    if k < blobs.len() {
        assert(blobs.drop_last().take(k) =~= blobs.take(k));
        lemma_stops(blobs.drop_last(), k);
    } else {
        assert(blobs.take(k) =~= blobs);
    }
}

/// Merges the documents that some files hold into one, which has the changes of
/// all of them. Files that hold no document are passed over. It fails where two
/// of the documents do not merge.
pub fn merge_saved(blobs: &Vec<Vec<u8>>) -> (r: Result<Vec<u8>, ZettelError>)
    ensures
        match r {
            Ok(b) => all_merge(blobs@) && saved_changes(b@) == Some(all_changes(blobs@)),
            Err(e) => !all_merge(blobs@) && e@ is Automerge,
        },
{
    let mut doc = docs::new_doc();
    let mut i: usize = 0;
    proof {
        assert(blobs@.take(0) =~= Seq::<Vec<u8>>::empty());
    }
    while i < blobs.len()
        invariant
            i <= blobs@.len(),
            nothing_waits(doc),
            all_merge(blobs@.take(i as int)),
            changes_in(doc) == all_changes(blobs@.take(i as int)),
        decreases blobs@.len() - i,
    {
        proof {
            let t = blobs@.take(i + 1);
            assert(t.drop_last() =~= blobs@.take(i as int));
            assert(t.last() == blobs@[i as int]);
        }
        if let Some(other) = docs::load(&blobs[i]) {
            let mut other = other;
            match docs::merge(&mut doc, &mut other) {
                Ok(_) => {},
                Err(e) => {
                    proof {
                        lemma_stops(blobs@, i + 1);
                    }
                    return Err(docs::failure(e));
                },
            }
        }
        i = i + 1;
    }
    proof {
        assert(blobs@.take(i as int) =~= blobs@);
    }
    Ok(docs::save(&mut doc))
}

// ---------------------------------------------------------------------------
// The course of a compaction
// ---------------------------------------------------------------------------
pub const BYTES_PER_MB: u64 = 1048576;

/// Whether the temporary files take less room than the threshold.
pub fn below_threshold(bytes: u64, threshold_mb: u32) -> (r: bool)
    ensures
        r == (bytes < threshold_mb * 1048576),
{
    bytes < threshold_mb as u64 * BYTES_PER_MB
}

/// What a compaction does.
#[derive(Debug, Clone, Copy, PartialEq, Eq, Structural)]
pub enum CompactPlan {
    /// There is too little to compact.
    Skip,
    Run { backup: bool },
}

/// Decides about a compaction: it is skipped below the threshold, unless it is
/// forced.
pub fn plan_compaction(force: bool, skip_backup: bool, bytes: u64, threshold_mb: u32) -> (r:
    CompactPlan)
    ensures
        r == if !force && bytes < threshold_mb * 1048576 {
            CompactPlan::Skip
        } else {
            CompactPlan::Run { backup: !skip_backup }
        },
{
    if !force && below_threshold(bytes, threshold_mb) {
        return CompactPlan::Skip;
    }
    CompactPlan::Run { backup: !skip_backup }
}

/// A step of a compaction.
#[derive(Debug, Clone, Copy, PartialEq, Eq, Structural)]
pub enum CompactStep {
    /// Write a backup.
    Backup,
    /// Remove the temporary files that every device has seen.
    CleanUp,
    /// Merge the documents of each note.
    MergeDocuments,
    /// Let git collect its garbage.
    CollectGarbage,
    Finish,
}

/// Whether a step changes files of the repository.
pub open spec fn touches_files(step: CompactStep) -> bool {
    step == CompactStep::CleanUp || step == CompactStep::MergeDocuments || step
        == CompactStep::CollectGarbage
}

/// The first step of a compaction that runs.
pub fn first_compact_step(backup: bool) -> (r: CompactStep)
    ensures
        r == if backup {
            CompactStep::Backup
        } else {
            CompactStep::CleanUp
        },
{
    if backup {
        CompactStep::Backup
    } else {
        CompactStep::CleanUp
    }
}

/// The step after one that succeeded.
pub open spec fn compact_step_after(step: CompactStep) -> CompactStep {
    match step {
        CompactStep::Backup => CompactStep::CleanUp,
        CompactStep::CleanUp => CompactStep::MergeDocuments,
        CompactStep::MergeDocuments => CompactStep::CollectGarbage,
        CompactStep::CollectGarbage => CompactStep::Finish,
        CompactStep::Finish => CompactStep::Finish,
    }
}

/// Decides what comes after a step; one that failed ends the compaction with its
/// error.
pub fn next_compact_step(step: CompactStep, outcome: Result<(), ZettelError>) -> (r: Result<
    CompactStep,
    ZettelError,
>)
    ensures
        match outcome {
            Ok(_) => r == Ok::<CompactStep, ZettelError>(compact_step_after(step)),
            Err(e) => r == Err::<CompactStep, ZettelError>(e),
        },
{
    match outcome {
        Ok(_) => Ok(
            match step {
                CompactStep::Backup => CompactStep::CleanUp,
                CompactStep::CleanUp => CompactStep::MergeDocuments,
                CompactStep::MergeDocuments => CompactStep::CollectGarbage,
                CompactStep::CollectGarbage => CompactStep::Finish,
                CompactStep::Finish => CompactStep::Finish,
            },
        ),
        Err(e) => Err(e),
    }
}

/// The steps that a compaction goes through, as long as each succeeds.
pub open spec fn compact_steps(step: CompactStep, n: nat) -> CompactStep
    decreases n,
{
    if n == 0 {
        step
    } else {
        compact_step_after(compact_steps(step, (n - 1) as nat))
    }
}

/// A compaction with a backup touches a file only after the backup succeeded: the
/// backup comes first and touches none, and comes only once.
pub proof fn law_backup_comes_first(n: nat)
    ensures
        compact_steps(CompactStep::Backup, 0) == CompactStep::Backup,
        !touches_files(CompactStep::Backup),
        n > 0 ==> compact_steps(CompactStep::Backup, n) != CompactStep::Backup,
    decreases n,
{
    if n > 0 {
        law_backup_comes_first((n - 1) as nat);
    }
}

/// What was measured of a repository: the room and the number of the temporary
/// files, and the room that git takes.
#[derive(Debug, Clone, Copy, PartialEq, Eq, Structural)]
pub struct Measure {
    pub crdt_bytes: u64,
    pub crdt_files: usize,
    pub repo_bytes: u64,
}

/// The report on a compaction that was skipped: nothing has changed.
pub fn skipped_report(m: Measure) -> (r: CompactionReport)
    ensures
        r == (CompactionReport {
            files_removed: 0,
            crdt_docs_compacted: 0,
            gc_success: true,
            crdt_temp_bytes_before: m.crdt_bytes,
            crdt_temp_bytes_after: m.crdt_bytes,
            crdt_temp_files_before: m.crdt_files,
            crdt_temp_files_after: m.crdt_files,
            repo_bytes_before: m.repo_bytes,
            repo_bytes_after: m.repo_bytes,
            backup_path: None,
        }),
{
    CompactionReport {
        files_removed: 0,
        crdt_docs_compacted: 0,
        gc_success: true,
        crdt_temp_bytes_before: m.crdt_bytes,
        crdt_temp_bytes_after: m.crdt_bytes,
        crdt_temp_files_before: m.crdt_files,
        crdt_temp_files_after: m.crdt_files,
        repo_bytes_before: m.repo_bytes,
        repo_bytes_after: m.repo_bytes,
        backup_path: None,
    }
}

/// What a compaction did.
#[derive(Debug)]
pub struct Compacted {
    pub files_removed: usize,
    pub docs_compacted: usize,
    pub gc_success: bool,
    pub backup_path: Option<String>,
}

/// The report of a compaction, from what was measured before it and after it.
pub fn finished_report(before: Measure, after: Measure, done: Compacted) -> (r: CompactionReport)
    ensures
        r == (CompactionReport {
            files_removed: done.files_removed,
            crdt_docs_compacted: done.docs_compacted,
            gc_success: done.gc_success,
            crdt_temp_bytes_before: before.crdt_bytes,
            crdt_temp_bytes_after: after.crdt_bytes,
            crdt_temp_files_before: before.crdt_files,
            crdt_temp_files_after: after.crdt_files,
            repo_bytes_before: before.repo_bytes,
            repo_bytes_after: after.repo_bytes,
            backup_path: done.backup_path,
        }),
{
    CompactionReport {
        files_removed: done.files_removed,
        crdt_docs_compacted: done.docs_compacted,
        gc_success: done.gc_success,
        crdt_temp_bytes_before: before.crdt_bytes,
        crdt_temp_bytes_after: after.crdt_bytes,
        crdt_temp_files_before: before.crdt_files,
        crdt_temp_files_after: after.crdt_files,
        repo_bytes_before: before.repo_bytes,
        repo_bytes_after: after.repo_bytes,
        backup_path: done.backup_path,
    }
}

// ---------------------------------------------------------------------------
// Laws
// ---------------------------------------------------------------------------
/// The names of temporary files are read as they were written: the identifier
/// and the part come back, and the commit if the name starts with one, whatever
/// the identifier, as long as it does not end like the mark of the front matter.
pub proof fn law_temp_name_round_trip(
    commit: Seq<char>,
    id: Seq<char>,
    is_frontmatter: bool,
)
    requires
        !commit.contains('_'),
        is_frontmatter || !text::has_suffix(id, "_fm"@),
    ensures
        temp_name(
            commit + "_"@ + id + (if is_frontmatter {
                "_fm"@
            } else {
                ""@
            }) + ".crdt"@,
        ) == match commit_named(commit) {
            Some(full) => Some(TempView { commit: full, zettel_id: Some(id), is_frontmatter }),
            None => None,
        },
{
    reveal_strlit("_");
    reveal_strlit("_fm");
    reveal_strlit("");
    reveal_strlit(".crdt");
    let mark = if is_frontmatter {
        "_fm"@
    } else {
        ""@
    };
    let rest = id + mark;
    let stem = commit + "_"@ + rest;
    let name = commit + "_"@ + id + mark + ".crdt"@;
    assert(name =~= stem + ".crdt"@);
    assert(name.skip(name.len() - 5) =~= ".crdt"@);
    assert(without_suffix(name, ".crdt"@) =~= stem);
    text::lemma_until(stem, '_');
    let at = text::until(stem, '_');
    assert(stem[commit.len() as int] == '_');
    assert(at == commit.len()) by {
        if at < commit.len() {
            assert(commit[at] == stem[at]);
            assert(commit.contains('_'));
        }
    }
    assert(stem.take(at) =~= commit);
    assert(stem.skip(at + 1) =~= rest);
    if is_frontmatter {
        assert(rest.skip(rest.len() - 3) =~= "_fm"@);
        assert(without_suffix(rest, "_fm"@) =~= id);
    } else {
        assert(rest =~= id);
    }
}

proof fn lemma_members_belong(names: Seq<Seq<char>>, key: TempKey, name: Seq<char>)
    ensures
        members(names, key).contains(name) == (names.contains(name) && temp_key(name) == Some(key)),
    decreases names.len(),
{
    let r = members(names, key);
    if names.len() > 0 {
        let d = names.drop_last();
        let p = members(d, key);
        lemma_members_belong(d, key, name);
        assert(names =~= d.push(names.last()));
        if d.contains(name) {
            assert(names[d.index_of(name)] == name);
        }
        if names.contains(name) && !d.contains(name) {
            let i = names.index_of(name);
            assert(i == names.len() - 1) by {
                if i < d.len() {
                    assert(d[i] == name);
                }
            }
        }
        if p.contains(name) {
            assert(r[p.index_of(name)] == name);
        }
        if r.contains(name) && !p.contains(name) {
            let i = r.index_of(name);
            if i < p.len() {
                assert(p[i] == name);
            }
        }
        if names.last() == name && temp_key(name) == Some(key) {
            assert(r[r.len() - 1] == name);
        }
    }
}

/// A file is in a group of its own part alone, and only where its name says so.
pub proof fn law_groups_apart(names: Seq<Seq<char>>, n: int, i: int, name: Seq<char>)
    requires
        0 <= n <= names.len(),
        0 <= i < groups(names, n).len(),
        groups(names, n)[i].1.contains(name),
    ensures
        temp_key(name) == Some(groups(names, n)[i].0),
        names.contains(name),
        groups(names, n)[i].1.len() >= 2,
    decreases n,
{
    if n > 0 {
        let p = groups(names, n - 1);
        if i < p.len() {
            law_groups_apart(names, n - 1, i, name);
        } else {
            let k = groups(names, n)[i].0;
            lemma_members_belong(names, k, name);
        }
    }
}

/// No change of a document is lost when files become one.
pub proof fn law_no_change_lost(blobs: Seq<Vec<u8>>, i: int)
    requires
        0 <= i < blobs.len(),
    ensures
        saved_changes(blobs[i]@) matches Some(c) ==> c.subset_of(all_changes(blobs)),
    decreases blobs.len(),
{
    if i < blobs.len() - 1 {
        assert(blobs.drop_last()[i] == blobs[i]);
        law_no_change_lost(blobs.drop_last(), i);
    }
}

} // verus!
