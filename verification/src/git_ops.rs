//! The rules of the repository: which paths are allowed, which version a
//! repository has, which files are notes, and what merging and renaming need.
use crate::error::{ErrorView, ZettelError};
use crate::hlc::{self, extract_hlc, extracted_hlc, number_error_text, Hlc};
use crate::parser::{self, file_stem, rewritten};
use crate::patterns::links_found;
use crate::sql_engine::files_view;
use crate::text::{self, texts};
use crate::types::{ConflictFile, DiffKind, RenameReport};
use vstd::prelude::*;

verus! {

broadcast use vstd::string::group_string_axioms;

// ---------------------------------------------------------------------------
// Paths
// ---------------------------------------------------------------------------
/// Why a path is refused by its text, if it is.
pub open spec fn path_refusal(path: Seq<char>) -> Option<Seq<char>> {
    if path.len() > 0 && path[0] == '/' {
        Some("absolute paths not allowed: "@ + path)
    } else if text::split(path, '/').contains(".."@) {
        Some("path escapes repository root: "@ + path)
    } else {
        None
    }
}

/// What is at a path of the repository.
#[derive(Debug, Clone, Copy, PartialEq, Eq, Structural)]
pub enum PathState {
    Missing,
    Symlink,
    /// A file or directory that lies outside the repository.
    Outside,
    Inside,
}

/// Refuses absolute paths and paths with `..` among their parts.
pub fn check_relative(relative: &str) -> (r: Result<(), ZettelError>)
    ensures
        match path_refusal(relative@) {
            Some(m) => r matches Err(e) && e@ == ErrorView::InvalidPath(m),
            None => r is Ok,
        },
{
    let cs = text::chars(relative);
    if cs.len() > 0 && cs[0] == '/' {
        return Err(ZettelError::InvalidPath(text::cat("absolute paths not allowed: ", relative)));
    }
    let parts = text::split_on(relative, '/');
    if text::contains_text(&parts, "..") {
        return Err(ZettelError::InvalidPath(text::cat("path escapes repository root: ", relative)));
    }
    Ok(())
}

/// Refuses paths that lead out of the repository, by their text or by what is
/// there.
pub fn validate_path(relative: &str, state: PathState) -> (r: Result<(), ZettelError>)
    ensures
        match path_refusal(relative@) {
            Some(m) => r matches Err(e) && e@ == ErrorView::InvalidPath(m),
            None => match state {
                PathState::Symlink => r matches Err(e) && e@ == ErrorView::InvalidPath(
                    "symlinks not allowed: "@ + relative@,
                ),
                PathState::Outside => r matches Err(e) && e@ == ErrorView::InvalidPath(
                    "path escapes repository root: "@ + relative@,
                ),
                _ => r is Ok,
            },
        },
{
    match check_relative(relative) {
        Ok(_) => {},
        Err(e) => {
            return Err(e);
        },
    }
    match state {
        PathState::Symlink => Err(
            ZettelError::InvalidPath(text::cat("symlinks not allowed: ", relative)),
        ),
        PathState::Outside => Err(
            ZettelError::InvalidPath(text::cat("path escapes repository root: ", relative)),
        ),
        PathState::Missing => Ok(()),
        PathState::Inside => Ok(()),
    }
}

/// Whether a path is that of a note.
pub open spec fn is_note_path(path: Seq<char>) -> bool {
    text::has_prefix(path, "zettelkasten/"@) && text::has_suffix(path, ".md"@)
}

pub fn is_zettel_path(path: &str) -> (r: bool)
    ensures
        r == is_note_path(path@),
{
    text::starts_with(path, "zettelkasten/") && text::ends_with(path, ".md")
}

/// The paths of notes among some paths.
pub open spec fn note_paths(paths: Seq<Seq<char>>) -> Seq<Seq<char>>
    decreases paths.len(),
{
    if paths.len() == 0 {
        Seq::empty()
    } else if is_note_path(paths.last()) {
        note_paths(paths.drop_last()).push(paths.last())
    } else {
        note_paths(paths.drop_last())
    }
}

/// The notes among the files of a commit, in their order.
pub fn list_zettels(paths: &Vec<String>) -> (r: Vec<String>)
    ensures
        texts(r@) == note_paths(texts(paths@)),
{
    let ghost all = texts(paths@);
    let mut out: Vec<String> = Vec::new();
    let mut i: usize = 0;
    proof {
        assert(all.take(0) =~= Seq::<Seq<char>>::empty());
        assert(texts(out@) =~= Seq::<Seq<char>>::empty());
    }
    while i < paths.len()
        invariant
            i <= paths@.len(),
            all == texts(paths@),
            texts(out@) == note_paths(all.take(i as int)),
        decreases paths@.len() - i,
    {
        proof {
            let t = all.take(i + 1);
            assert(t.drop_last() =~= all.take(i as int));
            assert(t.last() == paths@[i as int]@);
        }
        if is_zettel_path(paths[i].as_str()) {
            let s = text::copy(paths[i].as_str());
            proof {
                text::lemma_texts_push(out@, s);
            }
            out.push(s);
        }
        i = i + 1;
    }
    proof {
        assert(all.take(i as int) =~= all);
    }
    out
}

// ---------------------------------------------------------------------------
// The version of a repository
// ---------------------------------------------------------------------------
/// The version of the form of repositories.
pub const CURRENT_FORMAT_VERSION: u32 = 1;

pub const VERSION_FILE: &'static str = ".zetteldb-version";

pub const CONFIG_FILE: &'static str = ".zetteldb.toml";

/// What opening a repository has to do about its version.
#[derive(Debug, Clone, Copy, PartialEq, Eq, Structural)]
pub enum VersionPlan {
    Current,
    /// Write the version file, which older repositories lack.
    AddVersionFile,
}

/// Reads the version file, if there is one; without it a repository has the
/// version zero.
pub open spec fn version_plan(content: Option<Seq<char>>) -> Result<VersionPlan, ErrorView> {
    let version = match content {
        Some(s) => text::parsed_unsigned(text::trimmed(s), u32::MAX as int),
        None => Ok(0),
    };
    match version {
        Err(e) => Err(ErrorView::Parse("bad version file: "@ + number_error_text(e))),
        Ok(v) => if v > CURRENT_FORMAT_VERSION {
            Err(ErrorView::VersionMismatch { repo: v as u32, driver: CURRENT_FORMAT_VERSION })
        } else if v < CURRENT_FORMAT_VERSION {
            Ok(VersionPlan::AddVersionFile)
        } else {
            Ok(VersionPlan::Current)
        },
    }
}

/// Refuses repositories that are newer than the library, and says whether an
/// older one has to be migrated.
pub fn check_format_version(content: &Option<String>) -> (r: Result<VersionPlan, ZettelError>)
    ensures
        match r {
            Ok(p) => version_plan(text::opt_text(*content)) == Ok::<VersionPlan, ErrorView>(p),
            Err(e) => version_plan(text::opt_text(*content)) == Err::<VersionPlan, ErrorView>(e@),
        },
{
    let version: u64 = match content {
        Some(s) => {
            let t = text::trim(s.as_str());
            match text::parse_unsigned(t.as_str(), u32::MAX as u64) {
                Ok(v) => {
                    proof {
                        text::lemma_parsed_bound(t@, u32::MAX as int);
                    }
                    v
                },
                Err(e) => {
                    return Err(
                        ZettelError::Parse(text::cat("bad version file: ", hlc::number_error(e))),
                    );
                },
            }
        },
        None => 0,
    };
    if version > CURRENT_FORMAT_VERSION as u64 {
        return Err(
            ZettelError::VersionMismatch { repo: version as u32, driver: CURRENT_FORMAT_VERSION },
        );
    }
    if version < CURRENT_FORMAT_VERSION as u64 {
        return Ok(VersionPlan::AddVersionFile);
    }
    Ok(VersionPlan::Current)
}

/// What `.gitignore` has to hold, if it has to change: the index is not kept in
/// the repository.
pub fn gitignore_text(existing: &str) -> (r: Option<String>)
    ensures
        if text::has_part(existing@, ".zdb/"@) {
            r is None
        } else {
            r matches Some(s) && s@ == if existing@.len() == 0 {
                ".zdb/\n"@
            } else {
                existing@ + "\n.zdb/\n"@
            }
        },
{
    if text::contains_part(existing, ".zdb/") {
        return None;
    }
    if existing.is_empty() {
        return Some(text::copy(".zdb/\n"));
    }
    Some(text::cat(existing, "\n.zdb/\n"))
}

// ---------------------------------------------------------------------------
// Differences between commits
// ---------------------------------------------------------------------------
/// What git says happened to a file.
#[derive(Debug, Clone, Copy, PartialEq, Eq, Structural)]
pub enum FileStatus {
    Added,
    Modified,
    Deleted,
    Renamed,
    Other,
}

pub open spec fn kind_of(s: FileStatus) -> Option<DiffKind> {
    match s {
        FileStatus::Added => Some(DiffKind::Added),
        FileStatus::Modified => Some(DiffKind::Modified),
        FileStatus::Deleted => Some(DiffKind::Deleted),
        FileStatus::Renamed => Some(DiffKind::Modified),
        FileStatus::Other => None,
    }
}

pub open spec fn changes_view(s: Seq<(DiffKind, String)>) -> Seq<(DiffKind, Seq<char>)> {
    Seq::new(s.len(), |i: int| (s[i].0, s[i].1@))
}

/// The changes of notes among the changes of files.
pub open spec fn note_changes(s: Seq<(FileStatus, String)>) -> Seq<(DiffKind, Seq<char>)>
    decreases s.len(),
{
    if s.len() == 0 {
        Seq::empty()
    } else {
        let p = note_changes(s.drop_last());
        match kind_of(s.last().0) {
            Some(k) => if is_note_path(s.last().1@) {
                p.push((k, s.last().1@))
            } else {
                p
            },
            None => p,
        }
    }
}

/// The changes of notes between two commits; a rename counts as a change.
pub fn diff_paths(files: &Vec<(FileStatus, String)>) -> (r: Vec<(DiffKind, String)>)
    ensures
        changes_view(r@) == note_changes(files@),
{
    let mut out: Vec<(DiffKind, String)> = Vec::new();
    let mut i: usize = 0;
    proof {
        assert(files@.take(0) =~= Seq::<(FileStatus, String)>::empty());
        assert(changes_view(out@) =~= Seq::<(DiffKind, Seq<char>)>::empty());
    }
    while i < files.len()
        invariant
            i <= files@.len(),
            changes_view(out@) == note_changes(files@.take(i as int)),
        decreases files@.len() - i,
    {
        proof {
            let t = files@.take(i + 1);
            assert(t.drop_last() =~= files@.take(i as int));
            assert(t.last() == files@[i as int]);
        }
        if is_zettel_path(files[i].1.as_str()) {
            let kind = match files[i].0 {
                FileStatus::Added => Some(DiffKind::Added),
                FileStatus::Modified => Some(DiffKind::Modified),
                FileStatus::Deleted => Some(DiffKind::Deleted),
                FileStatus::Renamed => Some(DiffKind::Modified),
                FileStatus::Other => None,
            };
            if let Some(k) = kind {
                let c = (k, text::copy(files[i].1.as_str()));
                let ghost before = out@;
                out.push(c);
                proof {
                    assert(changes_view(out@) =~= changes_view(before).push((k, c.1@)));
                }
            }
        }
        i = i + 1;
    }
    proof {
        assert(files@.take(i as int) =~= files@);
    }
    out
}

// ---------------------------------------------------------------------------
// Merging
// ---------------------------------------------------------------------------
/// How a fetched branch is taken over.
#[derive(Debug, Clone, Copy, PartialEq, Eq, Structural)]
pub enum MergePlan {
    Nothing,
    FastForward,
    Merge,
}

pub fn plan_merge(up_to_date: bool, fast_forward: bool) -> (r: MergePlan)
    ensures
        r == if up_to_date {
            MergePlan::Nothing
        } else if fast_forward {
            MergePlan::FastForward
        } else {
            MergePlan::Merge
        },
{
    if up_to_date {
        MergePlan::Nothing
    } else if fast_forward {
        MergePlan::FastForward
    } else {
        MergePlan::Merge
    }
}

/// One side of a conflict: the path of the file, if it is text, and its
/// content.
#[derive(Debug, Clone)]
pub struct ConflictSide {
    pub path: Option<String>,
    pub content: String,
}

/// The path of a conflict: ours where our side has the file, else theirs.
pub open spec fn conflict_path(ours: Option<ConflictSide>, theirs: Option<ConflictSide>) -> Seq<
    char,
> {
    let side = match ours {
        Some(s) => Some(s),
        None => theirs,
    };
    match side {
        Some(s) => match s.path {
            Some(p) => p@,
            None => ""@,
        },
        None => ""@,
    }
}

pub open spec fn side_content(s: Option<ConflictSide>) -> Seq<char> {
    match s {
        Some(x) => x.content@,
        None => ""@,
    }
}

fn side_text(s: &Option<ConflictSide>) -> (r: String)
    ensures
        r@ == side_content(*s),
{
    match s {
        Some(x) => text::copy(x.content.as_str()),
        None => text::copy(""),
    }
}

fn side_path(s: &ConflictSide) -> (r: String)
    ensures
        r@ == match s.path {
            Some(p) => p@,
            None => ""@,
        },
{
    match &s.path {
        Some(p) => text::copy(p.as_str()),
        None => text::copy(""),
    }
}

/// The path of a conflict, for which the histories are searched.
pub fn path_of_conflict(ours: &Option<ConflictSide>, theirs: &Option<ConflictSide>) -> (r: String)
    ensures
        r@ == conflict_path(*ours, *theirs),
{
    match ours {
        Some(s) => side_path(s),
        None => match theirs {
            Some(s) => side_path(s),
            None => text::copy(""),
        },
    }
}

/// The conflict that two sides and their time stamps make. A side that deleted
/// the file counts as empty.
pub fn make_conflict(
    ancestor: Option<String>,
    ours: &Option<ConflictSide>,
    theirs: &Option<ConflictSide>,
    ours_hlc: Option<Hlc>,
    theirs_hlc: Option<Hlc>,
) -> (r: ConflictFile)
    ensures
        r.path@ == conflict_path(*ours, *theirs),
        r.ancestor == ancestor,
        r.ours@ == side_content(*ours),
        r.theirs@ == side_content(*theirs),
        r.ours_hlc == ours_hlc,
        r.theirs_hlc == theirs_hlc,
{
    ConflictFile {
        path: path_of_conflict(ours, theirs),
        ancestor,
        ours: side_text(ours),
        theirs: side_text(theirs),
        ours_hlc,
        theirs_hlc,
    }
}

/// A commit of a history: the paths that it changed, and its message. A commit
/// that cannot be read has neither.
#[derive(Debug, Clone)]
pub struct HistoryEntry {
    pub paths: Vec<String>,
    pub message: String,
}

/// So many commits are searched for the last change of a path.
pub const MAX_REVWALK_DEPTH: usize = 100;

/// Whether a commit changed a path.
pub open spec fn touches(e: Option<HistoryEntry>, path: Seq<char>) -> bool {
    match e {
        Some(c) => texts(c.paths@).contains(path),
        None => false,
    }
}

/// The first commit from the place `i` on that changed a path.
pub open spec fn last_change(h: Seq<Option<HistoryEntry>>, path: Seq<char>, i: int) -> Option<int>
    decreases h.len() - i,
{
    if i < 0 || i >= h.len() || i >= MAX_REVWALK_DEPTH {
        None
    } else if touches(h[i], path) {
        Some(i)
    } else {
        last_change(h, path, i + 1)
    }
}

/// The time stamp of the last commit of a history that changed a path; none
/// where that commit has no time stamp, or lies too deep.
pub fn find_hlc_for_path(history: &Vec<Option<HistoryEntry>>, path: &str) -> (r: Option<Hlc>)
    ensures
        match last_change(history@, path@, 0) {
            Some(i) => match r {
                Some(h) => extracted_hlc(history@[i]->0.message@) == Some(h.parts()),
                None => extracted_hlc(history@[i]->0.message@) is None,
            },
            None => r is None,
        },
{
    let mut i: usize = 0;
    while i < history.len()
        invariant
            i <= history@.len(),
            last_change(history@, path@, i as int) == last_change(history@, path@, 0),
        decreases history@.len() - i,
    {
        if i >= MAX_REVWALK_DEPTH {
            return None;
        }
        if let Some(c) = &history[i] {
            if text::contains_text(&c.paths, path) {
                return extract_hlc(c.message.as_str());
            }
        }
        i = i + 1;
    }
    None
}

// ---------------------------------------------------------------------------
// Renaming
// ---------------------------------------------------------------------------
/// Decides whether a file can be moved.
pub fn check_rename(old_path: &str, new_path: &str, old_there: bool, new_there: bool) -> (r: Result<
    (),
    ZettelError,
>)
    ensures
        if !old_there {
            r matches Err(e) && e@ == ErrorView::NotFound(old_path@)
        } else if new_there {
            r matches Err(e) && e@ == ErrorView::InvalidPath(
                "target path already exists: "@ + new_path@,
            )
        } else {
            r is Ok
        },
{
    if !old_there {
        return Err(ZettelError::NotFound(text::copy(old_path)));
    }
    if new_there {
        return Err(
            ZettelError::InvalidPath(text::cat("target path already exists: ", new_path)),
        );
    }
    Ok(())
}

/// A path without the endings `.md`.
pub open spec fn without_endings(path: Seq<char>) -> Seq<char>
    decreases path.len(),
{
    if text::has_suffix(path, ".md"@) && ".md"@.len() > 0 {
        without_endings(path.take(path.len() - ".md"@.len()))
    } else {
        path
    }
}

/// The target that links name a path by.
pub fn link_target(path: &str) -> (r: String)
    ensures
        r@ == without_endings(path@),
{
    let cs = text::chars(path);
    let mut n: usize = cs.len();
    proof {
        reveal_strlit(".md");
        assert(path@.take(n as int) =~= path@);
    }
    while n >= 3 && cs[n - 3] == '.' && cs[n - 2] == 'm' && cs[n - 1] == 'd'
        invariant
            n <= cs@.len(),
            cs@ == path@,
            ".md"@.len() == 3,
            ".md"@ == seq!['.', 'm', 'd'],
            without_endings(path@.take(n as int)) == without_endings(path@),
        decreases n,
    {
        proof {
            let t = path@.take(n as int);
            assert(t.skip(n - 3) =~= ".md"@);
            assert(t.take(n - 3) =~= path@.take(n - 3));
        }
        n = n - 3;
    }
    let r = text::slice(&cs, 0, n);
    proof {
        let t = path@.take(n as int);
        assert(r@ =~= t);
        if text::has_suffix(t, ".md"@) {
            let k = t.skip(n - 3);
            assert(k[0] == t[n - 3] && k[1] == t[n - 2] && k[2] == t[n - 1]);
        }
    }
    r
}

/// The identifier that links may name a path by.
pub open spec fn bare_id(path: Seq<char>) -> Seq<char> {
    match file_stem(path) {
        Some(s) => s,
        None => ""@,
    }
}

pub fn old_id(path: &str) -> (r: String)
    ensures
        r@ == bare_id(path@),
{
    match parser::extract_id_from_path(path) {
        Some(s) => s,
        None => text::copy(""),
    }
}

/// Whether the links to a path's identifier are looked up besides those to the
/// path.
pub fn looks_up_id(path: &str) -> (r: bool)
    ensures
        r == (bare_id(path@).len() > 0 && bare_id(path@) != path@),
{
    let id = old_id(path);
    !id.as_str().is_empty() && !text::same(id.as_str(), path)
}

pub open spec fn has_id(l: Seq<(Seq<char>, Seq<char>)>, id: Seq<char>) -> bool {
    exists|i: int| 0 <= i < l.len() && (#[trigger] l[i]).0 == id
}

/// The notes that link to a path or to its identifier, each once.
pub open spec fn joined(a: Seq<(Seq<char>, Seq<char>)>, b: Seq<(Seq<char>, Seq<char>)>) -> Seq<
    (Seq<char>, Seq<char>),
>
    decreases b.len(),
{
    if b.len() == 0 {
        a
    } else {
        let p = joined(a, b.drop_last());
        if has_id(p, b.last().0) {
            p
        } else {
            p.push(b.last())
        }
    }
}

fn contains_id(l: &Vec<(String, String)>, id: &str) -> (r: bool)
    ensures
        r == has_id(files_view(l@), id@),
{
    let ghost v = files_view(l@);
    let mut i: usize = 0;
    while i < l.len()
        invariant
            i <= l@.len(),
            v == files_view(l@),
            forall|j: int| 0 <= j < i ==> (#[trigger] v[j]).0 != id@,
        decreases l@.len() - i,
    {
        proof {
            assert(v[i as int].0 == l@[i as int].0@);
        }
        if text::same(l[i].0.as_str(), id) {
            return true;
        }
        i = i + 1;
    }
    false
}

/// Joins the notes that link to a path (identifier and path of each) with those
/// that link to its identifier.
pub fn join_backlinks(by_path: Vec<(String, String)>, by_id: &Vec<(String, String)>) -> (r: Vec<
    (String, String),
>)
    ensures
        files_view(r@) == joined(files_view(by_path@), files_view(by_id@)),
{
    let ghost a = files_view(by_path@);
    let ghost b = files_view(by_id@);
    let mut out = by_path;
    let mut i: usize = 0;
    proof {
        assert(b.take(0) =~= Seq::<(Seq<char>, Seq<char>)>::empty());
    }
    while i < by_id.len()
        invariant
            i <= by_id@.len(),
            b == files_view(by_id@),
            files_view(out@) == joined(a, b.take(i as int)),
        decreases by_id@.len() - i,
    {
        proof {
            let t = b.take(i + 1);
            assert(t.drop_last() =~= b.take(i as int));
            assert(t.last() == (by_id@[i as int].0@, by_id@[i as int].1@));
        }
        if !contains_id(&out, by_id[i].0.as_str()) {
            let e = (text::copy(by_id[i].0.as_str()), text::copy(by_id[i].1.as_str()));
            let ghost before = out@;
            out.push(e);
            proof {
                assert(files_view(out@) =~= files_view(before).push((e.0@, e.1@)));
            }
        }
        i = i + 1;
    }
    proof {
        assert(b.take(i as int) =~= b);
    }
    out
}

/// A text with the links to one target pointed at another.
pub open spec fn relinked(content: Seq<char>, old_target: Seq<char>, new_target: Seq<char>) -> Seq<
    char,
> {
    rewritten(content, links_found(content), 0, old_target, new_target)
}

/// A note's text after a note that it links to was moved: links by path and
/// links by identifier name the new path.
pub open spec fn relinked_note(content: Seq<char>, old_path: Seq<char>, new_path: Seq<char>) -> Seq<
    char,
> {
    let a = relinked(content, without_endings(old_path), without_endings(new_path));
    if bare_id(old_path).len() > 0 {
        relinked(a, bare_id(old_path), without_endings(new_path))
    } else {
        a
    }
}

pub fn rewrite_note(content: &str, old_path: &str, new_path: &str) -> (r: String)
    ensures
        r@ == relinked_note(content@, old_path@, new_path@),
{
    let old_target = link_target(old_path);
    let new_target = link_target(new_path);
    let a = parser::rewrite_wikilinks(content, old_target.as_str(), new_target.as_str());
    let id = old_id(old_path);
    if id.as_str().is_empty() {
        return a;
    }
    parser::rewrite_wikilinks(a.as_str(), id.as_str(), new_target.as_str())
}

/// The notes that change when a note is moved, with their new texts.
pub open spec fn rename_writes(
    notes: Seq<(Seq<char>, Seq<char>)>,
    old_path: Seq<char>,
    new_path: Seq<char>,
) -> Seq<(Seq<char>, Seq<char>)>
    decreases notes.len(),
{
    if notes.len() == 0 {
        Seq::empty()
    } else {
        let p = rename_writes(notes.drop_last(), old_path, new_path);
        let t = relinked_note(notes.last().1, old_path, new_path);
        if t == notes.last().1 {
            p
        } else {
            p.push((notes.last().0, t))
        }
    }
}

pub open spec fn first_parts(l: Seq<(Seq<char>, Seq<char>)>) -> Seq<Seq<char>> {
    Seq::new(l.len(), |i: int| l[i].0)
}

/// Plans the rewriting of notes (path and text of each) that link to a note
/// that is moved. The report names those that change.
pub fn rename_zettel(notes: &Vec<(String, String)>, old_path: &str, new_path: &str) -> (r: (
    Vec<(String, String)>,
    RenameReport,
))
    ensures
        files_view(r.0@) == rename_writes(files_view(notes@), old_path@, new_path@),
        texts(r.1.updated@) == first_parts(files_view(r.0@)),
        r.1.unresolvable@.len() == 0,
{
    let ghost all = files_view(notes@);
    let mut writes: Vec<(String, String)> = Vec::new();
    let mut updated: Vec<String> = Vec::new();
    let mut i: usize = 0;
    proof {
        assert(all.take(0) =~= Seq::<(Seq<char>, Seq<char>)>::empty());
        assert(files_view(writes@) =~= Seq::<(Seq<char>, Seq<char>)>::empty());
        assert(texts(updated@) =~= first_parts(files_view(writes@)));
    }
    while i < notes.len()
        invariant
            i <= notes@.len(),
            all == files_view(notes@),
            files_view(writes@) == rename_writes(all.take(i as int), old_path@, new_path@),
            texts(updated@) == first_parts(files_view(writes@)),
        decreases notes@.len() - i,
    {
        proof {
            let t = all.take(i + 1);
            assert(t.drop_last() =~= all.take(i as int));
            assert(t.last() == (notes@[i as int].0@, notes@[i as int].1@));
        }
        let content = notes[i].1.as_str();
        let t = rewrite_note(content, old_path, new_path);
        if !text::same(t.as_str(), content) {
            let p = text::copy(notes[i].0.as_str());
            let q = text::copy(notes[i].0.as_str());
            let ghost before = writes@;
            let ghost tv = t@;
            proof {
                text::lemma_texts_push(updated@, q);
            }
            updated.push(q);
            writes.push((p, t));
            proof {
                assert(files_view(writes@) =~= files_view(before).push((p@, tv)));
                assert(first_parts(files_view(writes@)) =~= first_parts(files_view(before)).push(
                    p@,
                ));
            }
        }
        i = i + 1;
    }
    proof {
        assert(all.take(i as int) =~= all);
    }
    (writes, RenameReport { updated, unresolvable: Vec::new() })
}

// ---------------------------------------------------------------------------
// Laws
// ---------------------------------------------------------------------------
/// A path that is accepted has no part that leads upwards.
pub proof fn law_accepted_path(path: Seq<char>, i: int)
    requires
        path_refusal(path) is None,
        0 <= i < text::split(path, '/').len(),
    ensures
        text::split(path, '/')[i] != ".."@,
        path.len() > 0 ==> path[0] != '/',
{
    if text::split(path, '/')[i] == ".."@ {
        assert(text::split(path, '/').contains(".."@));
    }
}

/// Only changes of notes are reported.
pub proof fn law_only_notes(s: Seq<(FileStatus, String)>, i: int)
    requires
        0 <= i < note_changes(s).len(),
    ensures
        is_note_path(note_changes(s)[i].1),
    decreases s.len(),
{
    if s.len() > 0 {
        let p = note_changes(s.drop_last());
        if i < p.len() {
            law_only_notes(s.drop_last(), i);
        }
    }
}

/// Every change of a note is reported.
pub proof fn law_every_note(s: Seq<(FileStatus, String)>, j: int)
    requires
        0 <= j < s.len(),
        is_note_path(s[j].1@),
        kind_of(s[j].0) is Some,
    ensures
        note_changes(s).contains((kind_of(s[j].0)->0, s[j].1@)),
    decreases s.len(),
{
    let r = note_changes(s);
    let e = (kind_of(s[j].0)->0, s[j].1@);
    if j == s.len() - 1 {
        assert(r[r.len() - 1] == e);
    } else {
        let d = s.drop_last();
        assert(d[j] == s[j]);
        law_every_note(d, j);
        let k = note_changes(d).index_of(e);
        assert(r[k] == e);
    }
}

} // verus!
