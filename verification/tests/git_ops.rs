//! What the repository decides: paths, versions, changes, conflicts, renames.
use zdb_core::error::ZettelError;
use zdb_core::git_ops::{
    check_format_version, check_relative, check_rename, diff_paths, find_hlc_for_path,
    gitignore_text, is_zettel_path, join_backlinks, link_target, list_zettels, looks_up_id,
    make_conflict, old_id, plan_merge, rename_zettel, rewrite_note, validate_path, ConflictSide,
    FileStatus, HistoryEntry, MergePlan, PathState, VersionPlan, MAX_REVWALK_DEPTH,
};
use zdb_core::hlc::{append_hlc_trailer, Hlc};
use zdb_core::types::DiffKind;

fn strings(v: &[&str]) -> Vec<String> {
    v.iter().map(|s| s.to_string()).collect()
}

fn commit(paths: &[&str], message: &str) -> Option<HistoryEntry> {
    Some(HistoryEntry {
        paths: strings(paths),
        message: message.to_string(),
    })
}

fn side(path: &str, content: &str) -> Option<ConflictSide> {
    Some(ConflictSide {
        path: Some(path.to_string()),
        content: content.to_string(),
    })
}

fn stamp(wall_ms: u64, counter: u32, node: &str) -> Hlc {
    Hlc {
        wall_ms,
        counter,
        node: node.to_string(),
    }
}

#[test]
fn init_creates_gitignore() {
    let content = gitignore_text("").unwrap();
    assert!(content.contains(".zdb/"));
}

#[test]
fn list_zettels_finds_md_files() {
    let paths = strings(&[
        "reference/c.md",
        "zettelkasten/.gitkeep",
        "zettelkasten/a.md",
        "zettelkasten/sub/b.md",
    ]);
    let zettels = list_zettels(&paths);
    assert_eq!(zettels.len(), 2);
    assert!(zettels.iter().any(|p| p == "zettelkasten/a.md"));
    assert!(zettels.iter().any(|p| p == "zettelkasten/sub/b.md"));
}

#[test]
fn open_succeeds_on_matching_version() {
    let plan = check_format_version(&Some("1\n".to_string())).unwrap();
    assert!(matches!(plan, VersionPlan::Current));
}

#[test]
fn open_rejects_higher_version() {
    let err = check_format_version(&Some("999".to_string()))
        .err()
        .expect("should fail");
    assert!(err.message().contains("version mismatch"));
}

#[test]
fn open_auto_upgrades_pre_version_repo() {
    let plan = check_format_version(&None).unwrap();
    assert!(matches!(plan, VersionPlan::AddVersionFile));
}

#[test]
fn a_version_is_a_number() {
    match check_format_version(&Some("one".to_string())) {
        Err(ZettelError::Parse(m)) => {
            assert_eq!(m, "bad version file: invalid digit found in string")
        }
        _ => panic!("no number"),
    }
}

#[test]
fn merge_already_up_to_date() {
    assert!(matches!(plan_merge(true, false), MergePlan::Nothing));
    assert!(matches!(plan_merge(false, true), MergePlan::FastForward));
    assert!(matches!(plan_merge(false, false), MergePlan::Merge));
}

#[test]
fn merge_detects_conflicts() {
    let ours = side("zettelkasten/note.md", "version B");
    let theirs = side("zettelkasten/note.md", "version A");
    let c = make_conflict(None, &ours, &theirs, None, None);
    assert_eq!(c.path, "zettelkasten/note.md");
    assert!(c.ours.contains("version B"));
    assert!(c.theirs.contains("version A"));
}

#[test]
fn merge_conflicts_populate_hlc() {
    let ours = side("zettelkasten/note.md", "version B");
    let theirs = side("zettelkasten/note.md", "version A");
    let msg_a = append_hlc_trailer("A edits", &stamp(5000, 0, "aaa"));
    let msg_b = append_hlc_trailer("B edits", &stamp(6000, 0, "bbb"));
    let path = "zettelkasten/note.md";
    let ours_hlc = find_hlc_for_path(&vec![commit(&[path], &msg_b)], path);
    let theirs_hlc = find_hlc_for_path(&vec![commit(&[path], &msg_a)], path);
    let c = make_conflict(None, &ours, &theirs, ours_hlc, theirs_hlc);
    assert_eq!(c.ours_hlc.as_ref().unwrap().wall_ms, 6000);
    assert_eq!(c.theirs_hlc.as_ref().unwrap().wall_ms, 5000);
}

#[test]
fn a_side_that_deleted_the_file_is_empty() {
    let theirs = side("zettelkasten/note.md", "kept");
    let c = make_conflict(Some("old".to_string()), &None, &theirs, None, None);
    assert_eq!(c.path, "zettelkasten/note.md");
    assert_eq!(c.ours, "");
    assert_eq!(c.theirs, "kept");
    assert_eq!(c.ancestor.as_deref(), Some("old"));
}

#[test]
fn symlink_read_rejected() {
    let err = validate_path("zettelkasten/link.md", PathState::Symlink).unwrap_err();
    assert!(matches!(err, ZettelError::InvalidPath(_)));
}

#[test]
fn dotdot_path_rejected() {
    let err = check_relative("zettelkasten/../../etc/passwd").unwrap_err();
    assert!(matches!(err, ZettelError::InvalidPath(_)));
}

#[test]
fn normal_path_accepted() {
    assert!(validate_path("zettelkasten/normal.md", PathState::Missing).is_ok());
    assert!(validate_path("zettelkasten/normal.md", PathState::Inside).is_ok());
}

#[test]
fn absolute_path_write_rejected() {
    let err = check_relative("/etc/passwd").unwrap_err();
    assert!(matches!(err, ZettelError::InvalidPath(_)));
}

#[test]
fn absolute_path_read_rejected() {
    let err = validate_path("/etc/passwd", PathState::Inside).unwrap_err();
    assert!(matches!(err, ZettelError::InvalidPath(_)));
}

#[test]
fn a_path_that_leads_outside_is_refused() {
    let err = validate_path("link/a.md", PathState::Outside).unwrap_err();
    assert_eq!(
        err.message(),
        "invalid path: path escapes repository root: link/a.md"
    );
}

#[test]
fn diff_paths_detects_added_modified_deleted() {
    let files = vec![
        (
            FileStatus::Modified,
            "zettelkasten/20240101000000.md".to_string(),
        ),
        (
            FileStatus::Deleted,
            "zettelkasten/20240102000000.md".to_string(),
        ),
        (
            FileStatus::Added,
            "zettelkasten/20240103000000.md".to_string(),
        ),
    ];
    let changes = diff_paths(&files);
    assert_eq!(changes.len(), 3);
    let modified = changes.iter().find(|(_, p)| p.contains("20240101")).unwrap();
    assert_eq!(modified.0, DiffKind::Modified);
    let deleted = changes.iter().find(|(_, p)| p.contains("20240102")).unwrap();
    assert_eq!(deleted.0, DiffKind::Deleted);
    let added = changes.iter().find(|(_, p)| p.contains("20240103")).unwrap();
    assert_eq!(added.0, DiffKind::Added);
}

#[test]
fn diff_paths_ignores_non_zettel_files() {
    let files = vec![
        (FileStatus::Added, "README.md".to_string()),
        (
            FileStatus::Added,
            "zettelkasten/20240101000000.md".to_string(),
        ),
    ];
    let changes = diff_paths(&files);
    assert_eq!(changes.len(), 1);
    assert!(changes[0].1.contains("20240101"));
}

#[test]
fn a_renamed_file_counts_as_modified() {
    let files = vec![
        (FileStatus::Renamed, "zettelkasten/a.md".to_string()),
        (FileStatus::Other, "zettelkasten/b.md".to_string()),
    ];
    let changes = diff_paths(&files);
    assert_eq!(changes.len(), 1);
    assert_eq!(changes[0].0, DiffKind::Modified);
}

#[test]
fn find_hlc_for_path_returns_hlc_when_trailer_present() {
    let msg = append_hlc_trailer("add zettel", &stamp(1000, 1, "abc"));
    let history = vec![commit(&["zettelkasten/20260226120000.md"], &msg)];
    let result = find_hlc_for_path(&history, "zettelkasten/20260226120000.md");
    assert!(result.is_some());
    assert_eq!(result.unwrap().wall_ms, 1000);
}

#[test]
fn find_hlc_for_path_returns_none_without_trailer() {
    let history = vec![commit(&["zettelkasten/20260226120000.md"], "add zettel")];
    let result = find_hlc_for_path(&history, "zettelkasten/20260226120000.md");
    assert!(result.is_none());
}

#[test]
fn find_hlc_for_path_returns_none_for_untouched_path() {
    let msg = append_hlc_trailer("add zettel", &stamp(2000, 0, "xyz"));
    let history = vec![commit(&["zettelkasten/20260226120000.md"], &msg)];
    let result = find_hlc_for_path(&history, "zettelkasten/99990101000000.md");
    assert!(result.is_none());
}

#[test]
fn the_last_change_decides_and_may_lie_too_deep() {
    let msg = append_hlc_trailer("add", &stamp(7, 0, "n"));
    let mut history = vec![None, commit(&["b"], "x"), commit(&["a"], &msg)];
    assert_eq!(find_hlc_for_path(&history, "a").unwrap().wall_ms, 7);
    history.insert(0, commit(&["a"], "no stamp"));
    assert!(find_hlc_for_path(&history, "a").is_none());
    let mut deep: Vec<Option<HistoryEntry>> = Vec::new();
    for _ in 0..MAX_REVWALK_DEPTH {
        deep.push(commit(&["b"], "x"));
    }
    deep.push(commit(&["a"], &msg));
    assert!(find_hlc_for_path(&deep, "a").is_none());
}

#[test]
fn rename_file_errors_on_missing_source() {
    let err = check_rename(
        "zettelkasten/nonexistent.md",
        "zettelkasten/new.md",
        false,
        false,
    )
    .unwrap_err();
    assert!(matches!(err, ZettelError::NotFound(_)));
}

#[test]
fn rename_file_errors_on_existing_target() {
    let err = check_rename("zettelkasten/a.md", "zettelkasten/b.md", true, true).unwrap_err();
    assert!(matches!(err, ZettelError::InvalidPath(_)));
    assert!(check_rename("zettelkasten/a.md", "zettelkasten/b.md", true, false).is_ok());
}

#[test]
fn gitignore_is_extended_once() {
    assert_eq!(gitignore_text("").unwrap(), ".zdb/\n");
    assert_eq!(gitignore_text("target").unwrap(), "target\n.zdb/\n");
    assert!(gitignore_text("target\n.zdb/\n").is_none());
}

#[test]
fn links_name_a_path_without_its_ending() {
    assert_eq!(
        link_target("zettelkasten/20260301120000.md"),
        "zettelkasten/20260301120000"
    );
    assert_eq!(old_id("zettelkasten/20260301120000.md"), "20260301120000");
    assert!(looks_up_id("zettelkasten/20260301120000.md"));
    assert!(!looks_up_id("20260301120000"));
    assert!(is_zettel_path("zettelkasten/a.md"));
    assert!(!is_zettel_path("zettelkasten/a.txt"));
}

#[test]
fn renaming_rewrites_the_notes_that_link() {
    let old = "zettelkasten/20260301120000.md";
    let new = "zettelkasten/contact/20260301120000.md";
    assert_eq!(
        rewrite_note("see [[zettelkasten/20260301120000]] now", old, new),
        "see [[zettelkasten/contact/20260301120000]] now"
    );
    let notes = vec![
        (
            "zettelkasten/1.md".to_string(),
            "see [[zettelkasten/20260301120000]]".to_string(),
        ),
        ("zettelkasten/2.md".to_string(), "no link".to_string()),
    ];
    let (writes, report) = rename_zettel(&notes, old, new);
    assert_eq!(writes.len(), 1);
    assert_eq!(writes[0].0, "zettelkasten/1.md");
    assert_eq!(
        writes[0].1,
        "see [[zettelkasten/contact/20260301120000]]"
    );
    assert_eq!(report.updated, ["zettelkasten/1.md"]);
    assert!(report.unresolvable.is_empty());
}

#[test]
fn a_note_that_links_twice_is_found_once() {
    let by_path = vec![("1".to_string(), "a.md".to_string())];
    let by_id = vec![
        ("1".to_string(), "a.md".to_string()),
        ("2".to_string(), "b.md".to_string()),
    ];
    let all = join_backlinks(by_path, &by_id);
    let ids: Vec<&str> = all.iter().map(|(id, _)| id.as_str()).collect();
    assert_eq!(ids, ["1", "2"]);
}
