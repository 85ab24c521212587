//! Bundles: checksums, what a bundle holds, and how it is imported.
use zdb_core::bundle::{
    basis_for, bundle_args, check_command, compute_bundle_checksum, first_step, import_report,
    is_node_file, judge_merge, make_manifest, next_step, takes_registration,
    verify_extracted_checksum, BundleEntry, ImportEvent, ImportStep, CHECKSUM_FILE,
};
use zdb_core::error::ZettelError;
use zdb_core::textmap::TextMap;
use zdb_core::types::{NodeConfig, NodeStatus};

fn file(content: &str) -> BundleEntry {
    BundleEntry::File(content.as_bytes().to_vec())
}

fn node(uuid: &str, heads: &[&str]) -> NodeConfig {
    NodeConfig {
        uuid: uuid.to_string(),
        name: "Node".to_string(),
        known_heads: heads.iter().map(|h| h.to_string()).collect(),
        last_sync: None,
        hlc: None,
        status: NodeStatus::Active,
        created: None,
    }
}

fn ran(success: bool, stderr: &str) -> ImportEvent {
    ImportEvent::Ran {
        success,
        stderr: stderr.to_string(),
    }
}

#[test]
fn checksum_verification_catches_tampering() {
    let manifest = "source_node = \"Node1\"\ntarget_node = \"*\"\n";
    let mut dir = TextMap::new();
    dir.insert("manifest.toml".to_string(), file(manifest));
    dir.insert("objects.bundle".to_string(), file("objects"));
    let stored = Some(format!("{}\n", compute_bundle_checksum(&dir)));
    assert!(verify_extracted_checksum(&stored, &dir).is_ok());

    let changed = format!("{manifest}\n# tampered\n");
    dir.insert("manifest.toml".to_string(), file(&changed));
    let result = verify_extracted_checksum(&stored, &dir);
    assert!(result.is_err());
    assert!(result
        .unwrap_err()
        .message()
        .contains("checksum mismatch"));
}

#[test]
fn delta_export_fails_for_unknown_node() {
    let nodes = vec![node("Node1", &[])];
    let result = basis_for(&nodes, "nonexistent-uuid");
    assert!(result.is_err());
    assert!(result.unwrap_err().message().contains("nonexistent-uuid"));
}

#[test]
fn a_delta_leaves_out_what_the_node_knows() {
    let nodes = vec![node("a", &["1111"]), node("b", &["2222", "3333"])];
    let basis = basis_for(&nodes, "b").unwrap();
    assert_eq!(basis, ["^2222", "^3333"]);
    assert_eq!(
        bundle_args("out", &basis),
        ["bundle", "create", "out", "^2222", "^3333", "refs/heads/master"]
    );
    let target = Some("b".to_string());
    assert_eq!(make_manifest("a", &target, "now").target_node, "b");
}

#[test]
fn a_full_bundle_is_for_every_node() {
    let m = make_manifest("a", &None, "2026-03-01T00:00:00Z");
    assert_eq!(m.source_node, "a");
    assert_eq!(m.target_node, "*");
    assert_eq!(m.timestamp, "2026-03-01T00:00:00Z");
    assert_eq!(m.format_version, 1);
    assert_eq!(
        bundle_args("out", &Vec::new()),
        ["bundle", "create", "out", "--all"]
    );
}

#[test]
fn the_checksum_is_the_hash_of_names_and_contents() {
    let mut dir = TextMap::new();
    assert_eq!(
        compute_bundle_checksum(&dir),
        "e3b0c44298fc1c149afbf4c8996fb92427ae41e4649b934ca495991b7852b855"
    );
    dir.insert("a".to_string(), file("bc"));
    assert_eq!(
        compute_bundle_checksum(&dir),
        "ba7816bf8f01cfea414140de5dae2223b00361a396177a9cb410ff61f20015ad"
    );
}

#[test]
fn the_checksum_does_not_depend_on_the_order() {
    let mut one = TextMap::new();
    one.insert("a".to_string(), file("1"));
    one.insert("b".to_string(), file("2"));
    let mut two = TextMap::new();
    two.insert("b".to_string(), file("2"));
    two.insert("a".to_string(), file("1"));
    assert_eq!(compute_bundle_checksum(&one), compute_bundle_checksum(&two));
}

#[test]
fn the_checksum_leaves_its_own_file_out() {
    let mut dir = TextMap::new();
    dir.insert("a".to_string(), file("bc"));
    let sum = compute_bundle_checksum(&dir);
    dir.insert(CHECKSUM_FILE.to_string(), file(&sum));
    assert_eq!(compute_bundle_checksum(&dir), sum);
}

#[test]
fn files_of_directories_count_by_their_own_names() {
    let mut nodes = TextMap::new();
    nodes.insert("a".to_string(), file("bc"));
    let mut dir = TextMap::new();
    dir.insert("nodes".to_string(), BundleEntry::Directory(nodes));
    assert_eq!(
        compute_bundle_checksum(&dir),
        "ba7816bf8f01cfea414140de5dae2223b00361a396177a9cb410ff61f20015ad"
    );
}

#[test]
fn a_bundle_needs_a_checksum() {
    let dir: TextMap<BundleEntry> = TextMap::new();
    match verify_extracted_checksum(&None, &dir) {
        Err(ZettelError::Validation(m)) => assert_eq!(m, "bundle missing checksum.sha256"),
        other => panic!("{other:?}"),
    }
}

#[test]
fn node_files_are_toml_files() {
    assert!(is_node_file("x.toml"));
    assert!(!is_node_file("x.tom"));
    assert!(takes_registration("x.toml", false));
    assert!(!takes_registration("x.toml", true));
    assert!(!takes_registration(".toml", false));
    assert!(!takes_registration("x.txt", false));
}

#[test]
fn a_failed_command_is_a_git_error() {
    assert!(check_command(true, "git fetch", "").is_ok());
    match check_command(false, "git fetch", "no such ref") {
        Err(ZettelError::Git(m)) => assert_eq!(m, "git fetch failed: no such ref"),
        other => panic!("{other:?}"),
    }
}

#[test]
fn a_failed_merge_may_be_a_conflict() {
    assert_eq!(judge_merge(true, "").unwrap(), false);
    assert_eq!(judge_merge(false, "CONFLICT (content)").unwrap(), true);
    assert_eq!(judge_merge(false, "Automatic merge failed; fix").unwrap(), true);
    match judge_merge(false, "fatal") {
        Err(ZettelError::Git(m)) => assert_eq!(m, "git merge failed: fatal"),
        other => panic!("{other:?}"),
    }
}

#[test]
fn an_import_runs_its_steps() {
    let step = first_step(true);
    assert!(matches!(step, ImportStep::Unbundle));
    let step = next_step(step, ran(true, "")).unwrap();
    assert!(matches!(step, ImportStep::Fetch));
    let step = next_step(step, ran(true, "")).unwrap();
    assert!(matches!(step, ImportStep::Merge));
    let step = next_step(step, ran(false, "CONFLICT")).unwrap();
    assert!(matches!(step, ImportStep::ResolveConflicts));
    assert!(matches!(first_step(false), ImportStep::Merge));
    match next_step(ImportStep::Merge, ran(true, "")).unwrap() {
        ImportStep::Finish { conflicts_resolved } => assert_eq!(conflicts_resolved, 0),
        other => panic!("{other:?}"),
    }
    assert!(next_step(ImportStep::Unbundle, ran(false, "bad")).is_err());
    assert!(next_step(ImportStep::Fetch, ran(false, "bad")).is_err());
    assert!(next_step(ImportStep::Merge, ran(false, "bad")).is_err());
}

#[test]
fn an_import_reports_its_conflicts() {
    let r = import_report(2);
    assert_eq!(r.direction, "bundle-import");
    assert_eq!(r.commits_transferred, 0);
    assert_eq!(r.conflicts_resolved, 2);
}
