//! What is compacted, and into what.
use std::collections::BTreeMap;

use automerge::transaction::Transactable;
use automerge::{AutoCommit, ReadDoc, ROOT};
use zdb_core::compaction::{
    active_heads, below_threshold, compacted_name, finished_report, group_files, merge_saved,
    parse_crdt_temp_name, plan_compaction, skipped_report, temp_commit, zettel_files,
    CompactPlan, Compacted, Measure,
};
use zdb_core::types::{NodeConfig, NodeStatus};

const C1: &str = "abc123def456abc123def456abc123def456abcd";
const C2: &str = "0123456789012345678901234567890123456789";

/// Temporary files by name.
type Temp = BTreeMap<String, Vec<u8>>;

fn names(temp: &Temp) -> Vec<String> {
    temp.keys().cloned().collect()
}

fn merge_files(temp: &mut Temp, files: &[String], name: String) {
    let blobs: Vec<Vec<u8>> = files.iter().map(|f| temp[f].clone()).collect();
    let merged = merge_saved(&blobs).unwrap();
    for f in files {
        temp.remove(f);
    }
    temp.insert(name, merged);
}

fn compact_crdt_docs(temp: &mut Temp) -> usize {
    let groups = group_files(&names(temp));
    for g in &groups {
        let name = compacted_name(&g.zettel_id, g.is_frontmatter);
        merge_files(temp, &g.files, name);
    }
    groups.len()
}

fn compact_zettel(temp: &mut Temp, id: &str) -> usize {
    let files = zettel_files(&names(temp), id);
    if files.is_empty() {
        return 0;
    }
    merge_files(temp, &files, compacted_name(id, false));
    1
}

fn doc(key: &str, value: &str) -> Vec<u8> {
    let mut d = AutoCommit::new();
    d.put(ROOT, key, value).unwrap();
    d.save()
}

fn node(head: &str, status: NodeStatus) -> NodeConfig {
    NodeConfig {
        uuid: "u".to_string(),
        name: "n".to_string(),
        known_heads: vec![head.to_string()],
        last_sync: None,
        hlc: None,
        status,
        created: None,
    }
}

#[test]
fn parse_crdt_temp_name_formats() {
    // Legacy: bare OID
    let n = parse_crdt_temp_name("abc123def456abc123def456abc123def456abcd").unwrap();
    assert!(n.zettel_id.is_none());
    assert!(!n.is_frontmatter);
    assert_eq!(n.commit, "abc123def456abc123def456abc123def456abcd");

    // Legacy: OID.crdt
    let n = parse_crdt_temp_name("abc123def456abc123def456abc123def456abcd.crdt").unwrap();
    assert!(n.zettel_id.is_none());
    assert!(!n.is_frontmatter);

    // New: OID_zettelid.crdt
    let n = parse_crdt_temp_name("abc123def456abc123def456abc123def456abcd_20260301120000.crdt")
        .unwrap();
    assert_eq!(n.zettel_id.as_deref(), Some("20260301120000"));
    assert!(!n.is_frontmatter);

    // Frontmatter: OID_zettelid_fm.crdt
    let n =
        parse_crdt_temp_name("abc123def456abc123def456abc123def456abcd_20260301120000_fm.crdt")
            .unwrap();
    assert_eq!(n.zettel_id.as_deref(), Some("20260301120000"));
    assert!(n.is_frontmatter);
}

#[test]
fn compact_crdt_docs_groups_by_zettel() {
    let mut temp = Temp::new();
    // Create dummy automerge docs for the same zettel
    temp.insert(format!("{C1}_20260301120000.crdt"), doc("key", "val1"));
    temp.insert(format!("{C2}_20260301120000.crdt"), doc("key", "val2"));

    let compacted = compact_crdt_docs(&mut temp);
    assert_eq!(compacted, 1);

    // Should have one compacted file
    let files = names(&temp);
    assert_eq!(files.len(), 1);
    assert!(files[0].starts_with("compacted_"));
}

#[test]
fn compact_zettel_targets_single_zettel() {
    let mut temp = Temp::new();
    // Zettel A: two files
    temp.insert(format!("{C1}_A.crdt"), doc("k", "v"));
    temp.insert(format!("{C2}_A.crdt"), doc("k", "v"));

    // Zettel B: one file (should not be touched)
    temp.insert(format!("{C1}_B.crdt"), doc("k", "v"));

    let compacted = compact_zettel(&mut temp, "A");
    assert_eq!(compacted, 1);

    // B's file should still exist
    assert!(temp.contains_key(&format!("{C1}_B.crdt")));
}

#[test]
fn compact_crdt_docs_separates_fm_and_body() {
    let mut temp = Temp::new();
    let bytes = doc("k", "v");
    // Two body files for same zettel
    temp.insert(format!("{C1}_20260301120000.crdt"), bytes.clone());
    temp.insert(format!("{C2}_20260301120000.crdt"), bytes.clone());
    // Two fm files for same zettel
    temp.insert(format!("{C1}_20260301120000_fm.crdt"), bytes.clone());
    temp.insert(format!("{C2}_20260301120000_fm.crdt"), bytes.clone());

    let compacted = compact_crdt_docs(&mut temp);
    // Should compact body and fm independently → 2 groups compacted
    assert_eq!(compacted, 2);

    let files = names(&temp);
    assert_eq!(files.len(), 2);
    assert!(files.iter().any(|f| f == "compacted_20260301120000.crdt"));
    assert!(files
        .iter()
        .any(|f| f == "compacted_20260301120000_fm.crdt"));
}

#[test]
fn threshold_check_skips_when_under() {
    assert!(matches!(
        plan_compaction(false, true, 0, 1),
        CompactPlan::Skip
    ));
    // No CRDT files → under threshold → should skip but still report actual stats
    let report = skipped_report(Measure {
        crdt_bytes: 0,
        crdt_files: 0,
        repo_bytes: 4096,
    });
    assert_eq!(report.files_removed, 0);
    assert_eq!(report.crdt_docs_compacted, 0);
    assert!(report.gc_success);
    assert!(report.repo_bytes_before > 0);
    assert_eq!(report.repo_bytes_before, report.repo_bytes_after);
    assert_eq!(report.crdt_temp_bytes_before, 0);
    assert_eq!(report.crdt_temp_files_before, 0);
    assert!(report.backup_path.is_none());
}

#[test]
fn a_report_compares_before_and_after() {
    let before = Measure {
        crdt_bytes: 10,
        crdt_files: 3,
        repo_bytes: 100,
    };
    let after = Measure {
        crdt_bytes: 4,
        crdt_files: 1,
        repo_bytes: 90,
    };
    let done = Compacted {
        files_removed: 1,
        docs_compacted: 1,
        gc_success: true,
        backup_path: Some("b".to_string()),
    };
    let r = finished_report(before, after, done);
    assert_eq!((r.crdt_temp_bytes_before, r.crdt_temp_bytes_after), (10, 4));
    assert_eq!((r.crdt_temp_files_before, r.crdt_temp_files_after), (3, 1));
    assert_eq!((r.repo_bytes_before, r.repo_bytes_after), (100, 90));
    assert_eq!((r.files_removed, r.crdt_docs_compacted), (1, 1));
    assert_eq!(r.backup_path.as_deref(), Some("b"));
}

#[test]
fn the_threshold_is_in_megabytes() {
    assert!(below_threshold(1048575, 1));
    assert!(!below_threshold(1048576, 1));
    assert!(below_threshold(5242879, 5));
    assert!(!below_threshold(0, 0));
}

#[test]
fn force_compacts_under_the_threshold() {
    match plan_compaction(true, false, 0, 1) {
        CompactPlan::Run { backup } => assert!(backup),
        other => panic!("{other:?}"),
    }
    match plan_compaction(true, true, 0, 1) {
        CompactPlan::Run { backup } => assert!(!backup),
        other => panic!("{other:?}"),
    }
}

#[test]
fn names_without_a_commit_are_no_temporary_files() {
    assert!(parse_crdt_temp_name(".gitkeep").is_none());
    assert!(parse_crdt_temp_name("compacted_20260301120000.crdt").is_none());
    assert!(parse_crdt_temp_name("").is_none());
    assert_eq!(temp_commit(&format!("{C1}_x.crdt")).as_deref(), Some(C1));
    assert!(temp_commit("compacted_x.crdt").is_none());
}

#[test]
fn a_short_commit_is_filled_up() {
    let n = parse_crdt_temp_name("ABC.crdt").unwrap();
    assert_eq!(n.commit, "abc0000000000000000000000000000000000000");
}

#[test]
fn single_files_make_no_group() {
    let files = vec![
        format!("{C1}_A.crdt"),
        format!("{C1}_B.crdt"),
        format!("{C2}_B.crdt"),
        C2.to_string(),
        ".gitkeep".to_string(),
    ];
    let groups = group_files(&files);
    assert_eq!(groups.len(), 1);
    assert_eq!(groups[0].zettel_id, "B");
    assert!(!groups[0].is_frontmatter);
    assert_eq!(groups[0].files.len(), 2);
}

#[test]
fn merging_keeps_every_change() {
    let merged = merge_saved(&vec![doc("a", "1"), doc("b", "2")]).unwrap();
    let d = AutoCommit::load(&merged).unwrap();
    let mut keys: Vec<String> = d.keys(ROOT).collect();
    keys.sort();
    assert_eq!(keys, ["a", "b"]);
}

#[test]
fn what_is_no_document_is_passed_over() {
    let merged = merge_saved(&vec![vec![1, 2, 3], doc("a", "1")]).unwrap();
    let d = AutoCommit::load(&merged).unwrap();
    assert_eq!(d.keys(ROOT).count(), 1);
}

#[test]
fn stale_nodes_do_not_hold_back_the_shared_head() {
    let nodes = vec![
        node(C1, NodeStatus::Active),
        node(C2, NodeStatus::Stale),
        node(C2, NodeStatus::Active),
    ];
    assert_eq!(active_heads(&nodes), [C1, C2]);
}
