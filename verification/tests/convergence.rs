//! Merging in either order, and what nobody changed.
use automerge::transaction::Transactable;
use automerge::{ActorId, AutoCommit, ObjId, ObjType, ROOT};
use zdb_core::crdt_resolver::{merge_body_append_log, resolve_conflicts};
use zdb_core::error::ZettelError;
use zdb_core::merge::{merge_body, merge_copies, merge_list_copies, merge_reference};
use zdb_core::merge_fm::{merge_entry_copies, merge_frontmatter, FmValue};
use zdb_core::parser::{parse, parse_frontmatter};
use zdb_core::types::ConflictFile;

const ANCESTOR: &str =
    "---\nid: 20260101000000\ntitle: Old\ntype: note\n---\nFirst.\n\nSecond.\n\n---\n- a:: 1\n";

fn conflict(ours: &str, theirs: &str) -> ConflictFile {
    ConflictFile {
        path: "zettelkasten/20260101000000.md".to_string(),
        ancestor: Some(ANCESTOR.to_string()),
        ours: ours.to_string(),
        theirs: theirs.to_string(),
        ours_hlc: None,
        theirs_hlc: None,
    }
}

fn resolved(ours: &str, theirs: &str) -> String {
    let mut files = resolve_conflicts(vec![conflict(ours, theirs)], None).unwrap();
    assert_eq!(files.len(), 1);
    files.remove(0).content
}

#[test]
fn separate_changes_of_a_body_are_both_made() {
    let base = "Hello world";
    let ours = "Hello brave world";
    let theirs = "Hello world!";
    assert_eq!(merge_body(base, ours, theirs).unwrap(), "Hello brave world!");
    assert_eq!(merge_body(base, theirs, ours).unwrap(), "Hello brave world!");
}

#[test]
fn separate_deletions_of_a_body_are_both_made() {
    let base = "one two three four";
    assert_eq!(
        merge_body(base, "two three four", "one two three").unwrap(),
        "two three"
    );
    assert_eq!(
        merge_body(base, "one two three", "two three four").unwrap(),
        "two three"
    );
}

#[test]
fn separate_fields_merge_in_either_order() {
    let base = "title: A\ntype: note\ntags:\n  - x";
    let ours = "title: B\ntype: note\ntags:\n  - x";
    let theirs = "title: A\ntype: project\ntags:\n  - x\n  - y";
    let ab = merge_frontmatter(base, ours, theirs).unwrap();
    let ba = merge_frontmatter(base, theirs, ours).unwrap();
    assert_eq!(ab, ba);
    let m = parse_frontmatter(&ab, "1.md").unwrap();
    assert_eq!(m.title.as_deref(), Some("B"));
    assert_eq!(m.zettel_type.as_deref(), Some("project"));
    assert_eq!(m.tags, vec!["x", "y"]);
}

#[test]
fn a_front_matter_that_nobody_changed_keeps_its_fields() {
    let base = "title: A\ncount: 3\ntags:\n  - x\n  - y";
    let merged = merge_frontmatter(base, base, base).unwrap();
    let m = parse_frontmatter(&merged, "1.md").unwrap();
    assert_eq!(m.title.as_deref(), Some("A"));
    assert_eq!(m.tags, vec!["x", "y"]);
}

#[test]
fn the_lines_of_a_merged_reference_section_are_in_order() {
    let base = "- b:: 1\n- d:: 1";
    let ours = "- b:: 1\n- d:: 1\n- c:: 1";
    let theirs = "- a:: 1\n- b:: 1";
    assert_eq!(
        merge_reference(base, ours, theirs).unwrap(),
        "- a:: 1\n- b:: 1\n- c:: 1"
    );
    assert_eq!(
        merge_reference(base, theirs, ours).unwrap(),
        "- a:: 1\n- b:: 1\n- c:: 1"
    );
}

#[test]
fn a_note_with_separate_changes_is_resolved_the_same_either_way() {
    let ours = ANCESTOR
        .replace("title: Old", "title: New")
        .replace("First.", "First, edited.");
    let theirs = ANCESTOR
        .replace("type: note", "type: project")
        .replace("Second.", "Second, edited.")
        .replace("- a:: 1\n", "- a:: 1\n- b:: 2\n");
    let ab = resolved(&ours, &theirs);
    let ba = resolved(&theirs, &ours);
    assert_eq!(ab, ba);
    let z = parse(&ab, "zettelkasten/20260101000000.md").unwrap();
    assert_eq!(z.meta.title.as_deref(), Some("New"));
    assert_eq!(z.meta.zettel_type.as_deref(), Some("project"));
    assert!(z.body.contains("First, edited.\n\nSecond, edited."));
    assert_eq!(z.reference_section.trim(), "- a:: 1\n- b:: 2");
}

#[test]
fn a_note_that_nobody_changed_is_resolved_to_itself() {
    let z = parse(ANCESTOR, "zettelkasten/20260101000000.md").unwrap();
    let r = parse(&resolved(ANCESTOR, ANCESTOR), "zettelkasten/20260101000000.md").unwrap();
    assert_eq!(r.meta.id, z.meta.id);
    assert_eq!(r.meta.title, z.meta.title);
    assert_eq!(r.meta.zettel_type, z.meta.zettel_type);
    assert_eq!(r.body, z.body);
    assert_eq!(r.reference_section, z.reference_section);
}

#[test]
fn sections_of_a_log_keep_their_order() {
    let body = "## Plan\np\n## Log\n- [x] 2026-01-01 a";
    assert_eq!(
        merge_body_append_log(body, body, body).unwrap(),
        "## Plan\np\n\n## Log\n- [x] 2026-01-01 a"
    );
    let theirs = "## Ideas\ni\n## Plan\np\n## Log\n- [x] 2026-01-01 a";
    let merged = merge_body_append_log(body, body, theirs).unwrap();
    let at = |s: &str| merged.find(s).unwrap();
    assert!(at("## Plan") < at("## Log"));
    assert!(at("## Log") < at("## Ideas"));
}

fn two_copies(key: &str, kind: ObjType, authors: [u8; 2]) -> (AutoCommit, AutoCommit, ObjId) {
    let mut doc = AutoCommit::new();
    let id = doc.put_object(ROOT, key, kind).unwrap();
    let ours = doc.fork().with_actor(ActorId::from([authors[0]]));
    let theirs = doc.fork().with_actor(ActorId::from([authors[1]]));
    (ours, theirs, id)
}

#[test]
fn copies_of_a_text_merge_where_two_authors_changed_them() {
    let (mut ours, mut theirs, id) = two_copies("body", ObjType::Text, [1, 2]);
    ours.splice_text(&id, 0, 0, "a").unwrap();
    theirs.splice_text(&id, 0, 0, "b").unwrap();
    let merged = merge_copies(&mut ours, &mut theirs).unwrap();
    assert!(merged == "ab" || merged == "ba");
}

#[test]
fn copies_of_a_text_do_not_merge_where_one_author_changed_both() {
    let (mut ours, mut theirs, id) = two_copies("body", ObjType::Text, [1, 1]);
    ours.splice_text(&id, 0, 0, "a").unwrap();
    theirs.splice_text(&id, 0, 0, "b").unwrap();
    assert!(matches!(
        merge_copies(&mut ours, &mut theirs),
        Err(ZettelError::Automerge(_))
    ));
}

#[test]
fn copies_of_a_list_merge_where_two_authors_changed_them() {
    let (mut ours, mut theirs, id) = two_copies("refs", ObjType::List, [1, 2]);
    ours.insert(&id, 0, "a").unwrap();
    theirs.insert(&id, 0, "b").unwrap();
    let mut merged = merge_list_copies(&mut ours, &mut theirs).unwrap();
    merged.sort();
    assert_eq!(merged, vec!["a", "b"]);
    let (mut ours, mut theirs, id) = two_copies("refs", ObjType::List, [1, 1]);
    ours.insert(&id, 0, "a").unwrap();
    theirs.insert(&id, 0, "b").unwrap();
    assert!(merge_list_copies(&mut ours, &mut theirs).is_err());
}

#[test]
fn copies_of_a_map_merge_where_two_authors_changed_them() {
    let (mut ours, mut theirs, id) = two_copies("frontmatter", ObjType::Map, [1, 2]);
    ours.put(&id, "a", "x").unwrap();
    theirs.put(&id, "b", "y").unwrap();
    let merged = merge_entry_copies(&mut ours, &mut theirs).unwrap();
    assert!(matches!(merged.get("a"), Some(FmValue::Scalar(s)) if s == "\"x\""));
    assert!(matches!(merged.get("b"), Some(FmValue::Scalar(s)) if s == "\"y\""));
    let (mut ours, mut theirs, id) = two_copies("frontmatter", ObjType::Map, [1, 1]);
    ours.put(&id, "a", "x").unwrap();
    theirs.put(&id, "b", "y").unwrap();
    assert!(merge_entry_copies(&mut ours, &mut theirs).is_err());
}

#[test]
fn other_fields_that_nobody_changed_stay_as_they_are() {
    let text = "---\nid: 20260101000000\ntitle: \"A: b\"\ntags:\n  - x\ntype: note\ndone: true\nowner: Ann Lee\n---\nBody.";
    let path = "zettelkasten/20260101000000.md";
    let c = ConflictFile {
        path: path.to_string(),
        ancestor: Some(text.to_string()),
        ours: text.to_string(),
        theirs: text.to_string(),
        ours_hlc: None,
        theirs_hlc: None,
    };
    let files = resolve_conflicts(vec![c], None).unwrap();
    assert_eq!(files[0].content, text);
}

#[test]
fn an_unchanged_note_with_lines_out_of_order_comes_back_sorted() {
    let text = "---\ntype: note\ntitle: \"Plan\"\ntags:\n  - b\n  - true\n  - 7\n  - ä\nid: 20260101000000\naliases:\n- x\nowner: Ann\nstrategy: a:b\n---\nBody.\n\n---\n- b:: 2\n- a:: 1\n- b:: 2";
    let path = "zettelkasten/20260101000000.md";
    let c = ConflictFile {
        path: path.to_string(),
        ancestor: Some(text.to_string()),
        ours: text.to_string(),
        theirs: text.to_string(),
        ours_hlc: None,
        theirs_hlc: None,
    };
    let p = parse(text, path).unwrap();
    let files = resolve_conflicts(vec![c], None).unwrap();
    let q = parse(&files[0].content, path).unwrap();
    assert_eq!(q.meta.id, p.meta.id);
    assert_eq!(q.meta.title.as_deref(), Some("Plan"));
    assert_eq!(q.meta.tags, p.meta.tags);
    assert_eq!(q.meta.tags, vec!["b", "true", "7", "ä"]);
    assert_eq!(q.meta.zettel_type, p.meta.zettel_type);
    assert_eq!(q.body, p.body);
    assert_eq!(q.reference_section, "- a:: 1\n- b:: 2");
}
