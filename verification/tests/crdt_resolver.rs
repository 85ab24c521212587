use zdb_core::crdt_resolver::{resolve_append_log, resolve_conflicts, resolve_lww};
use zdb_core::hlc::Hlc;
use zdb_core::merge::{merge_body, merge_reference};
use zdb_core::merge_fm::merge_frontmatter;
use zdb_core::parser;
use zdb_core::types::ConflictFile;

#[test]
fn frontmatter_different_fields() {
    let ancestor = "title: Original\ndate: 2026-01-01";
    let ours = "title: Changed by us\ndate: 2026-01-01";
    let theirs = "title: Original\ndate: 2026-01-01\nauthor: Them";

    let merged = merge_frontmatter(ancestor, ours, theirs).unwrap();
    assert!(merged.contains("Changed by us"));
    assert!(merged.contains("author"));
}

#[test]
fn frontmatter_same_field_conflict() {
    let ancestor = "title: Original";
    let ours = "title: Ours";
    let theirs = "title: Theirs";

    // Automerge picks one deterministically
    let merged = merge_frontmatter(ancestor, ours, theirs).unwrap();
    assert!(merged.contains("title:"));
}

#[test]
fn frontmatter_field_removal() {
    let ancestor = "title: Test\nauthor: Bob";
    let ours = "title: Test"; // removed author
    let theirs = "title: Test\nauthor: Bob";

    let merged = merge_frontmatter(ancestor, ours, theirs).unwrap();
    assert!(merged.contains("title:"));
    // author should be removed since ours removed it
    assert!(!merged.contains("author"));
}

#[test]
fn frontmatter_preserves_quotes_for_yaml_special_chars() {
    let ancestor = "title: Original";
    let ours = "title: \"[[note|My Note]]\"";
    let theirs = "title: Original";

    let merged = merge_frontmatter(ancestor, ours, theirs).unwrap();
    assert!(merged.contains("title: \"[[note|My Note]]\""));
}

#[test]
fn frontmatter_unquotes_flow_sequence_values() {
    let ancestor = "tags:\n  - shared";
    let ours = "tags:\n  - shared\n  - ours";
    let theirs = "tags:\n  - shared";

    let merged = merge_frontmatter(ancestor, ours, theirs).unwrap();
    let parsed = parser::parse_frontmatter(&merged, "test.md").unwrap();
    assert_eq!(parsed.tags, vec!["shared", "ours"]);
}

#[test]
fn frontmatter_concurrent_tag_additions_merge() {
    let ancestor = "title: Test\ntags:\n  - shared";
    let ours = "title: Test\ntags:\n  - shared\n  - ours-tag";
    let theirs = "title: Test\ntags:\n  - shared\n  - theirs-tag";

    let merged = merge_frontmatter(ancestor, ours, theirs).unwrap();
    let parsed = parser::parse_frontmatter(&merged, "test.md").unwrap();
    // Both concurrent additions must survive
    assert!(parsed.tags.contains(&"shared".to_string()));
    assert!(parsed.tags.contains(&"ours-tag".to_string()));
    assert!(parsed.tags.contains(&"theirs-tag".to_string()));
    assert_eq!(parsed.tags.len(), 3);
}

#[test]
fn frontmatter_tag_removal_honored() {
    let ancestor = "tags:\n  - keep\n  - remove";
    let ours = "tags:\n  - keep"; // removed 'remove'
    let theirs = "tags:\n  - keep\n  - remove";

    let merged = merge_frontmatter(ancestor, ours, theirs).unwrap();
    let parsed = parser::parse_frontmatter(&merged, "test.md").unwrap();
    assert_eq!(parsed.tags, vec!["keep"]);
}

#[test]
fn body_non_overlapping_edits() {
    let ancestor = "Line 1\nLine 2\nLine 3\n";
    let ours = "Line 1 edited\nLine 2\nLine 3\n";
    let theirs = "Line 1\nLine 2\nLine 3 edited\n";

    let merged = merge_body(ancestor, ours, theirs).unwrap();
    assert!(merged.contains("Line 1 edited"));
    assert!(merged.contains("Line 3 edited"));
}

#[test]
fn body_append_from_both() {
    let ancestor = "Line 1\n";
    let ours = "Line 1\nOurs appended\n";
    let theirs = "Line 1\nTheirs appended\n";

    let merged = merge_body(ancestor, ours, theirs).unwrap();
    assert!(merged.contains("Line 1"));
    // Both appends should be present in some order
    assert!(merged.contains("appended"));
}

#[test]
fn reference_union_additions() {
    let ancestor = "- source:: Wikipedia";
    let ours = "- source:: Wikipedia\n- author:: Bob";
    let theirs = "- source:: Wikipedia\n- year:: 2026";

    let merged = merge_reference(ancestor, ours, theirs).unwrap();
    assert!(merged.contains("- source:: Wikipedia"));
    assert!(merged.contains("- author:: Bob"));
    assert!(merged.contains("- year:: 2026"));
}

#[test]
fn reference_removal() {
    let ancestor = "- source:: Wikipedia\n- author:: Bob";
    let ours = "- source:: Wikipedia"; // removed author
    let theirs = "- source:: Wikipedia\n- author:: Bob";

    let merged = merge_reference(ancestor, ours, theirs).unwrap();
    assert!(merged.contains("- source:: Wikipedia"));
    assert!(!merged.contains("author"));
}

#[test]
fn reference_same_key_conflict() {
    let ancestor = "- source:: Wikipedia";
    let ours = "- source:: Ours Source";
    let theirs = "- source:: Theirs Source";

    let merged = merge_reference(ancestor, ours, theirs).unwrap();
    assert!(merged.contains("- source::"));
}

#[test]
fn reference_concurrent_additions_both_present() {
    let ancestor = "- source:: Wikipedia";
    let ours = "- source:: Wikipedia\n- author:: Alice";
    let theirs = "- source:: Wikipedia\n- year:: 2026";

    let merged = merge_reference(ancestor, ours, theirs).unwrap();
    assert!(merged.contains("- source:: Wikipedia"));
    assert!(merged.contains("- author:: Alice"));
    assert!(merged.contains("- year:: 2026"));
}

#[test]
fn full_pipeline_resolve() {
    let ancestor = "---\ntitle: Original\n---\nOriginal body.\n---\n- source:: Wikipedia";
    let ours = "---\ntitle: Changed\n---\nOurs body.\n---\n- source:: Wikipedia";
    let theirs = "---\ntitle: Original\n---\nOriginal body.\n---\n- source:: Wikipedia\n- author:: Bob";

    let conflicts = vec![ConflictFile {
        path: "zettelkasten/20260226120000.md".into(),
        ancestor: Some(ancestor.into()),
        ours: ours.into(),
        theirs: theirs.into(),
        ours_hlc: None,
        theirs_hlc: None,
    }];

    let resolved = resolve_conflicts(conflicts, None).unwrap();
    assert_eq!(resolved.len(), 1);

    // Should be valid parseable markdown
    let parsed = parser::parse(&resolved[0].content, &resolved[0].path).unwrap();
    assert!(parsed.meta.title.is_some());
}

#[test]
fn full_pipeline_no_ancestor() {
    let ours = "---\ntitle: Ours\n---\nOurs body.";
    let theirs = "---\ntitle: Theirs\n---\nTheirs body.";

    let conflicts = vec![ConflictFile {
        path: "zettelkasten/new.md".into(),
        ancestor: None,
        ours: ours.into(),
        theirs: theirs.into(),
        ours_hlc: None,
        theirs_hlc: None,
    }];

    let resolved = resolve_conflicts(conflicts, None).unwrap();
    assert_eq!(resolved.len(), 1);
    let parsed = parser::parse(&resolved[0].content, &resolved[0].path).unwrap();
    assert!(parsed.meta.title.is_some());
}

#[test]
fn body_intra_line_char_level_merge() {
    let ancestor = "hello world";
    let ours = "hello brave world";
    let theirs = "hello world!";

    let merged = merge_body(ancestor, ours, theirs).unwrap();
    assert!(merged.contains("brave"));
    assert!(merged.contains("!"));
}

#[test]
fn lww_picks_later_hlc() {
    let ours_hlc = Hlc { wall_ms: 100, counter: 0, node: "aaaaaaaa".into() };
    let theirs_hlc = Hlc { wall_ms: 200, counter: 0, node: "bbbbbbbb".into() };
    let conflicts = vec![ConflictFile {
        path: "zettelkasten/test.md".into(),
        ancestor: None,
        ours: "---\ntitle: Ours\n---\nOurs body.".into(),
        theirs: "---\ntitle: Theirs\n---\nTheirs body.".into(),
        ours_hlc: Some(ours_hlc),
        theirs_hlc: Some(theirs_hlc),
    }];

    let resolved = resolve_lww(conflicts).unwrap();
    assert!(resolved[0].content.contains("Theirs"));
}

#[test]
fn lww_deterministic_tiebreak() {
    let ours_hlc = Hlc { wall_ms: 100, counter: 0, node: "aaaaaaaa".into() };
    let theirs_hlc = Hlc { wall_ms: 100, counter: 0, node: "zzzzzzzz".into() };
    let conflicts = vec![ConflictFile {
        path: "zettelkasten/test.md".into(),
        ancestor: None,
        ours: "ours content".into(),
        theirs: "theirs content".into(),
        ours_hlc: Some(ours_hlc),
        theirs_hlc: Some(theirs_hlc),
    }];

    let resolved = resolve_lww(conflicts).unwrap();
    // theirs has higher node string, so theirs wins
    assert_eq!(resolved[0].content, "theirs content");
}

#[test]
fn lww_no_hlc_fallback_to_ours() {
    let conflicts = vec![ConflictFile {
        path: "zettelkasten/test.md".into(),
        ancestor: None,
        ours: "ours content".into(),
        theirs: "theirs content".into(),
        ours_hlc: None,
        theirs_hlc: None,
    }];

    let resolved = resolve_lww(conflicts).unwrap();
    assert_eq!(resolved[0].content, "ours content");
}

#[test]
fn append_log_different_entries_both_survive() {
    let ancestor = "---\ntitle: Project\ntype: project\n---\n## Log\n- [x] 2026-01-01 Setup project";
    let ours = "---\ntitle: Project\ntype: project\n---\n## Log\n- [x] 2026-01-01 Setup project\n- [x] 2026-01-05 Laptop entry";
    let theirs = "---\ntitle: Project\ntype: project\n---\n## Log\n- [x] 2026-01-01 Setup project\n- [x] 2026-01-03 Desktop entry";

    let conflicts = vec![ConflictFile {
        path: "zettelkasten/project/test.md".into(),
        ancestor: Some(ancestor.into()),
        ours: ours.into(),
        theirs: theirs.into(),
        ours_hlc: None,
        theirs_hlc: None,
    }];

    let resolved = resolve_append_log(conflicts).unwrap();
    let content = &resolved[0].content;
    assert!(content.contains("Laptop entry"), "missing laptop entry");
    assert!(content.contains("Desktop entry"), "missing desktop entry");
    // Sorted chronologically: desktop (01-03) before laptop (01-05)
    let desktop_pos = content.find("Desktop entry").unwrap();
    let laptop_pos = content.find("Laptop entry").unwrap();
    assert!(desktop_pos < laptop_pos, "entries not sorted chronologically");
}

#[test]
fn append_log_dedup_same_entry() {
    let ancestor = "---\ntitle: P\n---\n## Log\n- [x] 2026-01-01 Init";
    let ours = "---\ntitle: P\n---\n## Log\n- [x] 2026-01-01 Init\n- [x] 2026-02-01 Same";
    let theirs = "---\ntitle: P\n---\n## Log\n- [x] 2026-01-01 Init\n- [x] 2026-02-01 Same";

    let conflicts = vec![ConflictFile {
        path: "zettelkasten/test.md".into(),
        ancestor: Some(ancestor.into()),
        ours: ours.into(),
        theirs: theirs.into(),
        ours_hlc: None,
        theirs_hlc: None,
    }];

    let resolved = resolve_append_log(conflicts).unwrap();
    let content = &resolved[0].content;
    // "Same" should appear only once
    assert_eq!(content.matches("Same").count(), 1);
}

#[test]
fn append_log_non_log_sections_use_text_crdt() {
    let ancestor = "---\ntitle: P\n---\n## Description\nOriginal description.\n## Log\n- [x] 2026-01-01 Init";
    let ours = "---\ntitle: P\n---\n## Description\nUpdated description from laptop.\n## Log\n- [x] 2026-01-01 Init";
    let theirs = "---\ntitle: P\n---\n## Description\nOriginal description.\n## Log\n- [x] 2026-01-01 Init\n- [x] 2026-02-01 New entry";

    let conflicts = vec![ConflictFile {
        path: "zettelkasten/test.md".into(),
        ancestor: Some(ancestor.into()),
        ours: ours.into(),
        theirs: theirs.into(),
        ours_hlc: None,
        theirs_hlc: None,
    }];

    let resolved = resolve_append_log(conflicts).unwrap();
    let content = &resolved[0].content;
    assert!(content.contains("Updated description from laptop"));
    assert!(content.contains("New entry"));
}

#[test]
fn append_log_empty_log_section() {
    let ancestor = "---\ntitle: P\n---\n## Log\n";
    let ours = "---\ntitle: P\n---\n## Log\n- [x] 2026-01-01 First entry";
    let theirs = "---\ntitle: P\n---\n## Log\n";

    let conflicts = vec![ConflictFile {
        path: "zettelkasten/test.md".into(),
        ancestor: Some(ancestor.into()),
        ours: ours.into(),
        theirs: theirs.into(),
        ours_hlc: None,
        theirs_hlc: None,
    }];

    let resolved = resolve_append_log(conflicts).unwrap();
    assert!(resolved[0].content.contains("First entry"));
}

#[test]
fn resolve_with_non_default_strategy_still_works() {
    let ancestor = "---\ntitle: Base\n---\nBody.";
    let ours = "---\ntitle: Ours\n---\nBody.";
    let theirs = "---\ntitle: Base\n---\nBody changed.";

    let conflicts = vec![ConflictFile {
        path: "zettelkasten/20260226120000.md".into(),
        ancestor: Some(ancestor.into()),
        ours: ours.into(),
        theirs: theirs.into(),
        ours_hlc: None,
        theirs_hlc: None,
    }];

    // Should succeed (using default strategy) and log a warning
    let resolved = resolve_conflicts(conflicts, Some("preset:append-log")).unwrap();
    assert_eq!(resolved.len(), 1);
    let parsed = parser::parse(&resolved[0].content, &resolved[0].path).unwrap();
    assert!(parsed.meta.title.is_some());
}

#[test]
fn resolve_errors_on_unparseable_content() {
    // Content without frontmatter markers → parse_zones fails
    let conflicts = vec![ConflictFile {
        path: "zettelkasten/broken.md".into(),
        ancestor: Some("no frontmatter here".into()),
        ours: "also no frontmatter".into(),
        theirs: "still no frontmatter".into(),
        ours_hlc: None,
        theirs_hlc: None,
    }];

    let result = resolve_conflicts(conflicts, None);
    assert!(result.is_err());
}
