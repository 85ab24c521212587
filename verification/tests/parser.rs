use zdb_core::ids::candidate_id;
use zdb_core::parser::{
    extract_inline_fields, extract_wikilinks, parse, parse_frontmatter, rewrite_wikilinks,
    serialize, split_zones, IdSource,
};
use zdb_core::textmap::TextMap;
use zdb_core::types::{ParsedZettel, Value, ZettelId, ZettelMeta, Zone};

#[test]
fn basic_three_zone_split() {
    let content = "\
---
title: Test
---
Body content here.

Some more body.
---
- source:: Wikipedia
- tags:: test";

    let z = split_zones(content).unwrap();
    assert_eq!(z.raw_frontmatter, "title: Test");
    assert!(z.body.contains("Body content here."));
    assert!(z.body.contains("Some more body."));
    assert!(z.reference_section.contains("- source:: Wikipedia"));
    assert!(z.reference_section.contains("- tags:: test"));
}

#[test]
fn no_reference_section() {
    let content = "\
---
title: Test
---
Just body content.";

    let z = split_zones(content).unwrap();
    assert_eq!(z.raw_frontmatter, "title: Test");
    assert_eq!(z.body, "Just body content.");
    assert!(z.reference_section.is_empty());
}

#[test]
fn code_block_with_separator() {
    let content = "\
---
title: Test
---
Before code.

```
---
this is not a separator
---
```

After code.";

    let z = split_zones(content).unwrap();
    assert!(z.body.contains("---"));
    assert!(z.body.contains("this is not a separator"));
    assert!(z.reference_section.is_empty());
}

#[test]
fn thematic_break_not_reference_boundary() {
    let content = "\
---
title: Test
---
Paragraph one.

---

Paragraph two with no reference fields.";

    let z = split_zones(content).unwrap();
    // The `---` in the body is a thematic break, not a reference boundary
    // because the content after it doesn't match `- key:: value`
    assert!(z.body.contains("Paragraph one."));
    assert!(z.body.contains("Paragraph two"));
    assert!(z.reference_section.is_empty());
}

#[test]
fn trailing_separator_after_reference_backtracks() {
    let content = "\
---
title: Test
---
Body here.
---
- source:: Wikipedia
---
";

    let z = split_zones(content).unwrap();
    // Last `---` has only whitespace/empty after it → backtrack to previous `---`
    assert_eq!(z.body, "Body here.");
    assert!(z.reference_section.contains("- source:: Wikipedia"));
}

#[test]
fn empty_after_last_separator_backtracks() {
    let content = "\
---
title: Test
---
Body here.
---
";

    let z = split_zones(content).unwrap();
    // Last `---` has nothing after it → backtrack, no valid reference boundary
    assert!(z.body.contains("Body here."));
    assert!(z.reference_section.is_empty());
}

// -- frontmatter parsing tests --


#[test]
fn frontmatter_all_fields() {
    let yaml = "id: 20260226120000\ntitle: My Note\ndate: 2026-02-26\ntype: permanent\ntags:\n  - test\n  - demo";
    let meta = parse_frontmatter(yaml, "20260226120000.md").unwrap();
    assert_eq!(meta.id, Some(ZettelId("20260226120000".into())));
    assert_eq!(meta.title.as_deref(), Some("My Note"));
    assert_eq!(meta.date.as_deref(), Some("2026-02-26"));
    assert_eq!(meta.zettel_type.as_deref(), Some("permanent"));
    assert_eq!(meta.tags, vec!["test", "demo"]);
}

#[test]
fn frontmatter_empty() {
    let meta = parse_frontmatter("", "20260226120000.md").unwrap();
    assert_eq!(meta.id, Some(ZettelId("20260226120000".into())));
    assert!(meta.title.is_none());
    assert!(meta.tags.is_empty());
}

#[test]
fn frontmatter_extra_fields_preserved() {
    let yaml = "title: Test\ncustom_field: hello\nanother: 42";
    let meta = parse_frontmatter(yaml, "note.md").unwrap();
    assert_eq!(meta.title.as_deref(), Some("Test"));
    assert!(meta.extra.contains_key("custom_field"));
    assert!(meta.extra.contains_key("another"));
}

#[test]
fn frontmatter_id_fallback_from_filename() {
    let yaml = "title: No ID here";
    let meta = parse_frontmatter(yaml, "zettelkasten/20260226130000.md").unwrap();
    assert_eq!(meta.id, Some(ZettelId("20260226130000".into())));
}

// -- inline field extraction tests --

#[test]
fn inline_fields_body_only() {
    let fields = extract_inline_fields("source:: Wikipedia\nstatus:: draft", "").unwrap();
    assert_eq!(fields.len(), 2);
    assert_eq!(fields[0].key, "source");
    assert_eq!(fields[0].value, "Wikipedia");
    assert_eq!(fields[0].zone, Zone::Body);
}

#[test]
fn inline_fields_reference_only() {
    let fields = extract_inline_fields("", "- source:: Wikipedia\n- tags:: test").unwrap();
    assert_eq!(fields.len(), 2);
    assert_eq!(fields[0].zone, Zone::Reference);
    assert_eq!(fields[1].key, "tags");
}

#[test]
fn inline_fields_mixed() {
    let fields = extract_inline_fields("status:: draft", "- source:: Wikipedia").unwrap();
    assert_eq!(fields.len(), 2);
    assert_eq!(fields[0].zone, Zone::Body);
    assert_eq!(fields[1].zone, Zone::Reference);
}

#[test]
fn inline_fields_empty_reference_value() {
    let fields = extract_inline_fields("", "- emptykey::").unwrap();
    assert_eq!(fields.len(), 1);
    assert_eq!(fields[0].key, "emptykey");
    assert_eq!(fields[0].value, "");
}

#[test]
fn inline_fields_cross_zone_duplicate_errors() {
    let result = extract_inline_fields("source:: Body Version", "- source:: Ref Version");
    assert!(result.is_err());
    let msg = result.unwrap_err().message();
    assert!(msg.contains("duplicate inline field 'source'"));
}

#[test]
fn inline_fields_same_zone_duplicate_first_wins() {
    let fields = extract_inline_fields("source:: First\nsource:: Second", "").unwrap();
    assert_eq!(fields.len(), 1);
    assert_eq!(fields[0].value, "First");
}

#[test]
fn inline_fields_skip_fenced_code_block() {
    let body = "status:: draft\n```\nsource:: Wikipedia\n```\nvisible:: yes";
    let fields = extract_inline_fields(body, "").unwrap();
    assert_eq!(fields.len(), 2);
    assert_eq!(fields[0].key, "status");
    assert_eq!(fields[1].key, "visible");
}

#[test]
fn inline_fields_skip_tilde_fenced_code_block() {
    let body = "status:: draft\n~~~\nsource:: Wikipedia\n~~~\nvisible:: yes";
    let fields = extract_inline_fields(body, "").unwrap();
    assert_eq!(fields.len(), 2);
    assert_eq!(fields[0].key, "status");
    assert_eq!(fields[1].key, "visible");
}

#[test]
fn inline_fields_skip_inline_code() {
    let body = "some `key:: value` text\nreal:: field";
    let fields = extract_inline_fields(body, "").unwrap();
    assert_eq!(fields.len(), 1);
    assert_eq!(fields[0].key, "real");
}

#[test]
fn inline_fields_normal_next_to_inline_code() {
    let body = "status:: draft with `some code` here";
    let fields = extract_inline_fields(body, "").unwrap();
    assert_eq!(fields.len(), 1);
    assert_eq!(fields[0].key, "status");
}

// -- wikilink extraction tests --

#[test]
fn wikilinks_body() {
    let links = extract_wikilinks("", "See [[some/note]] and [[other|Other Note]].", "");
    assert_eq!(links.len(), 2);
    assert_eq!(links[0].target, "some/note");
    assert!(links[0].display.is_none());
    assert_eq!(links[1].target, "other");
    assert_eq!(links[1].display.as_deref(), Some("Other Note"));
}

#[test]
fn wikilinks_reference() {
    let links = extract_wikilinks("", "", "- related:: [[20260226120000]]");
    assert_eq!(links.len(), 1);
    assert_eq!(links[0].zone, Zone::Reference);
}

#[test]
fn wikilinks_frontmatter() {
    let links = extract_wikilinks("related: \"[[20260226120000|My Note]]\"", "", "");
    assert_eq!(links.len(), 1);
    assert_eq!(links[0].zone, Zone::Frontmatter);
    assert_eq!(links[0].display.as_deref(), Some("My Note"));
}

// -- wikilink rewriting tests --

#[test]
fn rewrite_wikilinks_bare() {
    let content = "See [[old_target]] here.";
    let result = rewrite_wikilinks(content, "old_target", "new_target");
    assert_eq!(result, "See [[new_target]] here.");
}

#[test]
fn rewrite_wikilinks_with_display() {
    let content = "Link: [[old_target|Display Name]]";
    let result = rewrite_wikilinks(content, "old_target", "new_target");
    assert_eq!(result, "Link: [[new_target|Display Name]]");
}

#[test]
fn rewrite_wikilinks_yaml_quoted() {
    let content = "related: \"[[old_target|Name]]\"";
    let result = rewrite_wikilinks(content, "old_target", "new_target");
    assert_eq!(result, "related: \"[[new_target|Name]]\"");
}

#[test]
fn rewrite_wikilinks_reference_section() {
    let content = "- related:: [[old_target]]";
    let result = rewrite_wikilinks(content, "old_target", "new_target");
    assert_eq!(result, "- related:: [[new_target]]");
}

#[test]
fn rewrite_wikilinks_multiple_occurrences() {
    let content = "First [[old_target]] then [[old_target|Alt]] and [[other]]";
    let result = rewrite_wikilinks(content, "old_target", "new_target");
    assert_eq!(result, "First [[new_target]] then [[new_target|Alt]] and [[other]]");
}

#[test]
fn rewrite_wikilinks_no_match() {
    let content = "Nothing to change [[unrelated]]";
    let result = rewrite_wikilinks(content, "old_target", "new_target");
    assert_eq!(result, "Nothing to change [[unrelated]]");
}

#[test]
fn rewrite_wikilinks_path_qualified() {
    let content = "See [[zettelkasten/20260301120000]]";
    let result = rewrite_wikilinks(content, "zettelkasten/20260301120000", "zettelkasten/contact/20260301120000");
    assert_eq!(result, "See [[zettelkasten/contact/20260301120000]]");
}

// -- serialization tests --

#[test]
fn serialize_round_trip() {
    let content = "\
---
id: 20260226120000
title: Test Note
date: 2026-02-26
type: permanent
tags:
  - test
  - demo
---
Body content here.

Some more body.
---
- source:: Wikipedia
- tags:: test";

    let z = split_zones(content).unwrap();
    let meta = parse_frontmatter(&z.raw_frontmatter, "20260226120000.md").unwrap();
    let inline_fields = extract_inline_fields(&z.body, &z.reference_section).unwrap();
    let wikilinks = extract_wikilinks(&z.raw_frontmatter, &z.body, &z.reference_section);

    let parsed = ParsedZettel {
        meta,
        body: z.body.clone(),
        reference_section: z.reference_section.clone(),
        inline_fields,
        wikilinks,
        path: "20260226120000.md".into(),
    };

    let serialized = serialize(&parsed);

    // Re-parse and verify equivalence
    let z2 = split_zones(&serialized).unwrap();
    let meta2 = parse_frontmatter(&z2.raw_frontmatter, "20260226120000.md").unwrap();
    assert_eq!(meta2.id, parsed.meta.id);
    assert_eq!(meta2.title, parsed.meta.title);
    assert_eq!(meta2.tags, parsed.meta.tags);
    assert!(z2.body.contains("Body content here."));
    assert!(z2.reference_section.contains("- source:: Wikipedia"));
}

#[test]
fn serialize_no_reference_section() {
    let parsed = ParsedZettel {
        meta: ZettelMeta {
            id: Some(ZettelId("20260226120000".into())),
            title: Some("Test".into()),
            ..Default::default()
        },
        body: "Just body.".into(),
        reference_section: String::new(),
        inline_fields: vec![],
        wikilinks: vec![],
        path: "test.md".into(),
    };

    let serialized = serialize(&parsed);
    assert!(serialized.contains("title: Test"));
    assert!(serialized.contains("Just body."));
    // Should not have trailing ---
    assert_eq!(serialized.matches("---").count(), 2);
}

#[test]
fn serialize_canonical_yaml_key_ordering() {
    let mut extra = TextMap::new();
    extra.insert("zeta".to_string(), Value::String("last".into()));
    extra.insert("publish".to_string(), Value::Bool(true));
    extra.insert("alpha".to_string(), Value::String("first".into()));
    extra.insert("processed".to_string(), Value::Bool(false));

    let parsed = ParsedZettel {
        meta: ZettelMeta {
            id: Some(ZettelId("20260226120000".into())),
            title: Some("Ordering Test".into()),
            date: Some("2026-02-26".into()),
            tags: vec!["test".into(), "order".into()],
            zettel_type: Some("permanent".into()),
            extra,
        },
        body: "Body.".into(),
        reference_section: String::new(),
        inline_fields: vec![],
        wikilinks: vec![],
        path: "test.md".into(),
    };

    let serialized = serialize(&parsed);
    let lines: Vec<&str> = serialized.lines().collect();

    let tags_idx = lines.iter().position(|l| *l == "tags:").unwrap();
    let type_idx = lines.iter().position(|l| *l == "type: permanent").unwrap();
    let publish_idx = lines.iter().position(|l| *l == "publish: true").unwrap();
    let processed_idx = lines.iter().position(|l| *l == "processed: false").unwrap();
    let alpha_idx = lines.iter().position(|l| *l == "alpha: first").unwrap();
    let zeta_idx = lines.iter().position(|l| *l == "zeta: last").unwrap();

    assert!(tags_idx < type_idx);
    assert!(type_idx < publish_idx);
    assert!(type_idx < processed_idx);
    assert!(publish_idx < processed_idx);
    assert!(processed_idx < alpha_idx);
    assert!(alpha_idx < zeta_idx);
}

// -- top-level parse tests --

#[test]
fn parse_full_zettel() {
    let content = "\
---
id: 20260226120000
title: Full Note
date: 2026-02-26
type: permanent
tags:
  - test
---
Body with [[some/link|Link]] and source:: Wikipedia
---
- related:: [[20260101000000]]";

    let p = parse(content, "zettelkasten/20260226120000.md").unwrap();
    assert_eq!(p.meta.id, Some(ZettelId("20260226120000".into())));
    assert_eq!(p.meta.title.as_deref(), Some("Full Note"));
    assert_eq!(p.inline_fields.len(), 1); // related from ref (source:: not at line start)
    assert_eq!(p.wikilinks.len(), 2); // one in body, one in ref
}

#[test]
fn parse_minimal_zettel() {
    let content = "\
---
title: Minimal
---
Just body.";

    let p = parse(content, "zettelkasten/20260226130000.md").unwrap();
    assert_eq!(p.meta.id, Some(ZettelId("20260226130000".into()))); // from filename
    assert!(p.reference_section.is_empty());
}

#[test]
fn parse_obsidian_passthrough() {
    let content = "\
---
title: Obsidian Test
---
Some text.

```dataview
TABLE file.ctime AS Created
FROM #notes
```

<% tp.date.now() %>

Body continues.";

    let p = parse(content, "test.md").unwrap();
    // Obsidian-specific syntax preserved verbatim
    let rt = serialize(&p);
    assert!(rt.contains("```dataview"));
    assert!(rt.contains("<% tp.date.now() %>"));
}

// -- ID generation tests --

/// The next identifier that a source gives by the clock.
fn generate_id(source: &mut IdSource) -> ZettelId {
    loop {
        let now = chrono::Local::now().naive_local().and_utc().timestamp();
        let candidate = candidate_id(now).unwrap();
        if let Some(id) = source.offer(&candidate, false) {
            return id;
        }
    }
}

#[test]
fn id_generation_14_digits() {
    let id = generate_id(&mut IdSource::new());
    let s = id.0.to_string();
    assert_eq!(s.len(), 14);
}

#[test]
fn id_generation_no_duplicates() {
    let mut source = IdSource::new();
    let a = generate_id(&mut source);
    let b = generate_id(&mut source);
    assert_ne!(a, b, "rapid consecutive calls must produce unique IDs");
    assert_eq!(b.0.len(), 14);
}
