//! The key-value index over sorted tables.
use std::collections::{BTreeMap, BTreeSet};

use zdb_core::error::ZettelError;
use zdb_core::nosql::{
    index_zettel, prefix_scan, rebuild, remove_secondary_entries, scan_prefix,
};
use zdb_core::types::{ParsedZettel, WikiLink, ZettelId, ZettelMeta, Zone};

type Result<T> = std::result::Result<T, ZettelError>;

#[derive(Default)]
struct Tables {
    zettels: BTreeMap<String, ParsedZettel>,
    by_type: BTreeSet<String>,
    by_tag: BTreeSet<String>,
    links: BTreeSet<String>,
}

fn scan(table: &BTreeSet<String>, by: &str) -> Vec<String> {
    let prefix = scan_prefix(by);
    let keys: Vec<String> = table.range(prefix.clone()..).cloned().collect();
    prefix_scan(&keys, &prefix)
}

impl Tables {
    fn index_zettel(&mut self, zettel: ParsedZettel) -> Result<()> {
        let keys = index_zettel(&zettel)?;
        self.remove_zettel(&keys.id);
        self.by_type.extend(keys.by_type);
        self.by_tag.extend(keys.by_tag);
        self.links.extend(keys.links);
        self.zettels.insert(keys.id, zettel);
        Ok(())
    }

    fn remove_zettel(&mut self, id: &str) {
        let stored = self.zettels.remove(id);
        if let Some(keys) = remove_secondary_entries(&stored, id) {
            for k in &keys.by_type {
                self.by_type.remove(k);
            }
            for k in &keys.by_tag {
                self.by_tag.remove(k);
            }
            for k in &keys.links {
                self.links.remove(k);
            }
        }
    }

    fn get(&self, id: &str) -> Option<&ParsedZettel> {
        self.zettels.get(id)
    }

    fn scan_by_type(&self, name: &str) -> Vec<String> {
        scan(&self.by_type, name)
    }

    fn scan_by_tag(&self, tag: &str) -> Vec<String> {
        scan(&self.by_tag, tag)
    }

    fn backlinks(&self, target: &str) -> Vec<String> {
        scan(&self.links, target)
    }
}

fn test_zettel(id: &str, title: &str) -> ParsedZettel {
    ParsedZettel {
        meta: ZettelMeta {
            id: Some(ZettelId(id.into())),
            title: Some(title.into()),
            zettel_type: Some("project".into()),
            tags: vec!["rust".into(), "test".into()],
            ..Default::default()
        },
        body: "body".into(),
        reference_section: String::new(),
        inline_fields: vec![],
        wikilinks: vec![WikiLink {
            target: "20240102000000".into(),
            display: None,
            zone: Zone::Reference,
        }],
        path: format!("zettelkasten/{id}.md"),
    }
}

#[test]
fn crud_and_prefix_scan() {
    let mut idx = Tables::default();

    let z = test_zettel("20240101120000", "Test Note");
    idx.index_zettel(z).unwrap();

    // Get
    let got = idx.get("20240101120000").unwrap();
    assert_eq!(got.meta.title.as_deref(), Some("Test Note"));

    // Scan by type
    let ids = idx.scan_by_type("project");
    assert_eq!(ids, vec!["20240101120000"]);

    // Scan by tag
    let ids = idx.scan_by_tag("rust");
    assert_eq!(ids, vec!["20240101120000"]);

    // Backlinks
    let ids = idx.backlinks("20240102000000");
    assert_eq!(ids, vec!["20240101120000"]);

    // Remove
    idx.remove_zettel("20240101120000");
    assert!(idx.get("20240101120000").is_none());
    assert!(idx.scan_by_type("project").is_empty());
    assert!(idx.scan_by_tag("rust").is_empty());
    assert!(idx.backlinks("20240102000000").is_empty());
}

#[test]
fn upsert_updates_secondary_indices() {
    let mut idx = Tables::default();

    idx.index_zettel(test_zettel("20240101120000", "V1")).unwrap();

    // Re-index with different type and tags
    let mut z = test_zettel("20240101120000", "V1");
    z.meta.zettel_type = Some("contact".into());
    z.meta.tags = vec!["new-tag".into()];
    z.wikilinks = vec![];
    idx.index_zettel(z).unwrap();

    // Old type/tag/link gone
    assert!(idx.scan_by_type("project").is_empty());
    assert!(idx.scan_by_tag("rust").is_empty());
    assert!(idx.backlinks("20240102000000").is_empty());

    // New type/tag present
    assert_eq!(idx.scan_by_type("contact"), vec!["20240101120000"]);
    assert_eq!(idx.scan_by_tag("new-tag"), vec!["20240101120000"]);
}

#[test]
fn get_missing_returns_none() {
    let idx = Tables::default();
    assert!(idx.get("nonexistent").is_none());
}

#[test]
fn scans_stop_where_the_prefix_ends() {
    let mut idx = Tables::default();
    idx.index_zettel(test_zettel("1", "A")).unwrap();
    let mut z = test_zettel("2", "B");
    z.meta.zettel_type = Some("projects".into());
    idx.index_zettel(z).unwrap();
    assert_eq!(idx.scan_by_type("project"), vec!["1"]);
    assert_eq!(idx.scan_by_type("projects"), vec!["2"]);
    assert_eq!(idx.scan_by_tag("rust"), vec!["1", "2"]);
}

#[test]
fn keys_join_what_is_looked_for_and_the_identifier() {
    let keys = index_zettel(&test_zettel("7", "A")).unwrap();
    assert_eq!(keys.id, "7");
    assert_eq!(keys.by_type.as_deref(), Some("project/7"));
    assert_eq!(keys.by_tag, ["rust/7", "test/7"]);
    assert_eq!(keys.links, ["20240102000000/7"]);
}

#[test]
fn a_note_without_identifier_is_not_indexed() {
    let mut z = test_zettel("7", "A");
    z.meta.id = None;
    match index_zettel(&z) {
        Err(ZettelError::Validation(m)) => assert_eq!(m, "zettel has no id"),
        other => panic!("{other:?}"),
    }
}

#[test]
fn a_rebuild_passes_over_what_does_not_parse() {
    let files = vec![
        (
            "zettelkasten/20240101000000.md".to_string(),
            Some("---\ntitle: A\n---\nBody".to_string()),
        ),
        ("zettelkasten/20240102000000.md".to_string(), None),
        (
            "zettelkasten/20240103000000.md".to_string(),
            Some("---\ntitle: [\n---\n".to_string()),
        ),
    ];
    let notes = rebuild(&files);
    assert_eq!(notes.len(), 1);
    assert_eq!(notes[0].meta.title.as_deref(), Some("A"));
}
