//! Files attached to notes.
use std::cell::RefCell;
use std::collections::BTreeMap;

use zdb_core::attachments::{
    self, add_attachment, attachment_path, attachment_to_value, parse_attachments,
    remove_attachment, validate_attachment_filename, validate_zettel_id_format, zettel_path,
};
use zdb_core::error::ZettelError;
use zdb_core::textmap::TextMap;
use zdb_core::types::{AttachmentInfo, Value, ZettelId};

type Result<T> = std::result::Result<T, ZettelError>;

/// The contents of the notes, by path.
struct Notes(RefCell<BTreeMap<String, String>>);

impl Notes {
    fn read(&self, id: &ZettelId) -> Result<String> {
        let path = zettel_path(id);
        let files = self.0.borrow();
        files.get(&path).cloned().ok_or(ZettelError::NotFound(path))
    }

    fn write(&self, id: &ZettelId, content: String) {
        self.0.borrow_mut().insert(zettel_path(id), content);
    }
}

fn setup() -> Notes {
    Notes(RefCell::new(BTreeMap::new()))
}

fn create_zettel(notes: &Notes, id: &ZettelId) {
    let content = format!("---\nid: {}\ntitle: Test\n---\nBody text\n", id.0);
    notes.write(id, content);
}

fn attach_file(
    notes: &Notes,
    id: &ZettelId,
    filename: &str,
    bytes: &[u8],
    mime: &str,
) -> Result<AttachmentInfo> {
    attachments::check_attachment(id, filename)?;
    let size = bytes.len() as u64;
    let done = attachments::attach_file(id, &notes.read(id)?, filename, size, mime)?;
    notes.write(id, done.content);
    Ok(done.info)
}

fn detach_file(notes: &Notes, id: &ZettelId, filename: &str) -> Result<String> {
    attachments::check_attachment(id, filename)?;
    let done = attachments::detach_file(id, &notes.read(id)?, filename)?;
    notes.write(id, done.content);
    Ok(done.path)
}

fn list_attachments(notes: &Notes, id: &ZettelId) -> Result<Vec<AttachmentInfo>> {
    validate_zettel_id_format(id)?;
    attachments::list_attachments(id, &notes.read(id)?)
}

fn info(name: &str, size: u64) -> AttachmentInfo {
    AttachmentInfo {
        name: name.to_string(),
        mime: "text/plain".to_string(),
        size,
        path: format!("reference/20260301130000/{name}"),
    }
}

fn names(list: &[AttachmentInfo]) -> Vec<String> {
    list.iter().map(|a| a.name.clone()).collect()
}

#[test]
fn attach_and_list() {
    let notes = setup();
    let id = ZettelId("20260301130000".into());
    create_zettel(&notes, &id);

    let info = attach_file(&notes, &id, "photo.jpg", b"\xFF\xD8\xFF", "image/jpeg").unwrap();
    assert_eq!(info.name, "photo.jpg");
    assert_eq!(info.mime, "image/jpeg");
    assert_eq!(info.size, 3);
    assert_eq!(info.path, "reference/20260301130000/photo.jpg");

    let list = list_attachments(&notes, &id).unwrap();
    assert_eq!(list.len(), 1);
    assert_eq!(list[0].name, "photo.jpg");
}

#[test]
fn attach_multiple_and_detach() {
    let notes = setup();
    let id = ZettelId("20260301130000".into());
    create_zettel(&notes, &id);

    attach_file(&notes, &id, "a.txt", b"aaa", "text/plain").unwrap();
    attach_file(&notes, &id, "b.pdf", b"pdf", "application/pdf").unwrap();
    assert_eq!(list_attachments(&notes, &id).unwrap().len(), 2);

    detach_file(&notes, &id, "a.txt").unwrap();
    let list = list_attachments(&notes, &id).unwrap();
    assert_eq!(list.len(), 1);
    assert_eq!(list[0].name, "b.pdf");
}

#[test]
fn detach_nonexistent_errors() {
    let notes = setup();
    let id = ZettelId("20260301130000".into());
    create_zettel(&notes, &id);

    let err = detach_file(&notes, &id, "nope.txt");
    assert!(err.is_err());
}

#[test]
fn attach_overwrites_same_name() {
    let notes = setup();
    let id = ZettelId("20260301130000".into());
    create_zettel(&notes, &id);

    attach_file(&notes, &id, "file.txt", b"v1", "text/plain").unwrap();
    attach_file(&notes, &id, "file.txt", b"v2data", "text/plain").unwrap();

    let list = list_attachments(&notes, &id).unwrap();
    assert_eq!(list.len(), 1);
    assert_eq!(list[0].size, 6); // "v2data".len()
}

#[test]
fn reject_path_traversal_filename() {
    let notes = setup();
    let id = ZettelId("20260301130000".into());
    create_zettel(&notes, &id);

    for bad in &["../etc/passwd", "foo/bar.txt", "foo\\bar.txt", "..", ""] {
        let err = attach_file(&notes, &id, bad, b"x", "text/plain");
        assert!(err.is_err(), "should reject filename: {bad:?}");

        // detach should also reject
        let err = detach_file(&notes, &id, bad);
        assert!(err.is_err(), "detach should reject filename: {bad:?}");
    }
}

#[test]
fn reject_invalid_zettel_id_format() {
    let notes = setup();

    for bad_id in &["short", "../../etc/pass", "12345678901234/", "abcdefghijklmn"] {
        let id = ZettelId(bad_id.to_string());
        let err = list_attachments(&notes, &id);
        assert!(err.is_err(), "should reject zettel ID: {bad_id:?}");
    }
}

#[test]
fn list_empty_attachments() {
    let notes = setup();
    let id = ZettelId("20260301130000".into());
    create_zettel(&notes, &id);

    let list = list_attachments(&notes, &id).unwrap();
    assert!(list.is_empty());
}

#[test]
fn a_file_name_is_one_plain_component() {
    assert!(validate_attachment_filename("photo.jpg").is_ok());
    assert!(validate_attachment_filename(".hidden").is_ok());
    for bad in ["", "a/b", "a\\b", "..", "a..b"] {
        match validate_attachment_filename(bad) {
            Err(ZettelError::Validation(_)) => {}
            other => panic!("{bad:?}: {other:?}"),
        }
    }
}

#[test]
fn an_identifier_has_fourteen_digits() {
    assert!(validate_zettel_id_format(&ZettelId("20260301130000".into())).is_ok());
    for bad in ["", "2026030113000", "202603011300000", "2026030113000x"] {
        assert!(validate_zettel_id_format(&ZettelId(bad.into())).is_err());
    }
}

#[test]
fn where_attachments_and_notes_lie() {
    let id = ZettelId("20260301130000".into());
    assert_eq!(
        attachment_path(&id, "a.txt"),
        "reference/20260301130000/a.txt"
    );
    assert_eq!(zettel_path(&id), "zettelkasten/20260301130000.md");
}

#[test]
fn attaching_keeps_the_other_attachments() {
    let id = ZettelId("20260301130000".into());
    let mut extra = TextMap::new();
    extra.insert("status".to_string(), Value::String("open".into()));
    add_attachment(&mut extra, &info("a.txt", 1));
    add_attachment(&mut extra, &info("b.txt", 2));
    add_attachment(&mut extra, &info("a.txt", 3));
    let list = parse_attachments(&extra, &id);
    assert_eq!(names(&list), ["a.txt", "b.txt"]);
    assert_eq!(list[0].size, 3);
    assert_eq!(extra.get("status").unwrap().as_str(), Some("open"));
}

#[test]
fn detaching_keeps_the_other_attachments() {
    let id = ZettelId("20260301130000".into());
    let mut extra = TextMap::new();
    add_attachment(&mut extra, &info("a.txt", 1));
    add_attachment(&mut extra, &info("b.txt", 2));
    assert!(remove_attachment(&mut extra, "a.txt"));
    assert_eq!(names(&parse_attachments(&extra, &id)), ["b.txt"]);
    assert!(!remove_attachment(&mut extra, "a.txt"));
}

#[test]
fn attaching_and_detaching_leaves_no_entry() {
    let mut extra = TextMap::new();
    add_attachment(&mut extra, &info("a.txt", 1));
    assert!(remove_attachment(&mut extra, "a.txt"));
    assert!(!extra.contains_key("attachments"));
}

#[test]
fn an_attachment_is_written_with_name_mime_and_size() {
    let v = attachment_to_value(&info("a.txt", 1024));
    let m = v.as_mapping().unwrap();
    assert_eq!(m.len(), 3);
    assert_eq!(m.get("name").unwrap().as_str(), Some("a.txt"));
    assert_eq!(m.get("mime").unwrap().as_str(), Some("text/plain"));
    assert!(m.get("size").unwrap().as_number().is_some());
}

#[test]
fn missing_mime_and_size_have_defaults() {
    let id = ZettelId("20260301130000".into());
    let content = "---\nid: 20260301130000\ntitle: T\nattachments:\n  - name: a.bin\n  - size: 3\n---\n";
    let list = attachments::list_attachments(&id, content).unwrap();
    assert_eq!(names(&list), ["a.bin"]);
    assert_eq!(list[0].mime, "application/octet-stream");
    assert_eq!(list[0].size, 0);
}

#[test]
fn the_note_is_written_with_its_attachments() {
    let id = ZettelId("20260301130000".into());
    let content = "---\nid: 20260301130000\ntitle: Test\n---\nBody text\n";
    let done = attachments::attach_file(&id, content, "a.txt", 3, "text/plain").unwrap();
    assert!(done.content.contains("attachments:"));
    assert!(done.content.contains("name: a.txt"));
    assert!(done.content.contains("Body text"));
    assert_eq!(done.zettel.path, "zettelkasten/20260301130000.md");
    let gone = attachments::detach_file(&id, &done.content, "a.txt").unwrap();
    assert_eq!(gone.path, "reference/20260301130000/a.txt");
    assert!(!gone.content.contains("attachments:"));
    match attachments::detach_file(&id, content, "a.txt") {
        Err(ZettelError::NotFound(_)) => {}
        _ => panic!("nothing was attached"),
    }
}
