use zdb_core::types::AttachmentInfo;

#[test]
fn mime_from_filename_common_types() {
    assert_eq!(
        AttachmentInfo::mime_from_filename("photo.jpg"),
        "image/jpeg"
    );
    assert_eq!(
        AttachmentInfo::mime_from_filename("photo.JPEG"),
        "image/jpeg"
    );
    assert_eq!(AttachmentInfo::mime_from_filename("icon.png"), "image/png");
    assert_eq!(
        AttachmentInfo::mime_from_filename("doc.pdf"),
        "application/pdf"
    );
    assert_eq!(AttachmentInfo::mime_from_filename("data.csv"), "text/csv");
    assert_eq!(AttachmentInfo::mime_from_filename("page.html"), "text/html");
    assert_eq!(
        AttachmentInfo::mime_from_filename("notes.md"),
        "text/markdown"
    );
}

#[test]
fn mime_from_filename_fallback() {
    assert_eq!(
        AttachmentInfo::mime_from_filename("file.xyz"),
        "application/octet-stream"
    );
    assert_eq!(
        AttachmentInfo::mime_from_filename("noext"),
        "application/octet-stream"
    );
}

#[test]
fn a_name_without_a_dot_has_no_extension() {
    assert_eq!(
        AttachmentInfo::mime_from_filename("png"),
        "application/octet-stream"
    );
    assert_eq!(AttachmentInfo::mime_from_filename(".png"), "image/png");
    assert_eq!(
        AttachmentInfo::mime_from_filename("a.png.bak"),
        "application/octet-stream"
    );
}
