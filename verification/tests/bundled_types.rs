use zdb_core::bundled_types::{get_bundled_type, list_bundled_types};

#[test]
fn get_project_bundled_type() {
    let content = get_bundled_type("project");
    assert!(content.is_some());
    let content = content.unwrap();
    assert!(content.contains("title: project"));
    assert!(content.contains("type: _typedef"));
    assert!(content.contains("completed"));
    assert!(content.contains("preset:append-log"));
}

#[test]
fn get_contact_bundled_type() {
    let content = get_bundled_type("contact");
    assert!(content.is_some());
    let content = content.unwrap();
    assert!(content.contains("title: contact"));
    assert!(content.contains("email"));
    assert!(content.contains("search_boost: 1.5"));
}

#[test]
fn get_unknown_bundled_type() {
    assert!(get_bundled_type("unknown").is_none());
}

#[test]
fn list_bundled_types_returns_all() {
    let types = list_bundled_types();
    assert_eq!(types.len(), 5);
    assert!(types.contains(&"project"));
    assert!(types.contains(&"contact"));
    assert!(types.contains(&"literature-note"));
    assert!(types.contains(&"meeting-minutes"));
    assert!(types.contains(&"kanban"));
}

#[test]
fn get_literature_note_bundled_type() {
    let content = get_bundled_type("literature-note").unwrap();
    assert!(content.contains("title: literature-note"));
    assert!(content.contains("author"));
    assert!(content.contains("source"));
    assert!(content.contains("year"));
    assert!(content.contains("Summary"));
}

#[test]
fn get_meeting_minutes_bundled_type() {
    let content = get_bundled_type("meeting-minutes").unwrap();
    assert!(content.contains("title: meeting-minutes"));
    assert!(content.contains("attendees"));
    assert!(content.contains("preset:append-log"));
    assert!(content.contains("Decisions"));
}

#[test]
fn get_kanban_bundled_type() {
    let content = get_bundled_type("kanban").unwrap();
    assert!(content.contains("title: kanban"));
    assert!(content.contains("allowed_values"));
    assert!(content.contains("default_value: backlog"));
    assert!(content.contains("preset:last-writer-wins"));
    assert!(content.contains("references: kanban"));
    assert!(content.contains("Acceptance Criteria"));
}
