//! Type definitions that come with the library.
use crate::text;
use vstd::prelude::*;

verus! {

broadcast use vstd::string::group_string_axioms;

/// A project with a log.
pub const PROJECT_TYPEDEF: &'static str = "\
---
title: project
type: _typedef
columns:
  - name: completed
    data_type: BOOLEAN
    zone: frontmatter
  - name: deliverable
    data_type: TEXT
    zone: frontmatter
  - name: parent
    data_type: TEXT
    zone: reference
    references: project
  - name: ticket
    data_type: TEXT
    zone: reference
  - name: us
    data_type: TEXT
    zone: reference
crdt_strategy: preset:append-log
template_sections:
  - Description
  - Log
  - Plan
  - Solution
---
";

/// A person or a company.
pub const CONTACT_TYPEDEF: &'static str = "\
---
title: contact
type: _typedef
columns:
  - name: aliases
    data_type: TEXT
    zone: frontmatter
  - name: contact-type
    data_type: TEXT
    zone: frontmatter
  - name: email
    data_type: TEXT
    zone: frontmatter
    search_boost: 1.5
crdt_strategy: preset:default
template_sections:
  - First contact
  - Timeline
  - Relationships
---
";

/// Notes on a text that was read.
pub const LITERATURE_NOTE_TYPEDEF: &'static str = "\
---
title: literature-note
type: _typedef
columns:
  - name: author
    data_type: TEXT
    zone: frontmatter
  - name: source
    data_type: TEXT
    zone: frontmatter
  - name: year
    data_type: INTEGER
    zone: frontmatter
  - name: url
    data_type: TEXT
    zone: frontmatter
crdt_strategy: preset:default
template_sections:
  - Summary
  - Key Arguments
  - Quotes
  - Personal Response
---
";

/// The minutes of a meeting.
pub const MEETING_MINUTES_TYPEDEF: &'static str = "\
---
title: meeting-minutes
type: _typedef
columns:
  - name: date
    data_type: TEXT
    zone: frontmatter
  - name: attendees
    data_type: TEXT
    zone: frontmatter
  - name: location
    data_type: TEXT
    zone: frontmatter
crdt_strategy: preset:append-log
template_sections:
  - Agenda
  - Log
  - Decisions
  - Action Items
---
";

/// A card on a board.
pub const KANBAN_TYPEDEF: &'static str = "\
---
title: kanban
type: _typedef
columns:
  - name: status
    data_type: TEXT
    zone: frontmatter
    allowed_values:
      - backlog
      - todo
      - doing
      - done
      - blocked
    default_value: backlog
  - name: priority
    data_type: TEXT
    zone: frontmatter
    allowed_values:
      - low
      - medium
      - high
      - critical
  - name: assignee
    data_type: TEXT
    zone: frontmatter
  - name: due
    data_type: TEXT
    zone: frontmatter
  - name: parent
    data_type: TEXT
    zone: reference
    references: kanban
crdt_strategy: preset:last-writer-wins
template_sections:
  - Description
  - Acceptance Criteria
---
";

/// The text of a type definition that comes with the library.
pub open spec fn bundled_type(name: Seq<char>) -> Option<Seq<char>> {
    if name == "project"@ {
        Some(PROJECT_TYPEDEF@)
    } else if name == "contact"@ {
        Some(CONTACT_TYPEDEF@)
    } else if name == "literature-note"@ {
        Some(LITERATURE_NOTE_TYPEDEF@)
    } else if name == "meeting-minutes"@ {
        Some(MEETING_MINUTES_TYPEDEF@)
    } else if name == "kanban"@ {
        Some(KANBAN_TYPEDEF@)
    } else {
        None
    }
}

/// The type definition of a name, if one comes with the library.
pub fn get_bundled_type(name: &str) -> (r: Option<&'static str>)
    ensures
        match r {
            Some(s) => bundled_type(name@) == Some(s@),
            None => bundled_type(name@) is None,
        },
{
    if text::same(name, "project") {
        Some(PROJECT_TYPEDEF)
    } else if text::same(name, "contact") {
        Some(CONTACT_TYPEDEF)
    } else if text::same(name, "literature-note") {
        Some(LITERATURE_NOTE_TYPEDEF)
    } else if text::same(name, "meeting-minutes") {
        Some(MEETING_MINUTES_TYPEDEF)
    } else if text::same(name, "kanban") {
        Some(KANBAN_TYPEDEF)
    } else {
        None
    }
}

/// The names of the type definitions that come with the library.
pub open spec fn bundled_names() -> Seq<Seq<char>> {
    seq!["contact"@, "kanban"@, "literature-note"@, "meeting-minutes"@, "project"@]
}

pub fn list_bundled_types() -> (r: Vec<&'static str>)
    ensures
        Seq::new(r@.len(), |i: int| r@[i]@) == bundled_names(),
{
    let mut v: Vec<&'static str> = Vec::new();
    v.push("contact");
    v.push("kanban");
    v.push("literature-note");
    v.push("meeting-minutes");
    v.push("project");
    proof {
        assert(Seq::new(v@.len(), |i: int| v@[i]@) =~= bundled_names());
    }
    v
}

/// The names that are listed are those that have a definition.
pub proof fn law_listed_types(name: Seq<char>)
    ensures
        bundled_names().contains(name) == (bundled_type(name) is Some),
{
    let l = bundled_names();
    assert(l[0] == "contact"@ && l[1] == "kanban"@ && l[2] == "literature-note"@ && l[3]
        == "meeting-minutes"@ && l[4] == "project"@);
    if bundled_type(name) is Some {
        assert(exists|i: int| 0 <= i < l.len() && l[i] == name);
    }
}

} // verus!
