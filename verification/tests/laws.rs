//! The laws of the library on concrete values, and its edge cases.
use zdb_core::bundled_types::{get_bundled_type, list_bundled_types};
use zdb_core::compaction::{
    first_compact_step, next_compact_step, parse_crdt_temp_name, CompactStep,
};
use zdb_core::crdt_resolver::{
    entry_dedup_key, extract_entry_date, merge_log_section, pick_lww_winner, resolve_append_log,
    resolve_conflicts, resolve_lww,
};
use zdb_core::effects::{
    delete_row, delete_rows, handle_commit, handle_insert, hold_back, update_row, update_rows,
    Effect, FoundRows,
};
use zdb_core::error::{ZdbError, ZettelError};
use zdb_core::hlc::{append_hlc_trailer, extract_hlc, Hlc};
use zdb_core::ids::{candidate_id, unique_ids, LAST_SECOND};
use zdb_core::index_plan::{
    create_table_sql, delete_row_sql, drop_table_sql, insert_row_sql, is_stale, plan_refresh,
    plan_reindex, rebuild, resolve_link, select_ids_sql, update_row_sql, Refresh, Step,
};
use zdb_core::index_sql::{
    index_zettel, remove_zettel, Bound, Statement, DROP_ALIASES, DROP_ATTACHMENTS, DROP_FIELDS,
    DROP_LINKS, DROP_NOTE, DROP_SEARCH, DROP_TAGS, PUT_FIELD, PUT_LINK, PUT_NOTE, PUT_SEARCH,
    PUT_TAG,
};
use zdb_core::indexer::{
    extract_body_section, extract_column_value, infer_yaml_type, load_all_typedefs, merge_schemas,
    widen_types,
};
use zdb_core::merge::{merge_body, merge_reference, plan_edits};
use zdb_core::docs::Tag;
use zdb_core::merge_fm::{merge_frontmatter, yaml_needs_quotes, yaml_to_map, FmValue};
use zdb_core::parser::{
    extract_wikilinks, is_reference_line, parse, rewrite_wikilinks, serialize, split_zones, IdSource,
};
use zdb_core::rows::{
    apply_updates_to_zettel, build_data_zettel, rename_reference, rename_section, to_yaml_value,
    update_body_section, update_reference_line,
};
use zdb_core::schema::{build_typedef_zettel, schema_from_parsed};
use zdb_core::sql::{parse_batch, unquote_identifier, SqlStatement};
use zdb_core::sql_engine::{
    begin, check_allowed, dispatch, extract_columns, is_reserved_table, plan_commit, read_buffered, row_cells,
    typedef_content, SqlResult, TransactionBuffer,
};
use zdb_core::sql_plan::{plan_insert, where_error, NoteEdit};
use zdb_core::textmap::TextMap;
use zdb_core::types::{
    ColumnDef, ConflictFile, DiffKind, TableSchema, Value, ZettelId, Zone,
};

fn column(name: &str, data_type: &str, zone: Zone) -> ColumnDef {
    ColumnDef {
        name: name.to_string(),
        data_type: data_type.to_string(),
        references: None,
        zone: Some(zone),
        required: false,
        search_boost: None,
        allowed_values: None,
        default_value: None,
    }
}

fn schema(columns: Vec<ColumnDef>) -> TableSchema {
    TableSchema {
        table_name: "task".to_string(),
        columns,
        crdt_strategy: None,
        template_sections: Vec::new(),
    }
}

fn cells(pairs: &[(&str, &str)]) -> TextMap<String> {
    let mut m = TextMap::new();
    for (k, v) in pairs {
        m.insert(k.to_string(), v.to_string());
    }
    m
}

fn strings(v: &[&str]) -> Vec<String> {
    v.iter().map(|s| s.to_string()).collect()
}

fn stamp(wall_ms: u64, counter: u32, node: &str) -> Hlc {
    Hlc {
        wall_ms,
        counter,
        node: node.to_string(),
    }
}

fn conflict(ours: &str, theirs: &str, a: Option<Hlc>, b: Option<Hlc>) -> ConflictFile {
    ConflictFile {
        path: "zettelkasten/1.md".to_string(),
        ancestor: None,
        ours: ours.to_string(),
        theirs: theirs.to_string(),
        ours_hlc: a,
        theirs_hlc: b,
    }
}

// Maps --------------------------------------------------------------------

#[test]
fn a_map_keeps_its_keys_in_order() {
    let m = cells(&[("b", "1"), ("a", "2"), ("c", "3"), ("b", "4")]);
    let keys: Vec<&str> = m.entries.iter().map(|(k, _)| k.as_str()).collect();
    assert_eq!(keys, ["a", "b", "c"]);
    assert_eq!(m.get("b").map(|s| s.as_str()), Some("4"));
    assert_eq!(m.get("a").map(|s| s.as_str()), Some("2"));
    assert_eq!(m.len(), 3);
}

#[test]
fn the_order_of_two_insertions_does_not_matter() {
    let a = cells(&[("x", "1"), ("y", "2")]);
    let b = cells(&[("y", "2"), ("x", "1")]);
    assert_eq!(a.entries, b.entries);
}

#[test]
fn removing_keeps_the_rest() {
    let mut m = cells(&[("a", "1"), ("b", "2"), ("c", "3")]);
    assert_eq!(m.remove("b").as_deref(), Some("2"));
    assert_eq!(m.remove("b"), None);
    assert_eq!(m.len(), 2);
    assert!(m.contains_key("a") && m.contains_key("c"));
}

// Time stamps ---------------------------------------------------------------

#[test]
fn a_time_stamp_reads_back() {
    let h = stamp(1772323200000, 7, "node-1");
    let back = Hlc::parse(&h.to_text()).unwrap();
    assert_eq!(back, h);
    let msg = append_hlc_trailer("subject\n\nbody", &h);
    assert_eq!(extract_hlc(&msg).unwrap(), h);
}

#[test]
fn the_order_of_time_stamps_is_total() {
    let a = stamp(1, 0, "a");
    let b = stamp(1, 0, "b");
    assert!(a < b && !(b < a));
    assert!(stamp(1, 1, "a") > b);
    assert_eq!(a.partial_cmp(&a), Some(std::cmp::Ordering::Equal));
}

#[test]
fn a_clock_never_goes_back() {
    let last = stamp(100, 3, "a");
    let next = Hlc::tick(50, "a", &Some(last.clone()));
    assert_eq!(next, stamp(100, 4, "a"));
    assert_eq!(Hlc::tick(200, "a", &Some(last.clone())), stamp(200, 0, "a"));
    let remote = stamp(300, 9, "b");
    assert_eq!(Hlc::merge(50, "a", &Some(last), &remote), stamp(300, 10, "a"));
}

#[test]
fn bad_time_stamps_are_refused() {
    for bad in ["", "1", "1-2", "x-0000-n", "1-y-n"] {
        match Hlc::parse(bad) {
            Err(ZettelError::Parse(_)) => {}
            other => panic!("{bad:?}: {other:?}"),
        }
    }
}

// Zones and notes -----------------------------------------------------------

#[test]
fn zones_read_back() {
    let content = "---\nid: 20260301000000\ntitle: T\n---\nBody\n\n- [x] done\n---\n- a:: b\n";
    let z = parse(content, "zettelkasten/20260301000000.md").unwrap();
    let again = serialize(&z);
    let y = parse(&again, "zettelkasten/20260301000000.md").unwrap();
    assert_eq!(y.body, z.body);
    assert_eq!(y.reference_section, z.reference_section);
    assert_eq!(y.inline_fields.len(), z.inline_fields.len());
    assert_eq!(serialize(&y), again);
}

#[test]
fn a_body_with_a_rule_is_no_reference_section() {
    let z = split_zones("---\ntitle: T\n---\nBefore\n\n---\n\nAfter").unwrap();
    assert_eq!(z.reference_section, "");
    assert!(z.body.contains("After"));
}

#[test]
fn lines_of_a_reference_section() {
    assert!(is_reference_line("- source:: Wikipedia"));
    assert!(is_reference_line("- source::"));
    assert!(!is_reference_line("- source: Wikipedia"));
    assert!(!is_reference_line("plain text"));
}

#[test]
fn rewriting_what_is_not_there_changes_nothing() {
    let s = "see [[a]] and [[b|c]]";
    assert_eq!(rewrite_wikilinks(s, "x", "y"), s);
    assert_eq!(rewrite_wikilinks(s, "a", "a"), s);
    assert_eq!(rewrite_wikilinks(s, "b", "z"), "see [[a]] and [[z|c]]");
}

#[test]
fn texts_of_the_front_matter_are_taken_as_written() {
    let content = "---\ntitle: 1.50 # a comment\ndate: True\ntype: 0x1F\ntags:\n  - 1.10\n  # none\n  - FALSE\n  - x\n---\n";
    let z = parse(content, "a.md").unwrap();
    assert_eq!(z.meta.title.as_deref(), Some("1.50"));
    assert_eq!(z.meta.date.as_deref(), Some("True"));
    assert_eq!(z.meta.zettel_type.as_deref(), Some("0x1F"));
    assert_eq!(z.meta.tags, ["1.10", "FALSE", "x"]);
    let z = parse("---\ntags: [1.10, 2]\ntitle: ~\n---\n", "a.md").unwrap();
    assert_eq!(z.meta.tags, ["1.10", "2"]);
    assert_eq!(z.meta.title, None);
    assert!(parse("---\ntags:\n---\n", "a.md").unwrap().meta.tags.is_empty());
    assert!(parse("---\ntags: ~\n---\n", "a.md").is_err());
    assert!(parse("---\ntags: x\n---\n", "a.md").is_err());
    assert!(parse("---\ntitle: [x]\n---\n", "a.md").is_err());
    assert!(parse("---\nid: 1.5\n---\n", "a.md").is_err());
}

#[test]
fn errors_of_parsing() {
    assert!(matches!(
        parse("no front matter", "a.md"),
        Err(ZettelError::Parse(_))
    ));
    assert!(matches!(
        parse("---\ntitle: [\n---\n", "a.md"),
        Err(ZettelError::Yaml(_))
    ));
    assert!(matches!(
        parse("---\ntitle: T\n---\nk:: 1\n---\n- k:: 2\n", "a.md"),
        Err(ZettelError::Validation(_))
    ));
}

#[test]
fn an_identifier_is_given_once() {
    let mut ids = IdSource::new();
    assert_eq!(ids.offer("20260301000000", false).unwrap().0, "20260301000000");
    assert!(ids.offer("20260301000000", false).is_none());
    assert!(ids.offer("20260301000001", true).is_none());
    assert!(ids.offer("20260301000001", false).is_some());
}

#[test]
fn further_identifiers_are_the_next_free_seconds() {
    let taken = strings(&["20260301000001"]);
    let ids = unique_ids("20260228235959", &strings(&[]), 2).unwrap();
    assert_eq!(ids[0].0, "20260228235959");
    assert_eq!(ids[1].0, "20260301000000");
    let ids = unique_ids("20260301000000", &taken, 3).unwrap();
    let texts: Vec<&str> = ids.iter().map(|i| i.0.as_str()).collect();
    assert_eq!(
        texts,
        ["20260301000000", "20260301000002", "20260301000003"]
    );
    assert!(unique_ids("no time", &strings(&[]), 2).is_err());
}

// YAML ----------------------------------------------------------------------

#[test]
fn values_read_back_from_yaml() {
    let mut z = parse("---\nid: 20260301000000\n---\nBody\n", "a.md").unwrap();
    let v = Value::List(vec![
        Value::String("a".to_string()),
        Value::Bool(true),
        to_yaml_value("2.5", "REAL"),
    ]);
    z.meta.extra.insert("list".to_string(), v);
    let text = serialize(&z);
    assert!(text.contains("list:\n- a\n- true\n- 2.5\n"));
    let back = parse(&text, "a.md").unwrap();
    let l = back.meta.extra.get("list").unwrap().as_sequence().unwrap();
    assert_eq!(l[0].as_str(), Some("a"));
    assert_eq!(l[1].as_bool(), Some(true));
    assert_eq!(l[2].as_number().unwrap().display, "2.5");
}

#[test]
fn numbers_are_shown_as_floats_are() {
    let v = to_yaml_value("42", "INTEGER");
    let r = v.as_number().unwrap();
    assert_eq!(r.display, "42");
    assert_eq!(r.debug, "42.0");
    assert_eq!(r.yaml, "42.0");
    assert_eq!(r.as_u64, 42);
    let v = to_yaml_value("-3.7", "REAL");
    let r = v.as_number().unwrap();
    assert_eq!(r.display, "-3.7");
    assert_eq!(r.as_i64, -3);
    assert_eq!(r.as_u64, 0);
    assert_eq!(to_yaml_value("x", "REAL").as_str(), Some("x"));
}

// Merging -------------------------------------------------------------------

#[test]
fn the_later_stamp_wins_whoever_has_it() {
    let early = Some(stamp(1, 0, "a"));
    let late = Some(stamp(2, 0, "b"));
    assert_eq!(
        pick_lww_winner(&conflict("x", "y", early.clone(), late.clone())),
        "y"
    );
    assert_eq!(pick_lww_winner(&conflict("y", "x", late, early)), "y");
    assert_eq!(pick_lww_winner(&conflict("x", "x", None, None)), "x");
    let r = resolve_lww(vec![conflict("x", "y", None, None)]).unwrap();
    assert_eq!(r[0].content, "x");
    assert_eq!(r[0].path, "zettelkasten/1.md");
}

#[test]
fn log_entries_of_both_sides_are_kept_in_order() {
    let a = "- [x] 2026-01-01: one";
    let ours = format!("{a}\n- [x] 2026-01-03: three");
    let theirs = format!("{a}\n- [x] 2026-01-02: two");
    let merged = merge_log_section(a, &ours, &theirs);
    let one = merged.find("one").unwrap();
    let two = merged.find("two").unwrap();
    let three = merged.find("three").unwrap();
    assert!(one < two && two < three);
    assert_eq!(merge_log_section(a, a, a).trim(), a);
    assert_eq!(
        extract_entry_date("- [x] 2026-01-01: one").as_deref(),
        Some("2026-01-01")
    );
    assert_eq!(extract_entry_date("no entry"), None);
    assert_eq!(
        entry_dedup_key("- [x] 2026-01-01: one"),
        entry_dedup_key("- [ ] 2026-01-01: one")
    );
}

#[test]
fn unparsable_sides_of_a_log_are_refused() {
    assert!(resolve_append_log(vec![conflict("a", "b", None, None)]).is_err());
    assert!(resolve_conflicts(vec![conflict("a", "b", None, None)], None).is_err());
    assert!(
        resolve_conflicts(vec![conflict("a", "b", None, None)], Some("preset:append-log"))
            .is_err()
    );
    let r = resolve_conflicts(vec![conflict("a", "b", None, None)], Some("preset:last-writer-wins"));
    assert_eq!(r.unwrap()[0].content, "a");
}

#[test]
fn references_of_both_sides_are_joined() {
    let ab = merge_reference("- a:: 1", "- a:: 1\n- b:: 2", "- a:: 1\n- c:: 3").unwrap();
    let ba = merge_reference("- a:: 1", "- a:: 1\n- c:: 3", "- a:: 1\n- b:: 2").unwrap();
    assert_eq!(ab, ba);
    for line in ["- a:: 1", "- b:: 2", "- c:: 3"] {
        assert!(ab.contains(line));
    }
    assert_eq!(
        merge_reference("- a:: 1", "- a:: 1", "- a:: 1").unwrap(),
        "- a:: 1"
    );
}

#[test]
fn a_body_changed_on_one_side_is_that_side() {
    assert_eq!(merge_body("abc", "aXc", "abc").unwrap(), "aXc");
    assert_eq!(merge_body("abc", "abc", "ab").unwrap(), "ab");
    assert_eq!(merge_body("abc", "abc", "abc").unwrap(), "abc");
}

#[test]
fn edits_delete_and_insert_in_place() {
    let changes = vec![
        (Tag::Equal, 'a'),
        (Tag::Delete, 'b'),
        (Tag::Insert, 'x'),
        (Tag::Equal, 'c'),
    ];
    let edits = plan_edits(&changes);
    let parts: Vec<(usize, usize, &str)> = edits
        .iter()
        .map(|e| (e.pos, e.delete, e.insert.as_str()))
        .collect();
    assert_eq!(parts, [(1, 1, ""), (2, 0, "x")]);
}

#[test]
fn fields_merge_one_by_one() {
    let merged = merge_frontmatter(
        "title: A\nstatus: open",
        "title: B\nstatus: open",
        "title: A\nstatus: done",
    )
    .unwrap();
    assert!(merged.contains("title: B"));
    assert!(merged.contains("status: done"));
    let m = yaml_to_map("tags:\n- x\n- y\ntitle: T").unwrap();
    assert_eq!(m.len(), 2);
    assert!(yaml_to_map("a: [").is_err());
}

#[test]
fn lists_merge_without_order_of_sides() {
    let a = "tags:\n- x";
    let b = "tags:\n- x\n- y";
    let c = "tags:\n- x\n- z";
    let one = merge_frontmatter(a, b, c).unwrap();
    let two = merge_frontmatter(a, c, b).unwrap();
    for tag in ["x", "y", "z"] {
        assert!(one.contains(tag) && two.contains(tag));
    }
}

#[test]
fn texts_that_would_read_otherwise_are_quoted() {
    for s in ["a: b", "#x", "[x]", "{x}", "[[x]]"] {
        assert!(yaml_needs_quotes(s), "{s:?}");
    }
    assert!(!yaml_needs_quotes("plain text"));
}

// Tables --------------------------------------------------------------------

#[test]
fn a_schema_reads_back_from_its_note() {
    let mut c = column("status", "TEXT", Zone::Frontmatter);
    c.required = true;
    c.allowed_values = Some(strings(&["open", "done"]));
    c.default_value = Some("open".to_string());
    let mut s = schema(vec![c, column("notes", "TEXT", Zone::Body)]);
    s.crdt_strategy = Some("preset:append-log".to_string());
    let id = ZettelId("20260301000000".to_string());
    let z = build_typedef_zettel(&id, &s);
    let back = schema_from_parsed(&z).unwrap();
    assert_eq!(back.table_name, "task");
    assert_eq!(back.columns.len(), 2);
    assert_eq!(back.columns[0].allowed_values, s.columns[0].allowed_values);
    assert_eq!(back.columns[0].default_value.as_deref(), Some("open"));
    assert!(back.columns[0].required);
    assert_eq!(back.crdt_strategy.as_deref(), Some("preset:append-log"));
    let text = typedef_content(&id, &s);
    let again = schema_from_parsed(&parse(&text, "a.md").unwrap()).unwrap();
    assert_eq!(again.columns[0].name, "status");
}

#[test]
fn an_inserted_row_reads_back() {
    let s = schema(vec![
        column("status", "TEXT", Zone::Frontmatter),
        column("count", "INTEGER", Zone::Frontmatter),
        column("name", "TEXT", Zone::Body),
        column("notes", "TEXT", Zone::Body),
        column("parent", "TEXT", Zone::Reference),
    ]);
    let row = cells(&[
        ("status", "open"),
        ("name", "A name"),
        ("count", "3"),
        ("notes", "first\nsecond"),
        ("parent", "20260101000000"),
    ]);
    let id = ZettelId("20260301000000".to_string());
    let z = build_data_zettel(&id, &s, &row);
    let z = parse(&serialize(&z), "zettelkasten/20260301000000.md").unwrap();
    for c in &s.columns {
        assert_eq!(&extract_column_value(&z, c), row.get(&c.name).unwrap());
    }
}

#[test]
fn an_updated_section_reads_back_and_leaves_the_others() {
    let mut body = "## a\n\none\n\n## b\n\ntwo\n".to_string();
    update_body_section(&mut body, "a", "new\nlines");
    assert_eq!(extract_body_section(&body, "a"), "new\nlines");
    assert_eq!(extract_body_section(&body, "b"), "two");
    update_body_section(&mut body, "c", "three");
    assert_eq!(extract_body_section(&body, "c"), "three");
    assert_eq!(extract_body_section(&body, "b"), "two");
}

#[test]
fn an_updated_line_of_the_references_is_the_only_one_changed() {
    let mut r = "- a:: 1\n- b:: 2".to_string();
    update_reference_line(&mut r, "a", "9");
    assert_eq!(r, "- a:: [[9]]\n- b:: 2\n");
    update_reference_line(&mut r, "c", "3");
    assert_eq!(r, "- a:: [[9]]\n- b:: 2\n- c:: [[3]]\n");
}

#[test]
fn an_update_changes_the_named_cells_only() {
    let s = schema(vec![
        column("status", "TEXT", Zone::Frontmatter),
        column("notes", "TEXT", Zone::Body),
    ]);
    let id = ZettelId("20260301000000".to_string());
    let row = cells(&[("status", "open"), ("notes", "n")]);
    let mut z = build_data_zettel(&id, &s, &row);
    apply_updates_to_zettel(&mut z, &s, &cells(&[("status", "done")]));
    assert_eq!(extract_column_value(&z, &s.columns[0]), "done");
    assert_eq!(extract_column_value(&z, &s.columns[1]), "n");
}

#[test]
fn cells_are_typed_by_their_columns() {
    assert_eq!(to_yaml_value("1", "TEXT").as_str(), Some("1"));
    assert_eq!(to_yaml_value("1", "INTEGER").as_number().unwrap().display, "1");
    assert_eq!(to_yaml_value("1.5", "REAL").as_number().unwrap().display, "1.5");
    assert_eq!(to_yaml_value("true", "BOOLEAN").as_bool(), Some(true));
    assert_eq!(to_yaml_value("x", "INTEGER").as_str(), Some("x"));
}

#[test]
fn defaults_fill_what_is_not_given() {
    let mut c = column("status", "TEXT", Zone::Frontmatter);
    c.default_value = Some("open".to_string());
    let cs = vec![c, column("name", "TEXT", Zone::Frontmatter)];
    let m = row_cells(&cs, &strings(&["name"]), &strings(&["x"])).unwrap();
    assert_eq!(m.get("status").map(|s| s.as_str()), Some("open"));
    assert_eq!(m.get("name").map(|s| s.as_str()), Some("x"));
}

#[test]
fn a_value_that_is_not_allowed_is_refused() {
    let mut c = column("status", "TEXT", Zone::Frontmatter);
    c.allowed_values = Some(strings(&["open", "done"]));
    let cs = vec![c];
    assert!(check_allowed(&cs, &cells(&[("status", "open")])).is_ok());
    match check_allowed(&cs, &cells(&[("status", "lost")])) {
        Err(e) => assert!(e.message().contains("not in allowed values")),
        Ok(_) => panic!("not allowed"),
    }
}

#[test]
fn types_widen_to_hold_all_values() {
    assert_eq!(widen_types(&strings(&["INTEGER", "INTEGER"])), "INTEGER");
    assert_eq!(widen_types(&strings(&["INTEGER", "REAL"])), "REAL");
    assert_eq!(widen_types(&strings(&["REAL", "INTEGER", "REAL"])), "REAL");
    assert_eq!(widen_types(&strings(&["BOOLEAN", "INTEGER"])), "TEXT");
    assert_eq!(widen_types(&strings(&[])), "TEXT");
    assert_eq!(widen_types(&strings(&["INTEGER", "TEXT"])), "TEXT");
    assert_eq!(infer_yaml_type(&Value::Bool(true)), "BOOLEAN");
    assert_eq!(infer_yaml_type(&to_yaml_value("2", "INTEGER")), "INTEGER");
    assert_eq!(infer_yaml_type(&to_yaml_value("2.5", "REAL")), "REAL");
}

#[test]
fn a_given_schema_wins_over_an_inferred_one() {
    let mut given = schema(vec![column("a", "INTEGER", Zone::Frontmatter)]);
    given.crdt_strategy = Some("preset:append-log".to_string());
    let inferred = schema(vec![
        column("a", "TEXT", Zone::Body),
        column("b", "TEXT", Zone::Body),
    ]);
    let m = merge_schemas(Some(given), inferred);
    let names: Vec<&str> = m.columns.iter().map(|c| c.name.as_str()).collect();
    assert_eq!(names, ["a", "b"]);
    assert_eq!(m.columns[0].data_type, "INTEGER");
    assert_eq!(m.crdt_strategy.as_deref(), Some("preset:append-log"));
}

#[test]
fn a_column_refers_to_the_first_table_that_it_names() {
    let stmts = parse_batch("CREATE TABLE t (a VARCHAR(9), b INT, c TEXT REFERENCES \"People\")");
    let stmts = stmts.unwrap();
    let columns = match &stmts[0] {
        SqlStatement::CreateTable { columns, .. } => extract_columns(columns),
        other => panic!("{other:?}"),
    };
    let types: Vec<&str> = columns.iter().map(|c| c.data_type.as_str()).collect();
    assert_eq!(types, ["TEXT", "INTEGER", "TEXT"]);
    assert_eq!(columns[2].references.as_deref(), Some("people"));
    assert_eq!(columns[2].zone, Some(Zone::Reference));
    assert_eq!(columns[1].zone, Some(Zone::Frontmatter));
    assert_eq!(columns[0].zone, Some(Zone::Body));
}

#[test]
fn statements_on_tables() {
    let s = schema(vec![column("count", "INTEGER", Zone::Frontmatter)]);
    assert_eq!(
        create_table_sql(&s, true),
        "CREATE TABLE IF NOT EXISTS \"task\" (id TEXT PRIMARY KEY, \"count\" INTEGER)"
    );
    assert_eq!(drop_table_sql("task"), "DROP TABLE IF EXISTS \"task\"");
    assert_eq!(
        insert_row_sql(&s, false),
        "INSERT INTO \"task\" (id, \"count\") VALUES (?1, ?2)"
    );
    assert_eq!(
        select_ids_sql("task", Some("x = 1")),
        "SELECT id FROM \"task\" WHERE x = 1"
    );
    assert_eq!(delete_row_sql("task"), "DELETE FROM \"task\" WHERE id = ?1");
    let (sql, values) = update_row_sql(&s, "7", &cells(&[("count", "2")])).unwrap();
    assert_eq!(sql, "UPDATE \"task\" SET \"count\" = ?1 WHERE id = ?2");
    assert_eq!(values, ["2", "7"]);
    assert!(update_row_sql(&s, "7", &cells(&[])).is_none());
}

// Refreshing the index ------------------------------------------------------

#[test]
fn what_is_refreshed_follows_the_head() {
    let head = Some("a".to_string());
    assert!(!is_stale(&head, "a"));
    assert!(is_stale(&head, "b"));
    assert!(is_stale(&None, "a"));
    assert!(matches!(plan_refresh(false, &head, "a"), Refresh::UpToDate));
    assert!(matches!(plan_refresh(true, &head, "a"), Refresh::Full));
    assert!(matches!(plan_refresh(false, &None, "a"), Refresh::Full));
    match plan_refresh(false, &head, "b") {
        Refresh::Since(old) => assert_eq!(old, "a"),
        _ => panic!("head moved"),
    }
}

#[test]
fn changes_become_steps() {
    let changes = vec![
        (DiffKind::Added, "zettelkasten/20260301000000.md".to_string()),
        (
            DiffKind::Deleted,
            "zettelkasten/_typedef/20260301000001.md".to_string(),
        ),
    ];
    let (steps, typedef) = plan_reindex(&changes);
    assert!(typedef);
    match (&steps[0], &steps[1]) {
        (Step::Index(p), Step::Remove(id)) => {
            assert_eq!(p, "zettelkasten/20260301000000.md");
            assert_eq!(id, "20260301000001");
        }
        _ => panic!("one of each"),
    }
}

#[test]
fn links_resolve_by_identifier_first() {
    let id = Some("by id".to_string());
    let alias = Some("by alias".to_string());
    assert_eq!(
        resolve_link("t", id, true, alias.clone()).as_deref(),
        Some("by id")
    );
    assert_eq!(
        resolve_link("t", None, true, alias.clone()).as_deref(),
        Some("t")
    );
    assert_eq!(
        resolve_link("t", None, false, alias).as_deref(),
        Some("by alias")
    );
    assert_eq!(resolve_link("t", None, false, None), None);
}

#[test]
fn a_note_is_indexed_in_place_of_what_was_there() {
    let content = "---\nid: 20260301000000\ntitle: T\ntags:\n  - x\nstatus: open\n---\nBody [[a|b]]\n";
    let z = parse(content, "zettelkasten/20260301000000.md").unwrap();
    let first = |present: bool| index_zettel(&z, present, "now")[0].sql;
    assert_eq!(first(true), DROP_SEARCH);
    assert_eq!(first(false), PUT_NOTE);
    let statements = index_zettel(&z, false, "now");
    let sql: Vec<&str> = statements.iter().map(|s| s.sql).collect();
    assert_eq!(
        sql,
        [
            PUT_NOTE,
            DROP_TAGS,
            DROP_FIELDS,
            DROP_LINKS,
            DROP_ALIASES,
            PUT_TAG,
            PUT_FIELD,
            PUT_LINK,
            DROP_ATTACHMENTS,
            PUT_SEARCH,
        ]
    );
    let shown = |s: &Statement| -> Vec<String> {
        s.values
            .iter()
            .map(|v| match v {
                Bound::Null => "null".to_string(),
                Bound::Text(t) => t.clone(),
                Bound::Whole(n) => n.to_string(),
            })
            .collect()
    };
    assert_eq!(
        shown(&statements[0]),
        [
            "20260301000000",
            "T",
            "",
            "",
            "zettelkasten/20260301000000.md",
            "Body [[a|b]]",
            "now",
        ]
    );
    assert_eq!(
        shown(&statements[6]),
        ["20260301000000", "status", "open", "Frontmatter"]
    );
    assert_eq!(shown(&statements[7]), ["20260301000000", "a", "b", "Body"]);
    let removal: Vec<&str> = remove_zettel("1").iter().map(|s| s.sql).collect();
    assert_eq!(
        removal,
        [DROP_SEARCH, DROP_TAGS, DROP_FIELDS, DROP_LINKS, DROP_ALIASES, DROP_NOTE]
    );
}

#[test]
fn schemas_are_loaded_by_name() {
    let note = |zone: &str| {
        format!("---\ntitle: task\ntype: _typedef\ncolumns:\n  - name: a\n    data_type: TEXT\n    zone: {zone}\n---\n")
    };
    let notes = vec![
        ("1.md".to_string(), note("body")),
        ("2.md".to_string(), "no note".to_string()),
        ("3.md".to_string(), note("reference")),
    ];
    let schemas = load_all_typedefs(&notes);
    assert_eq!(schemas.len(), 1);
    let task = schemas.get("task").unwrap();
    assert_eq!(task.columns[0].zone, Some(Zone::Reference));
}

// Transactions --------------------------------------------------------------

#[test]
fn a_transaction_reads_its_own_writes() {
    let mut txn: Option<TransactionBuffer> = None;
    begin(&mut txn).unwrap();
    assert!(begin(&mut txn).is_err());
    let write = |p: &str, c: &str| Effect::StageWrite {
        path: p.to_string(),
        content: c.to_string(),
    };
    let delete = |p: &str, id: &str| Effect::StageDelete {
        path: p.to_string(),
        id: id.to_string(),
    };
    let buf = txn.as_mut().unwrap();
    for effect in [write("a", "1"), write("b", "2"), write("a", "3")] {
        assert!(hold_back(buf, effect).is_none());
    }
    let other = Effect::Forget {
        id: "7".to_string(),
    };
    assert!(matches!(hold_back(buf, other), Some(Effect::Forget { .. })));
    assert_eq!(read_buffered(&txn, "a").unwrap().as_deref(), Some("3"));
    assert_eq!(read_buffered(&txn, "b").unwrap().as_deref(), Some("2"));
    assert_eq!(read_buffered(&txn, "c").unwrap(), None);
    let buf = txn.as_mut().unwrap();
    for effect in [delete("b", "7"), delete("d", "8")] {
        assert!(hold_back(buf, effect).is_none());
    }
    assert_eq!(read_buffered(&txn, "b").unwrap().as_deref(), Some("2"));
    assert!(matches!(
        read_buffered(&txn, "d"),
        Err(ZettelError::NotFound(_))
    ));
    let buf = txn.as_ref().unwrap();
    let (writes, deletes) = plan_commit(buf, &vec![false, false]);
    let file = |p: &str, c: &str| (p.to_string(), c.to_string());
    assert_eq!(writes, [file("a", "1"), file("a", "3")]);
    assert!(deletes.is_empty());
    let effects = handle_commit(buf, &vec![false, true]);
    assert_eq!(effects.len(), 1);
    match &effects[0] {
        Effect::CommitBatch { deleted, .. } => assert_eq!(deleted, &["d"]),
        other => panic!("{other:?}"),
    }
}

fn is_commit(e: &Effect) -> bool {
    matches!(
        e,
        Effect::CommitFile { .. }
            | Effect::CommitFiles { .. }
            | Effect::CommitBatch { .. }
            | Effect::DeleteFile { .. }
            | Effect::DeleteFiles { .. }
    )
}

fn commits(effects: &[Effect]) -> usize {
    effects.iter().filter(|e| is_commit(e)).count()
}

#[test]
fn statements_commit_once_or_within_a_transaction_never() {
    let s = schema(vec![column("name", "TEXT", Zone::Frontmatter)]);
    let stmts = parse_batch("INSERT INTO task (name) VALUES ('a'), ('b')").unwrap();
    let (columns, source) = match &stmts[0] {
        SqlStatement::Insert { columns, source, .. } => (columns, source),
        other => panic!("{other:?}"),
    };
    let edit = NoteEdit::Update {
        schema: s.copy(),
        updates: cells(&[("name", "x")]),
    };
    let note = "---\nid: 20260301000000\ntype: task\nname: a\n---\n".to_string();
    let rows = FoundRows {
        ids: strings(&["1", "2"]),
        notes: vec![("a.md".to_string(), note.clone()), ("b.md".to_string(), note.clone())],
    };
    let found = vec![
        ("1".to_string(), "a.md".to_string()),
        ("2".to_string(), "b.md".to_string()),
    ];
    let none = strings(&[]);
    for in_txn in [false, true] {
        let expected = if in_txn { 0 } else { 1 };
        let first = "20260301000000";
        let o = handle_insert(&s, "task", columns, source, first, &none, in_txn).unwrap();
        assert_eq!(commits(&o.effects), expected);
        let o = update_row("task", "1", "a.md", &note, &edit, in_txn).unwrap();
        assert_eq!(commits(&o.effects), expected);
        let o = update_rows("task", &rows, &edit, in_txn).unwrap();
        assert_eq!(commits(&o.effects), expected);
        assert!(matches!(o.result, Ok(SqlResult::Affected(2))));
        assert_eq!(commits(&delete_row("task", "1", "a.md", in_txn).effects), expected);
        assert_eq!(commits(&delete_rows("task", &found, in_txn).effects), expected);
    }
    let empty = delete_rows("task", &Vec::new(), false);
    assert!(empty.effects.is_empty());
}

#[test]
fn a_row_that_is_refused_ends_an_insertion() {
    let mut c = column("name", "TEXT", Zone::Frontmatter);
    c.allowed_values = Some(strings(&["a"]));
    let s = schema(vec![c]);
    let stmts = parse_batch("INSERT INTO task (name) VALUES ('a'), ('b'), ('a')").unwrap();
    let (columns, source) = match &stmts[0] {
        SqlStatement::Insert { columns, source, .. } => (columns, source),
        other => panic!("{other:?}"),
    };
    let none = strings(&[]);
    let o = handle_insert(&s, "task", columns, source, "20260301000000", &none, false).unwrap();
    assert_eq!(o.effects.len(), 2);
    assert_eq!(commits(&o.effects), 0);
    assert!(matches!(o.result, Err(ZettelError::Validation(_))));
}

#[test]
fn every_row_of_an_insert_gets_its_own_identifier() {
    let s = schema(vec![column("name", "TEXT", Zone::Frontmatter)]);
    let stmts = parse_batch("INSERT INTO task (name) VALUES ('a'), ('b'), ('c')").unwrap();
    let (columns, source) = match &stmts[0] {
        SqlStatement::Insert { columns, source, .. } => (columns, source),
        other => panic!("{other:?}"),
    };
    let known = strings(&["20260301000001"]);
    let plan = plan_insert(&s, "task", columns, source, "20260301000000", &known).unwrap();
    assert!(plan.error.is_none());
    assert_eq!(plan.rows.len(), 3);
    let ids: Vec<&str> = plan.ids.iter().map(|i| i.0.as_str()).collect();
    assert_eq!(
        ids,
        ["20260301000000", "20260301000002", "20260301000003"]
    );
    assert_eq!(plan.rows[1].path, "zettelkasten/task/20260301000002.md");
}

#[test]
fn tables_of_the_index_are_reserved() {
    for name in ["zettels", "_zdb_tags", "sqlite_master"] {
        assert!(is_reserved_table(name));
    }
    assert!(!is_reserved_table("task"));
}

#[test]
fn statements_that_are_not_supported_are_refused() {
    let stmts = parse_batch("CREATE INDEX i ON t (a)").unwrap();
    match dispatch(&stmts[0]) {
        Err(ZettelError::SqlEngine(_)) => {}
        other => panic!("{other:?}"),
    }
    assert!(matches!(
        parse_batch("SELEC 1"),
        Err(ZettelError::SqlEngine(_))
    ));
    assert_eq!(unquote_identifier("\"a\""), "a");
    assert_eq!(
        where_error(&Some("x".to_string()), "bad").message(),
        "sql engine: invalid WHERE clause (x): bad"
    );
}

// Names and messages --------------------------------------------------------

#[test]
fn every_listed_type_is_bundled() {
    let names = list_bundled_types();
    assert_eq!(names.len(), 5);
    for name in names {
        let z = parse(get_bundled_type(name).unwrap(), "a.md").unwrap();
        assert_eq!(schema_from_parsed(&z).unwrap().table_name, name);
    }
}

#[test]
fn the_name_of_a_temporary_file_reads_back() {
    let commit = "0123456789012345678901234567890123456789";
    let n = parse_crdt_temp_name(&format!("{commit}_a_b_fm.crdt")).unwrap();
    assert_eq!(n.commit, commit);
    assert_eq!(n.zettel_id.as_deref(), Some("a_b"));
    assert!(n.is_frontmatter);
}

#[test]
fn what_errors_say() {
    let s = |t: &str| t.to_string();
    assert_eq!(ZettelError::Git(s("x")).message(), "git: x");
    assert_eq!(ZettelError::Yaml(s("x")).message(), "yaml: x");
    assert_eq!(ZettelError::Sql(s("x")).message(), "sql: x");
    assert_eq!(ZettelError::Automerge(s("x")).message(), "automerge: x");
    assert_eq!(ZettelError::Io(s("x")).message(), "io: x");
    assert_eq!(ZettelError::Toml(s("x")).message(), "toml: x");
    assert_eq!(ZettelError::Parse(s("x")).message(), "parse: x");
    assert_eq!(ZettelError::NotFound(s("x")).message(), "not found: x");
    assert_eq!(
        ZettelError::Validation(s("x")).message(),
        "validation: x"
    );
    assert_eq!(ZettelError::InvalidPath(s("x")).message(), "invalid path: x");
    assert_eq!(
        ZettelError::SqlEngine(s("x")).message(),
        "sql engine: x"
    );
    assert_eq!(ZettelError::Redb(s("x")).message(), "redb: x");
    let v = ZettelError::VersionMismatch { repo: 9, driver: 1 };
    assert_eq!(
        v.message(),
        "version mismatch: repo format v9, driver supports up to v1"
    );
    match ZdbError::from_error(ZettelError::NotFound(s("x"))) {
        ZdbError::NotFound { .. } => {}
        other => panic!("{other:?}"),
    }
}

#[test]
fn a_heading_right_after_the_section_stays() {
    let mut body = "## a\n## b\nx".to_string();
    update_body_section(&mut body, "a", "v");
    assert_eq!(body, "## a\nv\n\n## b\nx");
    assert_eq!(extract_body_section(&body, "b"), "x");
}

#[test]
fn only_the_heading_itself_is_renamed() {
    assert_eq!(
        rename_section("## name\nx\n## names\ny\n", "name", "label"),
        "## label\nx\n## names\ny\n"
    );
    assert_eq!(
        rename_section("see ## name\n### name\n  ## name \r\n", "name", "label"),
        "see ## name\n### name\n  ## label \r\n"
    );
}

#[test]
fn only_a_line_that_begins_with_the_key_is_renamed() {
    assert_eq!(
        rename_reference("- a:: 1\n- b:: x - a:: 2\n- ab:: 3", "a", "c"),
        "- c:: 1\n- b:: x - a:: 2\n- ab:: 3"
    );
}

#[test]
fn all_links_of_a_text_are_found() {
    let body = "[[[a]] [[|x]] [[b|]] [[c|d|e]] [[x]y]] [[f]]] [[g\nh]]";
    let links = extract_wikilinks("", body, "");
    let ends: Vec<(&str, Option<&str>)> = links
        .iter()
        .map(|l| (l.target.as_str(), l.display.as_deref()))
        .collect();
    assert_eq!(
        ends,
        vec![
            ("[a", None),
            ("c", Some("d|e")),
            ("f", None),
            ("g\nh", None),
        ]
    );
}

#[test]
fn rewritten_links_are_the_old_ones_with_the_new_target() {
    let s = "[[a]] [[x]y [[b|c]] [[ [[a|d]]";
    let t = rewrite_wikilinks(s, "b", "z");
    assert_eq!(t, "[[a]] [[x]y [[z|c]] [[ [[a|d]]");
    let ends = |s: &str| -> Vec<(String, Option<String>)> {
        extract_wikilinks("", s, "")
            .into_iter()
            .map(|l| (l.target, l.display))
            .collect()
    };
    let mut expected = ends(s);
    assert_eq!(expected.len(), 3);
    for e in &mut expected {
        if e.0 == "b" {
            e.0 = "z".to_string();
        }
    }
    assert_eq!(ends(&t), expected);
}

#[test]
fn an_identifier_is_fourteen_digits_of_a_time() {
    assert_eq!(candidate_id(0).as_deref(), Some("19700101000000"));
    assert_eq!(candidate_id(1772323199).as_deref(), Some("20260228235959"));
    assert_eq!(candidate_id(LAST_SECOND).as_deref(), Some("99991231235959"));
}

#[test]
fn a_note_that_does_not_parse_keeps_no_other_from_the_index() {
    let files = vec![
        ("1.md".to_string(), "---\ntitle: A\n---\nx".to_string()),
        ("2.md".to_string(), "---\ntitle: [\n---\ny".to_string()),
        ("3.md".to_string(), "---\ntitle: C\n---\nz".to_string()),
    ];
    let notes = rebuild(&files);
    let titles: Vec<Option<&str>> = notes.iter().map(|z| z.meta.title.as_deref()).collect();
    assert_eq!(titles, vec![Some("A"), Some("C")]);
}

#[test]
fn a_plain_front_matter_reads_back_as_it_was_written() {
    let text = "---\nid: 20260101000000\ntitle: A plain title\ndate: 2026-01-01\ntags:\n  - one\n  - to-do\ntype: note\n---\nBody.\n";
    let z = parse(text, "zettelkasten/20260101000000.md").unwrap();
    assert_eq!(z.meta.id.as_ref().map(|i| i.0.as_str()), Some("20260101000000"));
    assert_eq!(z.meta.title.as_deref(), Some("A plain title"));
    assert_eq!(z.meta.date.as_deref(), Some("2026-01-01"));
    assert_eq!(z.meta.tags, strings(&["one", "to-do"]));
    assert_eq!(z.meta.zettel_type.as_deref(), Some("note"));
    let again = parse(&serialize(&z), "zettelkasten/20260101000000.md").unwrap();
    assert_eq!(again.meta.id, z.meta.id);
    assert_eq!(again.meta.title, z.meta.title);
    assert_eq!(again.meta.date, z.meta.date);
    assert_eq!(again.meta.tags, z.meta.tags);
    assert_eq!(again.meta.zettel_type, z.meta.zettel_type);
    assert_eq!(again.body, z.body);
    assert_eq!(serialize(&again), serialize(&z));
}

#[test]
fn other_fields_of_plain_values_read_back() {
    let text = "---\nid: 20260101000000\ntitle: \"A: b\"\ntype: note\npublish: true\naliases:\n- one\n- two\ncount: 3.0\ncrdt_strategy: \"preset:append-log\"\ndone: false\nowner: Ann Lee\nparts:\n- kind: leg\n  size: 2.0\n- kind: top\n---\nBody.";
    let path = "zettelkasten/20260101000000.md";
    let z = parse(text, path).unwrap();
    assert_eq!(z.meta.title.as_deref(), Some("A: b"));
    assert!(matches!(z.meta.extra.get("done"), Some(Value::Bool(false))));
    assert!(matches!(z.meta.extra.get("publish"), Some(Value::Bool(true))));
    assert_eq!(serialize(&z), text);
    let again = parse(&serialize(&z), path).unwrap();
    assert_eq!(again.meta.title, z.meta.title);
    assert!(again.meta.extra.get("owner").is_some());
    assert_eq!(again.body, z.body);
    assert_eq!(serialize(&again), text);
}

#[test]
fn a_row_in_the_front_matter_reads_back_from_its_text() {
    let s = TableSchema {
        table_name: "task".to_string(),
        columns: vec![
            column("owner", "TEXT", Zone::Frontmatter),
            column("done", "BOOLEAN", Zone::Frontmatter),
            column("notes", "TEXT", Zone::Body),
        ],
        crdt_strategy: None,
        template_sections: Vec::new(),
    };
    let mut row: TextMap<String> = TextMap::new();
    row.insert("owner".to_string(), "Ann Lee".to_string());
    row.insert("done".to_string(), "true".to_string());
    row.insert("notes".to_string(), "call back".to_string());
    let id = ZettelId("20260301000000".to_string());
    let note = build_data_zettel(&id, &s, &row);
    let z = parse(&serialize(&note), "zettelkasten/20260301000000.md").unwrap();
    assert_eq!(extract_column_value(&z, &s.columns[0]), "Ann Lee");
    assert_eq!(extract_column_value(&z, &s.columns[1]), "true");
    assert_eq!(extract_column_value(&z, &s.columns[2]), "call back");
}

#[test]
fn a_schema_reads_back_from_the_text_of_its_note() {
    let mut status = column("status", "TEXT", Zone::Frontmatter);
    status.allowed_values = Some(vec!["open".to_string(), "closed".to_string()]);
    status.required = true;
    let s = TableSchema {
        table_name: "task".to_string(),
        columns: vec![status, column("notes", "TEXT", Zone::Body)],
        crdt_strategy: Some("preset:append-log".to_string()),
        template_sections: vec!["Log".to_string(), "Plan".to_string()],
    };
    let id = ZettelId("20260301000000".to_string());
    let note = build_typedef_zettel(&id, &s);
    assert_eq!(
        serialize(&note),
        "---\nid: 20260301000000\ntitle: task\ntype: _typedef\ncolumns:\n- allowed_values:\n  - open\n  - closed\n  data_type: TEXT\n  name: status\n  required: true\n  zone: frontmatter\n- data_type: TEXT\n  name: notes\n  zone: body\ncrdt_strategy: \"preset:append-log\"\ntemplate_sections:\n- Log\n- Plan\n---\n"
    );
    let z = parse(&serialize(&note), "zettelkasten/_typedef/20260301000000.md").unwrap();
    let r = schema_from_parsed(&z).unwrap();
    assert_eq!(r.table_name, "task");
    assert_eq!(r.columns.len(), 2);
    assert!(r.columns[0].required);
    assert_eq!(r.columns[0].allowed_values, s.columns[0].allowed_values);
    assert_eq!(r.crdt_strategy, s.crdt_strategy);
    assert_eq!(r.template_sections, s.template_sections);
}

#[test]
fn an_identifier_is_not_given_twice_in_a_row() {
    let mut source = IdSource::new();
    assert!(source.offer("20260301000000", true).is_none());
    assert_eq!(source.offer("20260301000000", false).unwrap().0, "20260301000000");
    assert!(source.offer("20260301000000", false).is_none());
    assert_eq!(source.offer("20260301000001", false).unwrap().0, "20260301000001");
}

#[test]
fn a_failed_step_ends_a_compaction() {
    assert_eq!(first_compact_step(true), CompactStep::Backup);
    assert_eq!(first_compact_step(false), CompactStep::CleanUp);
    let failed = next_compact_step(CompactStep::Backup, Err(ZettelError::Io("full".to_string())));
    assert!(matches!(failed, Err(ZettelError::Io(m)) if m == "full"));
    let mut step = first_compact_step(true);
    let mut seen = Vec::new();
    while step != CompactStep::Finish {
        seen.push(step);
        step = next_compact_step(step, Ok(())).unwrap();
    }
    assert_eq!(
        seen,
        vec![
            CompactStep::Backup,
            CompactStep::CleanUp,
            CompactStep::MergeDocuments,
            CompactStep::CollectGarbage,
        ]
    );
}

#[test]
fn a_tagged_value_keeps_its_content_in_a_merge() {
    let fields = yaml_to_map("kind: !unit metre").unwrap();
    assert!(matches!(
        fields.get("kind"),
        Some(FmValue::Scalar(s)) if s == "!unit metre"
    ));
}

#[test]
fn nested_fields_and_plain_texts_of_all_kinds_read_back() {
    let text = "---\nid: 20260101000000\ntitle: T\na:\n  b: c\n  d:\n  - e\n  - f: true\n    g: -5.0\n  h:\n    i: 2026-01-01\nfile: image/svg+xml\nn: 9007199254740992.0\nname: _x - y.z\nyes: no\nz: 0.0\n---\nBody.";
    let path = "zettelkasten/20260101000000.md";
    let z = parse(text, path).unwrap();
    assert_eq!(serialize(&z), text);
    let indented = "---\ntitle: T\nlist:\n  - a: b\n    c: d\n  - e\n---\nBody.";
    let y = parse(indented, path).unwrap();
    assert!(matches!(y.meta.extra.get("list"), Some(Value::List(l)) if l.len() == 2));
}

#[test]
fn texts_beyond_ascii_read_back() {
    let text = "---\nid: 20260101000000\ntitle: Über die Größe\ndate: 2026-01-01\ntags:\n  - naïve\n  - 日本語\n  - ÿes\ntype: заметка\naliases:\n- Ångström\n- 東京 タワー\nowner: Æther – Œuvre\nquoted: \"é:ü\"\n---\nBödy.";
    let path = "zettelkasten/20260101000000.md";
    let z = parse(text, path).unwrap();
    assert_eq!(z.meta.title.as_deref(), Some("Über die Größe"));
    assert_eq!(z.meta.tags, strings(&["naïve", "日本語", "ÿes"]));
    assert_eq!(z.meta.zettel_type.as_deref(), Some("заметка"));
    assert!(matches!(z.meta.extra.get("owner"), Some(Value::String(s)) if s == "Æther – Œuvre"));
    assert_eq!(serialize(&z), text);
    let again = parse(&serialize(&z), path).unwrap();
    assert_eq!(again.meta.title, z.meta.title);
    assert_eq!(again.meta.tags, z.meta.tags);
    let quoted = parse("---\ntitle: \"Größe: klein\"\n---\n", path).unwrap();
    assert_eq!(quoted.meta.title.as_deref(), Some("Größe: klein"));
    assert!(serialize(&quoted).contains("title: \"Größe: klein\"\n"));
}

#[test]
fn every_character_that_counts_as_a_letter_reads_back() {
    let wide = |n: u32| -> bool { n != 0xfeff && char::from_u32(n).is_some_and(|c| !c.is_whitespace()) };
    let all: Vec<char> = (0xa1..=0xd7ffu32)
        .chain(0xe000..=0xfffd)
        .filter(|n| wide(*n))
        .map(|n| char::from_u32(n).unwrap())
        .collect();
    for chunk in all.chunks(512) {
        let word: String = chunk.iter().collect();
        let text = format!("---\ntitle: {word}\ntags:\n  - {word}\nowner: {word}\nq: \"{word}:a\"\n---\n");
        let z = parse(&text, "a.md").unwrap();
        assert_eq!(z.meta.title.as_deref(), Some(word.as_str()));
        assert_eq!(z.meta.tags, vec![word.clone()]);
        assert!(matches!(z.meta.extra.get("owner"), Some(Value::String(s)) if *s == word));
        let again = parse(&serialize(&z), "a.md").unwrap();
        assert_eq!(again.meta.title, z.meta.title);
        assert_eq!(again.meta.tags, z.meta.tags);
        assert_eq!(serialize(&again), serialize(&z));
        assert!(serialize(&z).contains(&format!("owner: {word}\n")));
    }
}

#[test]
fn titles_and_tags_that_look_like_other_values_read_back() {
    for w in [
        "2024", "007", "1e5", "0x1f", "0b1", "1.50", "true", "False", "3d", "123abc", "10 years",
        "1-2", "12/24", "999999999999999999", "20th century", "5+", "1_0", "e5", "inf", "nan",
    ] {
        let text = format!("---\nid: 20260101000000\ntitle: {w}\ndate: {w}\ntags:\n  - {w}\n  - null\ntype: {w}\n---\nBody.");
        let z = parse(&text, "a.md").unwrap();
        assert_eq!(z.meta.title.as_deref(), Some(w));
        assert_eq!(z.meta.date.as_deref(), Some(w));
        assert_eq!(z.meta.tags, strings(&[w, "null"]));
        assert_eq!(z.meta.zettel_type.as_deref(), Some(w));
        assert_eq!(serialize(&z), text);
    }
    for w in ["3d", "123abc", "10 years", "20th century", "1_0", "12/24", "2026-01-01", "0z"] {
        let text = format!("---\ntitle: T\nowner: {w}\nlist:\n- {w}\nnest:\n  k: {w}\n---\nBody.");
        let z = parse(&text, "a.md").unwrap();
        assert!(matches!(z.meta.extra.get("owner"), Some(Value::String(s)) if s == w));
        assert_eq!(serialize(&z), text);
    }
    for w in ["1.5", "0.25", "-3.75", "100.125"] {
        let text = format!("---\ntitle: T\nsize: {w}\n---\nBody.");
        let z = parse(&text, "a.md").unwrap();
        assert!(matches!(z.meta.extra.get("size"), Some(Value::Number(_))));
        assert_eq!(serialize(&z), text);
    }
}

#[test]
fn null_among_the_tags_and_keys_is_its_text() {
    let z = parse("---\ntags:\n  - null\n  - ~\n  -\n  - a\nnull: x\n1.50: y\ntrue: z\n---\n", "a.md").unwrap();
    assert_eq!(z.meta.tags, strings(&["null", "~", "", "a"]));
    assert!(matches!(z.meta.extra.get("null"), Some(Value::String(s)) if s == "x"));
    assert!(matches!(z.meta.extra.get("1.50"), Some(Value::String(s)) if s == "y"));
    assert!(matches!(z.meta.extra.get("true"), Some(Value::String(s)) if s == "z"));
}

#[test]
fn of_another_field_given_twice_the_last_value_counts() {
    let z = parse("---\ntitle: T\nowner: a\nowner: b\n---\n", "a.md").unwrap();
    assert!(matches!(z.meta.extra.get("owner"), Some(Value::String(s)) if s == "b"));
    assert!(matches!(
        parse("---\ntitle: T\ntitle: U\n---\n", "a.md"),
        Err(ZettelError::Yaml(_))
    ));
}

#[test]
fn a_note_of_plain_entries_in_any_order_reads_back() {
    let text = "---\ncount: 42\ntype: note\ntags:\n  - b\n  - a\nowner: Zoë\ntitle: \"Plan\"\ndone: true\nid: 20260101000000\n---\nBody.\n\n---\n- b:: 2\n- a:: 1";
    let path = "zettelkasten/20260101000000.md";
    let z = parse(text, path).unwrap();
    assert_eq!(z.meta.title.as_deref(), Some("Plan"));
    assert_eq!(z.meta.tags, strings(&["b", "a"]));
    assert!(matches!(z.meta.extra.get("count"), Some(Value::Number(_))));
    let once = serialize(&z);
    let again = parse(&once, path).unwrap();
    assert_eq!(again.meta.title, z.meta.title);
    assert_eq!(again.meta.tags, z.meta.tags);
    assert_eq!(again.body, z.body);
    assert_eq!(again.reference_section, z.reference_section);
    assert_eq!(serialize(&again), once);
    assert!(once.contains("count: 42.0\n"));
}
