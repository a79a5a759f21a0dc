use cadence::markdown::MarkdownError;
use cadence::schema::parse_schemas;
use cadence::{
    generate_markdown_files, parse_markdown_status, parse_markdown_status_for_files, Database,
    DbItem, MarkdownFile, Schemas,
};

fn item(id: u64, file: &str, line: usize, column: usize, status: &str, content: &str) -> DbItem {
    DbItem {
        id,
        item_type: "todo".to_string(),
        file: file.to_string(),
        line,
        column,
        status: status.to_string(),
        content: content.to_string(),
    }
}

fn doc(marker_type: &str, content: &str) -> MarkdownFile {
    MarkdownFile { marker_type: marker_type.to_string(), content: content.to_string() }
}

#[test]
fn test_generate_markdown_creates_file() {
    let mut db = Database::default();
    db.items.push(item(1, "src/main.rs", 10, 5, "open", "Fix bug"));

    let files = generate_markdown_files(&db, &Schemas::default(), "$$");

    assert_eq!(files.len(), 1);
    assert_eq!(files[0].marker_type, "todo");
    let content = &files[0].content;
    assert!(content.contains("[ ]"));
    assert!(content.contains("$$todo:1:open"));
    assert!(content.contains("src/main.rs:10:5"));
}

#[test]
fn test_generate_markdown_done_status() {
    let mut db = Database::default();
    db.items.push(item(2, "src/lib.rs", 20, 0, "done", "Done task"));

    let files = generate_markdown_files(&db, &Schemas::default(), "$$");

    assert!(files[0].content.contains("[x]"));
}

#[test]
fn test_generate_markdown_uses_marker_prefix() {
    let mut db = Database::default();
    db.items.push(item(2, "src/lib.rs", 20, 0, "done", "Done task"));

    let files = generate_markdown_files(&db, &Schemas::default(), "@@");

    assert!(files[0].content.contains("@@todo:2:done"));
    assert!(!files[0].content.contains("$$todo:2:done"));
}

#[test]
fn test_generate_markdown_uses_schema_status_marker() {
    let schemas = parse_schemas(
        r#"todo:
  statuses: ["open:[ ]", "done:[X]", "in-progress:[Q]"]
"#,
    );
    let mut db = Database::default();
    db.items.push(item(2, "src/lib.rs", 20, 7, "in-progress", "Done task"));

    let files = generate_markdown_files(&db, &schemas, "$$");

    assert!(files[0]
        .content
        .contains("- [Q] $$todo:2:in-progress - src/lib.rs:20:7 - Done task"));
}

#[test]
fn test_generate_markdown_multiline_content() {
    let mut db = Database::default();
    db.items.push(item(
        3,
        "src/lib.rs",
        20,
        0,
        "done",
        "open final flux\nadd\nsupport\nfor\nmulti\nlines",
    ));

    let files = generate_markdown_files(&db, &Schemas::default(), "$$");

    assert_eq!(
        files[0].content,
        "- [x] $$todo:3:done - src/lib.rs:20 - open final flux\n  add\n  support\n  for\n  multi\n  lines\n"
    );
}

#[test]
fn generate_markdown_groups_items_by_type_in_order() {
    let mut db = Database::default();
    db.items.push(item(1, "a.rs", 1, 4, "open", "first"));
    let mut fixme = item(2, "a.rs", 2, 4, "open", "");
    fixme.item_type = "fixme".to_string();
    db.items.push(fixme);
    db.items.push(item(3, "b.rs", 3, 1, "done", "third"));

    let files = generate_markdown_files(&db, &Schemas::default(), "$$");

    assert_eq!(files.len(), 2);
    assert_eq!(files[0].marker_type, "todo");
    assert_eq!(
        files[0].content,
        "- [ ] $$todo:1:open - a.rs:1:4 - first\n- [x] $$todo:3:done - b.rs:3:1 - third\n"
    );
    assert_eq!(files[1].marker_type, "fixme");
    assert_eq!(files[1].content, "- [ ] $$fixme:2:open - a.rs:2:4 - \n");
}

#[test]
fn test_parse_markdown_status_updates_db() {
    let docs = vec![doc("todo", "- [x] $$todo:1:done - src/main.rs:10:5 - Fix bug\n")];
    let mut db = Database::default();
    db.items.push(item(1, "src/main.rs", 10, 0, "open", "Fix bug"));

    parse_markdown_status(&mut db, &docs, "$$", &Schemas::default()).unwrap();

    assert_eq!(db.items[0].status, "done");
    assert_eq!(db.items[0].content, "Fix bug");
}

#[test]
fn test_parse_markdown_status_uses_marker_prefix() {
    let docs = vec![doc("todo", "- [x] @@todo:1:done - Fix bug\n")];
    let mut db = Database::default();
    db.items.push(item(1, "src/main.rs", 10, 0, "open", "Fix bug"));

    parse_markdown_status(&mut db, &docs, "@@", &Schemas::default()).unwrap();

    assert_eq!(db.items[0].status, "done");
}

#[test]
fn test_parse_markdown_status_uses_schema_status_marker() {
    let schemas = parse_schemas(
        r#"todo:
  statuses: ["open:[ ]", "done:[X]", "in-progress:[Q]"]
"#,
    );
    let docs = vec![doc("todo", "- [Q] $$todo:1:open - Fix bug\n")];
    let mut db = Database::default();
    db.items.push(item(1, "src/main.rs", 10, 0, "open", "Fix bug"));

    parse_markdown_status(&mut db, &docs, "$$", &schemas).unwrap();

    assert_eq!(db.items[0].status, "in-progress");
}

#[test]
fn test_parse_markdown_multiline_content_updates_db() {
    let docs = vec![doc(
        "todo",
        "- [ ] $$todo:1:open - test\n\
- [x] $$todo:3:done - open final flux\n  add\n  support\n  for\n  multi\n  lines\n\
- [x] $$todo:5:done - antimater + mater\nHello\nWorld\n",
    )];
    let mut db = Database::default();
    db.items.push(item(1, "src/main.rs", 10, 0, "open", "test"));
    db.items.push(item(3, "src/main.rs", 12, 0, "open", "open final flux"));
    db.items.push(item(5, "src/main.rs", 14, 0, "open", "antimater + mater"));

    parse_markdown_status(&mut db, &docs, "$$", &Schemas::default()).unwrap();

    assert_eq!(db.items[0].content, "test");
    assert_eq!(db.items[1].status, "done");
    assert_eq!(db.items[1].content, "open final flux\nadd\nsupport\nfor\nmulti\nlines");
    assert_eq!(db.items[2].status, "done");
    assert_eq!(db.items[2].content, "antimater + mater\nHello\nWorld");
}

#[test]
fn parse_markdown_for_files_changes_only_staged_items() {
    let docs = vec![doc(
        "todo",
        "- [x] $$todo:1:done - a.rs:1:4 - first\n- [x] $$todo:2:done - b.rs:1:4 - second\n",
    )];
    let mut db = Database::default();
    db.items.push(item(1, "a.rs", 1, 4, "open", "first"));
    db.items.push(item(2, "b.rs", 1, 4, "open", "second"));

    parse_markdown_status_for_files(&mut db, &docs, "$$", &Schemas::default(), &vec!["a.rs".to_string()])
        .unwrap();

    assert_eq!(db.items[0].status, "done");
    assert_eq!(db.items[1].status, "open");
}

#[test]
fn parse_markdown_rejects_unknown_mark_on_a_tracked_item() {
    let schemas = parse_schemas("fixme:\n  statuses: [\"open:[ ]\", \"done:[X]\"]\n");
    let mut fixme = item(1, "main.rs", 1, 4, "open", "avoid duplicate work");
    fixme.item_type = "fixme".to_string();
    let mut db = Database::default();
    db.items.push(fixme);
    let docs = vec![doc("fixme", "- [~] $$fixme:1:open - avoid duplicate work\n")];

    let err = parse_markdown_status(&mut db, &docs, "$$", &schemas).unwrap_err();

    assert_eq!(
        err,
        MarkdownError::UnknownChecklistMarker {
            checkbox: "[~]".to_string(),
            item_type: "fixme".to_string(),
            marker_status: "open".to_string(),
        }
    );
    assert!(err.message().contains("Unknown checklist marker `[~]` for `fixme`"));
    assert_eq!(db.items[0].status, "open");
}

#[test]
fn parse_markdown_ignores_entries_of_other_types_and_untracked_ids() {
    let docs = vec![doc(
        "todo",
        "- [~] $$fixme:1:open - x\n- [~] $$todo:9:open - y\nnot an entry\n- [x $$todo:1:done\n",
    )];
    let mut db = Database::default();
    db.items.push(item(1, "a.rs", 1, 1, "open", "x"));

    parse_markdown_status(&mut db, &docs, "$$", &Schemas::default()).unwrap();

    assert_eq!(db.items[0].status, "open");
    assert_eq!(db.items[0].content, "x");
}

#[test]
fn generated_checklist_reads_back_unchanged() {
    let mut db = Database::default();
    db.items.push(item(1, "src/a.rs", 3, 5, "open", "first\nsecond\n\nfourth"));
    db.items.push(item(2, "src/b.rs", 7, 0, "done", "one line"));
    let schemas = Schemas::default();
    let docs = generate_markdown_files(&db, &schemas, "$$");

    parse_markdown_status(&mut db, &docs, "$$", &schemas).unwrap();

    assert_eq!(db.items[0].status, "open");
    assert_eq!(db.items[0].content, "first\nsecond\n\nfourth");
    assert_eq!(db.items[1].status, "done");
    assert_eq!(db.items[1].content, "one line");
}

#[test]
fn generated_checklist_with_custom_schema_reads_back_for_any_files() {
    let mut db = Database::default();
    db.items.push(item(1, "src/a.rs", 3, 4, "in-progress", "first"));
    db.items.push(item(2, "src/b.rs", 9, 0, "open", "note\nmore"));
    let schemas = parse_schemas(
        "todo:\n  statuses: [\"open:[ ]\", \"done:[x]\", \"in-progress:[~]\"]\n",
    );
    let docs = generate_markdown_files(&db, &schemas, "@@");
    let files = vec!["src/b.rs".to_string()];

    parse_markdown_status_for_files(&mut db, &docs, "@@", &schemas, &files).unwrap();

    assert_eq!(db.items[0].status, "in-progress");
    assert_eq!(db.items[0].content, "first");
    assert_eq!(db.items[1].status, "open");
    assert_eq!(db.items[1].content, "note\nmore");
}

#[test]
fn content_with_a_final_newline_does_not_read_back() {
    let mut db = Database::default();
    db.items.push(item(1, "src/a.rs", 3, 4, "open", "ends with newline\n"));
    let schemas = Schemas::default();
    let docs = generate_markdown_files(&db, &schemas, "$$");

    parse_markdown_status(&mut db, &docs, "$$", &schemas).unwrap();

    assert_eq!(db.items[0].content, "ends with newline");
}

#[test]
fn checklists_read_back_with_unusual_prefixes() {
    for prefix in [" @@", "  ", "@\n@"] {
        let mut db = Database::default();
        db.items.push(item(1, "src/a.rs", 3, 4, "done", "first\nsecond"));
        db.items.push(item(2, "src/b.rs", 5, 0, "open", "other"));
        let schemas = Schemas::default();
        let docs = generate_markdown_files(&db, &schemas, prefix);

        parse_markdown_status(&mut db, &docs, prefix, &schemas).unwrap();

        assert_eq!(db.items[0].status, "done");
        assert_eq!(db.items[0].content, "first\nsecond");
        assert_eq!(db.items[1].status, "open");
        assert_eq!(db.items[1].content, "other");
    }
}

#[test]
fn the_error_names_the_first_unknown_mark_on_a_tracked_item() {
    let mut db = Database::default();
    db.items.push(item(1, "a.rs", 1, 4, "open", "one"));
    db.items.push(item(2, "b.rs", 1, 4, "open", "two"));
    let docs = vec![doc(
        "todo",
        "- [?] $$todo:9:open - untracked\n- [!] $$todo:2:later - two\n- [~] $$todo:1:open - one\n",
    )];

    let err = parse_markdown_status(&mut db, &docs, "$$", &Schemas::default()).unwrap_err();

    assert_eq!(
        err,
        MarkdownError::UnknownChecklistMarker {
            checkbox: "[!]".to_string(),
            item_type: "todo".to_string(),
            marker_status: "later".to_string(),
        }
    );
}
