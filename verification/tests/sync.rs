use cadence::{update_source_files, Database, DbItem, SourceFile};

fn todo(id: u64, file: &str, line: usize, status: &str) -> DbItem {
    DbItem {
        id,
        item_type: "todo".to_string(),
        file: file.to_string(),
        line,
        column: 4,
        status: status.to_string(),
        content: "fix this".to_string(),
    }
}

fn source(path: &str, content: &str) -> SourceFile {
    SourceFile { path: path.to_string(), content: content.to_string() }
}

#[test]
fn test_update_source_files_changes_status() {
    let mut files = vec![source("src/main.rs", "// $$todo:1:open fix this\n")];
    let mut db = Database::default();
    db.items.push(todo(1, "src/main.rs", 1, "done"));

    update_source_files(&mut files, &db, "$$");

    assert_eq!(files[0].content, "// $$todo:1:done fix this\n");
    assert!(!files[0].content.contains("open"));
}

#[test]
fn test_update_source_files_preserves_unchanged() {
    let mut files = vec![source("src/main.rs", "// $$todo:1:done fix this\n")];
    let mut db = Database::default();
    db.items.push(todo(1, "src/main.rs", 1, "done"));

    update_source_files(&mut files, &db, "$$");

    assert!(files[0].content.contains("$$todo:1:done"));
}

#[test]
fn test_update_source_files_uses_marker_prefix() {
    let mut files = vec![source("src/main.rs", "// @@todo:1:open fix this\n")];
    let mut db = Database::default();
    db.items.push(todo(1, "src/main.rs", 1, "done"));

    update_source_files(&mut files, &db, "@@");

    assert_eq!(files[0].content, "// @@todo:1:done fix this\n");
}

#[test]
fn update_source_files_touches_only_the_named_line() {
    let mut files = vec![
        source("a.rs", "x\r\n// $$todo:2:open a\n// $$todo:2:open b"),
        source("b.rs", "// $$todo:3:open\n"),
    ];
    let mut db = Database::default();
    db.items.push(todo(2, "a.rs", 3, "in-progress"));
    db.items.push(todo(3, "b.rs", 9, "done"));
    db.items.push(todo(4, "missing.rs", 1, "done"));

    update_source_files(&mut files, &db, "$$");

    assert_eq!(files[0].content, "x\n// $$todo:2:open a\n// $$todo:2:in-progress b");
    assert_eq!(files[1].content, "// $$todo:3:open\n");
}

#[test]
fn writing_statuses_twice_changes_nothing_more() {
    let mut files = vec![source("src/main.rs", "// $$todo:1:open fix this\n// $$todo:2:done other\n")];
    let mut db = Database::default();
    db.items.push(todo(1, "src/main.rs", 1, "in-progress"));
    db.items.push(todo(2, "src/main.rs", 2, "open"));

    update_source_files(&mut files, &db, "$$");
    let once = files[0].content.clone();
    update_source_files(&mut files, &db, "$$");

    assert_eq!(once, "// $$todo:1:in-progress fix this\n// $$todo:2:open other\n");
    assert_eq!(files[0].content, once);
}

#[test]
fn checked_checklist_entry_flows_into_the_source() {
    let mut files = vec![source("main.rs", "// $$todo:1:open handle empty input\n")];
    let mut db = Database::default();
    db.counter = 1;
    db.items.push(todo(1, "main.rs", 1, "open"));
    let docs = vec![cadence::MarkdownFile {
        marker_type: "todo".to_string(),
        content: "- [x] $$todo:1:open - main.rs:1:4 - handle empty input\n".to_string(),
    }];
    let schemas = cadence::Schemas::default();

    cadence::parse_markdown_status_for_files(&mut db, &docs, "$$", &schemas, &vec!["main.rs".to_string()]).unwrap();
    update_source_files(&mut files, &db, "$$");

    assert_eq!(db.items[0].status, "done");
    assert_eq!(db.items[0].content, "handle empty input");
    assert_eq!(files[0].content, "// $$todo:1:done handle empty input\n");
}
