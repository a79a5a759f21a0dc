use cadence::{update_files_with_ids, Database, SourceFile};

fn source(path: &str, content: &str) -> SourceFile {
    SourceFile { path: path.to_string(), content: content.to_string() }
}

#[test]
fn test_update_files_assigns_id() {
    let mut files = vec![source("test.rs", "// $$todo fix this bug\n")];
    let mut db = Database::default();
    let staged_files = vec!["test.rs".to_string()];

    update_files_with_ids(&mut files, &staged_files, &mut db, "$$");

    assert!(files[0].content.contains("$$todo:1:open"));
    assert_eq!(db.counter, 1);
    assert_eq!(db.items.len(), 1);
}

#[test]
fn test_update_files_preserves_existing_id() {
    let mut files = vec![source("test.rs", "// $$todo:5:done fix this bug\n")];
    let mut db = Database::default();
    let staged_files = vec!["test.rs".to_string()];

    update_files_with_ids(&mut files, &staged_files, &mut db, "$$");

    assert!(files[0].content.contains("$$todo:5:done"));
    assert_eq!(db.items.len(), 0);
}

#[test]
fn test_update_files_increments_counter() {
    let mut files = vec![source("test1.rs", "// $$todo first\n"), source("test2.rs", "// $$fixme second\n")];
    let mut db = Database::default();
    let staged_files = vec!["test1.rs".to_string(), "test2.rs".to_string()];

    update_files_with_ids(&mut files, &staged_files, &mut db, "$$");

    assert_eq!(db.counter, 2);
}

#[test]
fn update_files_records_items_and_keeps_the_final_newline() {
    let mut files = vec![source("a.rs", "// $$todo first\n   $$fixme avoid duplicate work\n")];
    let mut db = Database::default();
    db.counter = 4;

    update_files_with_ids(&mut files, &vec!["a.rs".to_string(), "gone.rs".to_string()], &mut db, "$$");

    assert_eq!(
        files[0].content,
        "// $$todo:6:open first\n   $$fixme:5:open avoid duplicate work\n"
    );
    assert_eq!(db.counter, 6);
    assert_eq!(db.items.len(), 2);
    assert_eq!(db.items[0].id, 6);
    assert_eq!(db.items[0].item_type, "todo");
    assert_eq!(db.items[0].file, "a.rs");
    assert_eq!(db.items[0].line, 1);
    assert_eq!(db.items[0].column, 4);
    assert_eq!(db.items[0].status, "open");
    assert_eq!(db.items[0].content, "first");
    assert_eq!(db.items[1].id, 5);
    assert_eq!(db.items[1].line, 2);
    assert_eq!(db.items[1].column, 4);
    assert_eq!(db.items[1].content, "avoid duplicate work");
}

#[test]
fn update_files_handles_two_new_markers_on_one_line() {
    let mut files = vec![source("a.rs", "// $$todo a $$fixme b")];
    let mut db = Database::default();

    update_files_with_ids(&mut files, &vec!["a.rs".to_string()], &mut db, "$$");

    assert_eq!(files[0].content, "// $$todo:2:open a $$fixme:1:open b");
    assert_eq!(db.items[0].id, 2);
    assert_eq!(db.items[0].content, "a $$fixme:1:open b");
    assert_eq!(db.items[1].id, 1);
    assert_eq!(db.items[1].content, "b");
}

#[test]
fn new_ids_follow_the_counter_and_are_distinct() {
    let mut files = vec![
        source("a.rs", "// $$todo one $$fixme two\n"),
        source("b.rs", "// $$hack three\n// $$todo:3:open kept\n"),
    ];
    let mut db = Database::default();
    db.counter = 3;
    let staged_files = vec!["a.rs".to_string(), "b.rs".to_string()];

    update_files_with_ids(&mut files, &staged_files, &mut db, "$$");

    assert_eq!(db.counter, 6);
    let mut ids: Vec<u64> = db.items.iter().map(|i| i.id).collect();
    ids.sort();
    assert_eq!(ids, vec![4, 5, 6]);
    assert!(files[1].content.contains("$$todo:3:open kept"));
}

#[test]
fn new_id_goes_to_its_own_marker_and_keeps_existing_ids() {
    let mut files = vec![source("a.rs", "// $$todo:3:open a $$todo b\n")];
    let mut db = Database::default();
    db.counter = 3;

    update_files_with_ids(&mut files, &vec!["a.rs".to_string()], &mut db, "$$");

    assert_eq!(files[0].content, "// $$todo:3:open a $$todo:4:open b\n");
    assert_eq!(db.items.len(), 1);
    assert_eq!(db.items[0].id, 4);
    assert_eq!(db.items[0].column, 20);
    assert_eq!(db.items[0].content, "b");
}

#[test]
fn two_new_markers_of_one_type_on_one_line_each_get_an_id() {
    let mut files = vec![source("a.rs", "// $$todo a $$todo b")];
    let mut db = Database::default();

    update_files_with_ids(&mut files, &vec!["a.rs".to_string()], &mut db, "$$");

    assert_eq!(files[0].content, "// $$todo:2:open a $$todo:1:open b");
    assert_eq!(db.items[0].id, 2);
    assert_eq!(db.items[0].content, "a $$todo:1:open b");
    assert_eq!(db.items[1].id, 1);
    assert_eq!(db.items[1].content, "b");
}

#[test]
fn checked_update_refuses_ids_past_the_largest_and_changes_nothing() {
    let mut files = vec![source("a.rs", "// $$todo one\n")];
    let mut db = Database::default();
    db.counter = u64::MAX;

    let ok = cadence::update_files_with_ids_checked(&mut files, &vec!["a.rs".to_string()], &mut db, "$$");

    assert!(!ok);
    assert_eq!(files[0].content, "// $$todo one\n");
    assert_eq!(db.counter, u64::MAX);
    assert!(db.items.is_empty());
}

#[test]
fn checked_update_gives_ids_when_they_fit() {
    let mut files = vec![source("a.rs", "// $$todo one\n// $$todo:2:done two\n")];
    let mut db = Database::default();
    db.counter = u64::MAX - 1;

    let ok = cadence::update_files_with_ids_checked(&mut files, &vec!["a.rs".to_string()], &mut db, "$$");

    assert!(ok);
    assert_eq!(files[0].content, format!("// $$todo:{}:open one\n// $$todo:2:done two\n", u64::MAX));
    assert_eq!(db.counter, u64::MAX);
    assert_eq!(db.items.len(), 1);
}
