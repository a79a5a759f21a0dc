use cadence::{Database, StagedFiles};

#[test]
fn test_staged_files_default() {
    let staged = StagedFiles::default();
    assert!(staged.files.is_empty());
}

#[test]
fn test_db_default() {
    let db = Database::default();
    assert_eq!(db.counter, 0);
    assert!(db.items.is_empty());
}

#[test]
fn stage_adds_a_path_once() {
    let mut staged = StagedFiles::default();
    assert!(staged.stage("src/main.rs".to_string()));
    assert!(!staged.stage("src/main.rs".to_string()));
    assert!(staged.stage("src/lib.rs".to_string()));
    assert_eq!(staged.files, vec!["src/main.rs", "src/lib.rs"]);
}

#[test]
fn reset_unstages_everything() {
    let mut staged = StagedFiles::default();
    staged.stage("a.rs".to_string());
    staged.stage("b.rs".to_string());
    assert_eq!(staged.reset(), 2);
    assert!(staged.files.is_empty());
    assert_eq!(staged.reset(), 0);
}
