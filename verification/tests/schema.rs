use cadence::schema::{default_markdown_for_status, fallback_status_for_markdown, parse_schemas};
use cadence::load_schemas;

#[test]
fn test_parse_schemas_reads_markdown_markers() {
    let schemas = parse_schemas(
        r#"
todo:
  statuses: ["open:[ ]", "done:[X]", "in-progress:[Q]"]
fixme:
  statuses: ["open:[ ]", "done:[X]"]
"#,
    );

    assert_eq!(schemas.markdown_for_status("todo", "open"), "[ ]");
    assert_eq!(schemas.markdown_for_status("todo", "done"), "[X]");
    assert_eq!(schemas.markdown_for_status("todo", "in-progress"), "[Q]");
    assert_eq!(
        schemas.status_for_markdown("todo", "[Q]"),
        Some("in-progress".to_string())
    );
}

#[test]
fn test_parse_schemas_supports_status_marker_without_colon() {
    let schemas = parse_schemas(
        r#"
todo:
  statuses: ["open:[ ]", "done:[X]", "in-progress[Q]"]
"#,
    );

    assert_eq!(schemas.markdown_for_status("todo", "in-progress"), "[Q]");
}

#[test]
fn test_parse_schemas_keeps_old_status_only_format() {
    let schemas = parse_schemas(
        r#"
todo:
  statuses: ["open", "done", "in-progress"]
"#,
    );

    assert_eq!(schemas.markdown_for_status("todo", "open"), "[ ]");
    assert_eq!(schemas.markdown_for_status("todo", "done"), "[x]");
    assert_eq!(schemas.markdown_for_status("todo", "in-progress"), "[ ]");
}

#[test]
fn default_markdown_marks_done_in_any_case() {
    assert_eq!(default_markdown_for_status("done"), "[x]");
    assert_eq!(default_markdown_for_status("DoNe"), "[x]");
    assert_eq!(default_markdown_for_status("open"), "[ ]");
    assert_eq!(default_markdown_for_status("done!"), "[ ]");
}

#[test]
fn fallback_status_reads_the_default_marks() {
    assert_eq!(fallback_status_for_markdown("[ ]"), Some("open"));
    assert_eq!(fallback_status_for_markdown("[x]"), Some("done"));
    assert_eq!(fallback_status_for_markdown("[X]"), Some("done"));
    assert_eq!(fallback_status_for_markdown("[~]"), None);
}

#[test]
fn unknown_types_and_statuses_fall_back() {
    let schemas = parse_schemas("todo:\n  statuses: ['open:[ ]', 'done:[x]']\n");
    assert_eq!(schemas.markdown_for_status("hack", "done"), "[x]");
    assert_eq!(schemas.markdown_for_status("todo", "later"), "[ ]");
    assert_eq!(schemas.status_for_markdown("todo", "[~]"), None);
    assert_eq!(schemas.status_for_markdown("hack", "[ ]"), None);
    assert_eq!(schemas.status_for_markdown("todo", "[x]"), Some("done".to_string()));
}

#[test]
fn schemas_skip_comments_and_keep_the_last_statuses() {
    let schemas = parse_schemas(
        "# comment\ntodo:\n  # note\n  statuses: [\"open:[ ]\"]\n  statuses: [\"open:[o]\", \"\", bad:]\nfixme::\n",
    );
    assert_eq!(schemas.markdown_for_status("todo", "open"), "[o]");
    assert_eq!(schemas.status_for_markdown("fixme", "[ ]"), None);
    assert_eq!(schemas.markdown_for_status("fixme", "done"), "[x]");
}

#[test]
fn load_schemas_without_a_file_is_empty() {
    let schemas = load_schemas(None);
    assert_eq!(schemas.status_for_markdown("todo", "[ ]"), None);
    let schemas = load_schemas(Some("todo:\n  statuses: [\"open:[ ]\"]\n"));
    assert_eq!(schemas.status_for_markdown("todo", "[ ]"), Some("open".to_string()));
}

#[test]
fn listed_status_reads_back_unless_an_earlier_status_shares_its_mark() {
    let schemas = parse_schemas("todo:\n  statuses: [\"open:[ ]\", \"later:[ ]\", \"done:[x]\"]\n");

    let open_mark = schemas.markdown_for_status("todo", "open");
    assert_eq!(schemas.status_for_markdown("todo", &open_mark), Some("open".to_string()));
    let done_mark = schemas.markdown_for_status("todo", "done");
    assert_eq!(schemas.status_for_markdown("todo", &done_mark), Some("done".to_string()));
    let later_mark = schemas.markdown_for_status("todo", "later");
    assert_eq!(schemas.status_for_markdown("todo", &later_mark), Some("open".to_string()));
}

#[test]
fn only_open_and_done_read_back_without_a_schema() {
    assert_eq!(fallback_status_for_markdown(default_markdown_for_status("open")), Some("open"));
    assert_eq!(fallback_status_for_markdown(default_markdown_for_status("done")), Some("done"));
    assert_eq!(fallback_status_for_markdown(default_markdown_for_status("DONE")), Some("done"));
    assert_eq!(fallback_status_for_markdown(default_markdown_for_status("blocked")), Some("open"));
}
