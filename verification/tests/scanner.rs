use cadence::scanner::find_markers_in_line;
use cadence::find_markers;

#[test]
fn test_find_markers_in_line_simple() {
    let markers = find_markers_in_line("// $$todo fix this", "$$", 1);
    assert_eq!(markers.len(), 1);
    assert_eq!(markers[0].marker_type, "todo");
    assert!(!markers[0].has_id);
}

#[test]
fn test_find_markers_in_line_with_id() {
    let markers = find_markers_in_line("// $$todo:5:open fix this", "$$", 1);
    assert_eq!(markers.len(), 1);
    assert_eq!(markers[0].marker_type, "todo");
    assert!(markers[0].has_id);
    assert_eq!(markers[0].existing_id, Some(5));
    assert_eq!(markers[0].existing_status, Some("open".to_string()));
}

#[test]
fn test_find_markers_in_line_multiple() {
    let markers = find_markers_in_line("// $$todo $$fixme", "$$", 1);
    assert_eq!(markers.len(), 2);
    assert_eq!(markers[0].marker_type, "todo");
    assert_eq!(markers[1].marker_type, "fixme");
}

#[test]
fn test_find_markers_in_line_no_marker() {
    let markers = find_markers_in_line("// regular comment", "$$", 1);
    assert!(markers.is_empty());
}

#[test]
fn test_find_markers_preserves_offset() {
    let markers = find_markers_in_line("TODO: $$todo high priority", "$$", 1);
    assert_eq!(markers[0].column_offset, 6);
}

#[test]
fn find_markers_in_line_counts_bytes_for_column() {
    let markers = find_markers_in_line("é $$todo x", "$$", 3);
    assert_eq!(markers[0].column_offset, 3);
    assert_eq!(markers[0].line_number, 3);
}

#[test]
fn find_markers_in_line_skips_prefix_without_type() {
    let markers = find_markers_in_line("$$ $$:x $$ok", "$$", 1);
    assert_eq!(markers.len(), 1);
    assert_eq!(markers[0].marker_type, "ok");
    assert_eq!(markers[0].column_offset, 8);
}

#[test]
fn find_markers_in_line_reads_bad_id_as_zero() {
    let markers = find_markers_in_line("$$todo:abc", "$$", 1);
    assert!(markers[0].has_id);
    assert_eq!(markers[0].existing_id, Some(0));
    assert_eq!(markers[0].existing_status, None);
    let markers = find_markers_in_line("$$todo:+7: done later", "$$", 1);
    assert_eq!(markers[0].existing_id, Some(7));
    assert_eq!(markers[0].existing_status, Some("done".to_string()));
    let markers = find_markers_in_line("$$todo:18446744073709551616:open", "$$", 1);
    assert_eq!(markers[0].existing_id, Some(0));
}

#[test]
fn find_markers_numbers_lines_from_one() {
    let markers = find_markers("first\r\n// $$todo a\n\n  $$fixme:2:done b\n", "$$");
    assert_eq!(markers.len(), 2);
    assert_eq!(markers[0].line_number, 2);
    assert_eq!(markers[0].column_offset, 3);
    assert_eq!(markers[1].line_number, 4);
    assert_eq!(markers[1].existing_id, Some(2));
    assert_eq!(markers[1].existing_status, Some("done".to_string()));
}

#[test]
fn find_markers_uses_the_given_prefix() {
    let markers = find_markers("// @@todo a $$todo b", "@@");
    assert_eq!(markers.len(), 1);
    assert_eq!(markers[0].column_offset, 3);
}

#[test]
fn written_marker_reads_back_with_id_and_status() {
    let markers = find_markers_in_line("x @@fixme:42:in-progress\tnext", "@@", 3);

    assert_eq!(markers.len(), 1);
    assert_eq!(markers[0].marker_type, "fixme");
    assert!(markers[0].has_id);
    assert_eq!(markers[0].existing_id, Some(42));
    assert_eq!(markers[0].existing_status, Some("in-progress".to_string()));
    assert_eq!(markers[0].column_offset, 2);
}

#[test]
fn markers_take_their_prefix_and_a_type() {
    let line = "$$a$$b$$c";
    let markers = find_markers_in_line(line, "$$", 1);

    assert_eq!(markers.len(), 3);
    assert!(markers.len() * ("$$".len() + 1) <= line.chars().count());
    let offsets: Vec<usize> = markers.iter().map(|m| m.column_offset).collect();
    assert_eq!(offsets, vec![0, 3, 6]);
    for m in &markers {
        assert!(line[m.column_offset..].starts_with("$$"));
    }
}
