use fontcore::source::{line_offsets, FileId, FileIdCounter, Source, SourceMap};

fn source(text: &str) -> Source {
    Source::new(text.to_string(), &mut FileIdCounter::new())
}

#[test]
fn line_offsets_follow_each_newline() {
    assert_eq!(line_offsets(""), vec![0]);
    assert_eq!(line_offsets("abc"), vec![0]);
    assert_eq!(line_offsets("a\n"), vec![0, 2]);
    assert_eq!(line_offsets("a\nbc\n\nd"), vec![0, 2, 5, 6]);
    assert_eq!(line_offsets("\n\n"), vec![0, 1, 2]);
}

#[test]
fn line_offsets_count_bytes_not_chars() {
    assert_eq!(line_offsets("é\nü\n"), vec![0, 3, 6]);
}

#[test]
fn file_ids_count_up_from_two() {
    let mut counter = FileIdCounter::new();
    let first = FileId::next(&mut counter);
    let second = FileId::next(&mut counter);
    assert_eq!(first.to_u32(), 2);
    assert_eq!(second.to_u32(), 3);
    assert_eq!(FileId::next(&mut counter).to_u32(), 4);
    assert!(!counter.is_exhausted());
    assert_ne!(first, second);
    assert!(first < second);
    assert_eq!(FileId::current_file().to_u32(), 1);
    assert_ne!(first, FileId::current_file());
}

#[test]
fn file_ids_end_after_the_largest_number() {
    let mut counter = FileIdCounter::starting_at(u32::MAX - 1);
    assert_eq!(FileId::next(&mut counter).to_u32(), u32::MAX - 1);
    assert!(!counter.is_exhausted());
    assert_eq!(FileId::next(&mut counter).to_u32(), u32::MAX);
    assert!(counter.is_exhausted());
}

#[test]
fn source_keeps_text_and_id() {
    let mut counter = FileIdCounter::starting_at(7);
    let source = Source::new("feature kern {\n} kern;\n".to_string(), &mut counter);
    assert_eq!(source.id().to_u32(), 7);
    assert_eq!(source.text(), "feature kern {\n} kern;\n");
    let other = Source::new(String::new(), &mut counter);
    assert_eq!(other.id().to_u32(), 8);
    assert_ne!(other.id(), source.id());
}

#[test]
fn line_and_column_of_an_offset() {
    let source = source("ab\ncd\n");
    assert_eq!(source.line_col_for_offset(0), (1, 0));
    assert_eq!(source.line_col_for_offset(1), (1, 1));
    // the newline belongs to the line it ends
    assert_eq!(source.line_col_for_offset(2), (1, 2));
    assert_eq!(source.line_col_for_offset(3), (2, 0));
    assert_eq!(source.line_col_for_offset(4), (2, 1));
    assert_eq!(source.line_col_for_offset(6), (3, 0));
    assert_eq!(source.line_col_for_offset(100), (3, 94));
}

#[test]
fn line_and_column_in_a_text_of_one_line() {
    let empty = source("");
    assert_eq!(empty.line_col_for_offset(0), (1, 0));
    assert_eq!(empty.line_col_for_offset(5), (1, 5));
    assert_eq!(source("abc").line_col_for_offset(2), (1, 2));
}

#[test]
fn line_and_column_in_a_long_text() {
    let text: String = (0..1000).map(|i| format!("line {i}\n")).collect();
    let source = source(&text);
    let mut offset = 0;
    for (i, line) in text.lines().enumerate() {
        assert_eq!(source.line_col_for_offset(offset), (i + 1, 0));
        assert_eq!(source.line_col_for_offset(offset + line.len()), (i + 1, line.len()));
        assert_eq!(source.line_containing_offset(offset + 2), (i + 1, line));
        assert_eq!(source.offset_for_line_number(i + 1), offset);
        offset += line.len() + 1;
    }
}

#[test]
fn line_containing_an_offset() {
    let source = source("ab\ncd\n");
    assert_eq!(source.line_containing_offset(0), (1, "ab"));
    assert_eq!(source.line_containing_offset(2), (1, "ab"));
    assert_eq!(source.line_containing_offset(3), (2, "cd"));
    assert_eq!(source.line_containing_offset(5), (2, "cd"));
    assert_eq!(source.line_containing_offset(6), (3, ""));
    assert_eq!(source.line_containing_offset(60), (3, ""));
}

#[test]
fn line_without_a_newline_at_the_end() {
    let source = source("ab\n\ncd");
    assert_eq!(source.line_containing_offset(3), (2, ""));
    assert_eq!(source.line_containing_offset(4), (3, "cd"));
    assert_eq!(source.line_containing_offset(5), (3, "cd"));
}

#[test]
fn line_with_characters_of_several_bytes() {
    let source = source("é\nüber\n€");
    assert_eq!(source.line_containing_offset(0), (1, "é"));
    assert_eq!(source.line_containing_offset(1), (1, "é"));
    assert_eq!(source.line_containing_offset(3), (2, "über"));
    assert_eq!(source.line_containing_offset(9), (3, "€"));
    assert_eq!(source.line_col_for_offset(4), (2, 1));
}

#[test]
fn offset_of_a_line() {
    let source = source("ab\ncd\n");
    assert_eq!(source.offset_for_line_number(1), 0);
    assert_eq!(source.offset_for_line_number(2), 3);
    assert_eq!(source.offset_for_line_number(3), 6);
}

#[test]
fn source_map_resolves_by_the_entry_that_holds_the_start() {
    let mut counter = FileIdCounter::new();
    let first = FileId::next(&mut counter);
    let second = FileId::next(&mut counter);
    let mut map = SourceMap::new();
    map.add_entry(0..10, (first, 100));
    map.add_entry(10..25, (second, 0));
    assert_eq!(map.resolve_range(3..7), (first, 103..107));
    assert_eq!(map.resolve_range(12..15), (second, 2..5));
    assert_eq!(map.resolve_range(10..10), (second, 0..0));
    // a range may run past the end of its entry
    assert_eq!(map.resolve_range(8..14), (first, 108..114));
}

#[test]
fn source_map_leaves_out_empty_entries() {
    let mut counter = FileIdCounter::new();
    let first = FileId::next(&mut counter);
    let second = FileId::next(&mut counter);
    let mut map = SourceMap::default();
    map.add_entry(5..5, (first, 0));
    map.add_entry(0..10, (second, 40));
    assert_eq!(map.resolve_range(5..6), (second, 45..46));
}

#[test]
fn source_map_takes_the_first_of_two_entries() {
    let mut counter = FileIdCounter::new();
    let first = FileId::next(&mut counter);
    let second = FileId::next(&mut counter);
    let mut map = SourceMap::new();
    map.add_entry(0..10, (first, 0));
    map.add_entry(5..20, (second, 50));
    assert_eq!(map.resolve_range(6..8), (first, 6..8));
    assert_eq!(map.resolve_range(12..13), (second, 57..58));
}
