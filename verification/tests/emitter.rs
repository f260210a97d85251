use sourcemap_writer::decode::parse_mappings;
use sourcemap_writer::mapping::MappingEntry;
use sourcemap_writer::source_writer::{Origin, Pos, SourcePos, SourceWriter};
use sourcemap_writer::utf16::utf16_len;

fn place(file: usize, line: usize, column: usize) -> SourcePos {
    SourcePos { file, line, column }
}

fn named(file: usize, line: usize, column: usize, name: &str) -> Origin {
    Origin::Named(place(file, line, column), name.to_string())
}

fn entry(
    generated_line: usize,
    generated_column: usize,
    original_file: usize,
    original_line: usize,
    original_column: usize,
    name_index: Option<usize>,
) -> MappingEntry {
    MappingEntry {
        generated_line,
        generated_column,
        original_file,
        original_line,
        original_column,
        name_index,
    }
}

fn entries_of(source_map: &str) -> Vec<MappingEntry> {
    parse_mappings(source_map).expect("a writer's mapping text is well-formed")
}

#[test]
fn new_writer_hands_over_empty_buffers() {
    let buffers = SourceWriter::new().into_buffers();
    assert_eq!(buffers.buffer, "");
    assert_eq!(buffers.source_map, "");
    assert!(buffers.names.is_empty());
}

#[test]
fn default_writer_is_a_new_writer() {
    let mut w = SourceWriter::default();
    w.write("a");
    let buffers = w.into_buffers();
    assert_eq!(buffers.buffer, "a");
    assert_eq!(buffers.source_map, "");
    assert!(buffers.names.is_empty());
}

#[test]
fn utf16_len_counts_code_units() {
    assert_eq!(utf16_len(""), 0);
    assert_eq!(utf16_len("abc"), 3);
    assert_eq!(utf16_len("é"), 1);
    assert_eq!(utf16_len("日本語"), 3);
    assert_eq!(utf16_len("😀"), 2);
    assert_eq!(utf16_len("a😀b"), 4);
    assert_eq!(utf16_len("\u{FFFF}"), 1);
    assert_eq!(utf16_len("\u{10000}"), 2);
    assert_eq!(utf16_len("\u{10FFFF}"), 2);
}

#[test]
fn utf16_len_agrees_with_std() {
    for s in ["", "x", "naïve", "𝒳𝒴", "tab\there", "\n\n", "👩‍👩‍👧"] {
        assert_eq!(utf16_len(s), s.encode_utf16().count());
    }
}

#[test]
fn origin_is_sorted_into_its_kind() {
    let pos = Pos { line: 3, column: 4, file: 5, builtin: false };
    assert_eq!(Origin::new(pos, None), Origin::Unnamed(place(5, 3, 4)));
    assert_eq!(Origin::new(pos, Some("n".to_string())), named(5, 3, 4, "n"));
}

#[test]
fn builtin_mark_wins_over_a_name() {
    let pos = Pos { line: 3, column: 4, file: 5, builtin: true };
    assert_eq!(Origin::new(pos, None), Origin::Builtin);
    assert_eq!(Origin::new(pos, Some("n".to_string())), Origin::Builtin);
}

#[test]
fn write_appends_text() {
    let mut w = SourceWriter::new();
    w.write("a");
    w.write("");
    w.write("b\nc");
    w.write("\n");
    let buffers = w.into_buffers();
    assert_eq!(buffers.buffer, "ab\nc\n");
    assert_eq!(buffers.source_map, "");
}

#[test]
fn write_in_parts_is_write_of_the_whole() {
    let mut whole = SourceWriter::new();
    whole.indent();
    whole.write("a\nb😀\n\nc");
    whole.write_for("d", &Origin::Unnamed(place(0, 0, 0)));
    let mut parts = SourceWriter::new();
    parts.indent();
    for part in ["a", "\n", "", "b", "😀\n", "\nc"] {
        parts.write(part);
    }
    parts.write_for("d", &Origin::Unnamed(place(0, 0, 0)));
    let whole = whole.into_buffers();
    let parts = parts.into_buffers();
    assert_eq!(whole.buffer, "a\n  b😀\n\n  c" .to_string() + "d");
    assert_eq!(whole.buffer, parts.buffer);
    assert_eq!(whole.source_map, parts.source_map);
}

#[test]
fn indentation_is_not_written_for_empty_chunks() {
    let mut w = SourceWriter::new();
    w.write("\n");
    w.indent();
    w.write("");
    assert_eq!(w.into_buffers().buffer, "\n");
}

#[test]
fn indentation_is_written_before_the_next_text() {
    let mut w = SourceWriter::new();
    w.write("\n");
    w.indent();
    w.write("x");
    assert_eq!(w.into_buffers().buffer, "\n  x");
}

#[test]
fn indentation_follows_the_depth_at_the_time_of_writing() {
    let mut w = SourceWriter::new();
    w.indent();
    w.write("a\n");
    w.indent();
    w.write("b\n");
    w.dedent();
    w.dedent();
    w.write("c\n\n");
    w.indent();
    w.indent();
    w.indent();
    w.write("d");
    assert_eq!(w.into_buffers().buffer, "a\n    b\nc\n\n      d");
}

#[test]
fn first_line_is_never_indented() {
    let mut w = SourceWriter::new();
    w.indent();
    w.write("a");
    assert_eq!(w.into_buffers().buffer, "a");
}

#[test]
fn empty_lines_are_not_indented() {
    let mut w = SourceWriter::new();
    w.indent();
    w.write("a\n\n\nb\n");
    assert_eq!(w.into_buffers().buffer, "a\n\n\n  b\n");
}

#[test]
fn dedent_stops_at_zero() {
    let mut w = SourceWriter::new();
    w.dedent();
    w.dedent();
    w.write("\nx");
    w.indent();
    w.dedent();
    w.dedent();
    w.indent();
    w.write("\ny");
    assert_eq!(w.into_buffers().buffer, "\nx\n  y");
}

#[test]
fn supplementary_character_takes_two_columns() {
    let mut w = SourceWriter::new();
    w.write_for("", &Origin::Unnamed(place(0, 0, 0)));
    w.write("😀");
    w.write_for("", &Origin::Unnamed(place(0, 0, 1)));
    w.write("é");
    w.write_for("", &Origin::Unnamed(place(0, 0, 2)));
    let found = entries_of(&w.into_buffers().source_map);
    assert_eq!(
        found,
        vec![
            entry(0, 0, 0, 0, 0, None),
            entry(0, 2, 0, 0, 1, None),
            entry(0, 3, 0, 0, 2, None),
        ]
    );
}

#[test]
fn write_for_builtin_records_nothing() {
    let mut w = SourceWriter::new();
    w.write_for("scalar Int\n", &Origin::Builtin);
    w.write_for("x", &Origin::new(Pos { line: 1, column: 1, file: 1, builtin: true }, Some("x".into())));
    let buffers = w.into_buffers();
    assert_eq!(buffers.buffer, "scalar Int\nx");
    assert_eq!(buffers.source_map, "");
    assert!(buffers.names.is_empty());
}

#[test]
fn write_for_unnamed_records_one_entry_before_the_chunk() {
    let mut w = SourceWriter::new();
    w.write("ab");
    w.write_for("cd\nef", &Origin::Unnamed(place(2, 7, 9)));
    let buffers = w.into_buffers();
    assert_eq!(buffers.buffer, "abcd\nef");
    assert!(buffers.names.is_empty());
    assert_eq!(entries_of(&buffers.source_map), vec![entry(0, 2, 2, 7, 9, None)]);
}

#[test]
fn write_for_unnamed_records_before_the_indentation() {
    let mut w = SourceWriter::new();
    w.indent();
    w.write("a\n");
    w.write_for("b", &Origin::Unnamed(place(0, 1, 0)));
    w.write_for("c", &Origin::Unnamed(place(0, 1, 1)));
    let buffers = w.into_buffers();
    assert_eq!(buffers.buffer, "a\n  bc");
    assert_eq!(
        entries_of(&buffers.source_map),
        vec![entry(1, 0, 0, 1, 0, None), entry(1, 3, 0, 1, 1, None)]
    );
}

#[test]
fn write_for_named_records_a_span() {
    let mut w = SourceWriter::new();
    w.write("let ");
    w.write_for("foo", &named(0, 4, 7, "foo"));
    let buffers = w.into_buffers();
    assert_eq!(buffers.buffer, "let foo");
    assert_eq!(buffers.names, vec!["foo".to_string()]);
    assert_eq!(
        entries_of(&buffers.source_map),
        vec![entry(0, 4, 0, 4, 7, Some(0)), entry(0, 7, 0, 4, 10, None)]
    );
}

#[test]
fn write_for_named_records_behind_the_indentation() {
    let mut w = SourceWriter::new();
    w.indent();
    w.indent();
    w.write("{\n");
    w.write_for("id", &named(1, 2, 3, "id"));
    let buffers = w.into_buffers();
    assert_eq!(buffers.buffer, "{\n    id");
    assert_eq!(
        entries_of(&buffers.source_map),
        vec![entry(1, 4, 1, 2, 3, Some(0)), entry(1, 6, 1, 2, 5, None)]
    );
}

#[test]
fn write_for_named_pays_the_indentation_even_for_an_empty_chunk() {
    let mut w = SourceWriter::new();
    w.indent();
    w.write("\n");
    w.write_for("", &named(0, 0, 0, "n"));
    let buffers = w.into_buffers();
    assert_eq!(buffers.buffer, "\n  ");
    assert_eq!(
        entries_of(&buffers.source_map),
        vec![entry(1, 2, 0, 0, 0, Some(0)), entry(1, 2, 0, 0, 1, None)]
    );
}

#[test]
fn write_for_named_measures_the_name_in_utf16() {
    let mut w = SourceWriter::new();
    w.write_for("x", &named(0, 0, 10, "a😀"));
    let buffers = w.into_buffers();
    assert_eq!(buffers.names, vec!["a😀".to_string()]);
    assert_eq!(
        entries_of(&buffers.source_map),
        vec![entry(0, 0, 0, 0, 10, Some(0)), entry(0, 1, 0, 0, 13, None)]
    );
}

#[test]
fn write_for_named_span_ends_behind_the_whole_chunk() {
    let mut w = SourceWriter::new();
    w.write_for("export type Foo", &named(0, 0, 5, "Foo"));
    let buffers = w.into_buffers();
    assert_eq!(buffers.buffer, "export type Foo");
    assert_eq!(buffers.names, vec!["Foo".to_string()]);
    assert_eq!(buffers.source_map, "AAAKA,eAAG");
    assert_eq!(
        entries_of(&buffers.source_map),
        vec![entry(0, 0, 0, 0, 5, Some(0)), entry(0, 15, 0, 0, 8, None)]
    );
}

#[test]
fn same_name_is_interned_once() {
    let mut w = SourceWriter::new();
    w.write_for("a", &named(0, 0, 0, "a"));
    w.write_for("b", &named(0, 0, 2, "b"));
    w.write_for("a", &named(0, 0, 4, "a"));
    let buffers = w.into_buffers();
    assert_eq!(buffers.names, vec!["a".to_string(), "b".to_string()]);
    let found = entries_of(&buffers.source_map);
    let indices: Vec<Option<usize>> = found.iter().map(|e| e.name_index).collect();
    assert_eq!(indices, vec![Some(0), None, Some(1), None, Some(0), None]);
}

#[test]
fn file_indices_go_through_the_mapper() {
    let mut w = SourceWriter::new();
    w.write_for("a", &Origin::Unnamed(place(1, 0, 0)));
    w.set_file_index_mapper(vec![5, 9, 2]);
    w.write_for("b", &Origin::Unnamed(place(1, 0, 0)));
    w.write_for("c", &named(2, 0, 0, "c"));
    w.write_for("d", &Origin::Builtin);
    let found = entries_of(&w.into_buffers().source_map);
    let files: Vec<usize> = found.iter().map(|e| e.original_file).collect();
    assert_eq!(files, vec![1, 9, 2, 2]);
}

#[test]
fn builtin_origin_needs_no_place_in_the_mapper() {
    let mut w = SourceWriter::new();
    w.set_file_index_mapper(vec![]);
    w.write_for("x", &Origin::Builtin);
    assert_eq!(w.into_buffers().buffer, "x");
}

#[test]
fn entries_never_go_back_in_the_generated_text() {
    let mut w = SourceWriter::new();
    w.indent();
    w.write_for("type ", &Origin::Unnamed(place(0, 0, 0)));
    w.write_for("Foo", &named(0, 0, 5, "Foo"));
    w.write(" {\n");
    w.write_for("", &Origin::Unnamed(place(0, 1, 0)));
    w.write_for("bar", &named(0, 1, 2, "bar"));
    w.write_for(": ", &Origin::Builtin);
    w.write_for("Int\n", &named(0, 1, 7, "Int"));
    w.dedent();
    w.write_for("}\n\n", &Origin::Unnamed(place(0, 2, 0)));
    w.write_for("", &Origin::Unnamed(place(0, 3, 0)));
    let found = entries_of(&w.into_buffers().source_map);
    assert_eq!(found.len(), 10);
    for pair in found.windows(2) {
        let a = (pair[0].generated_line, pair[0].generated_column);
        let b = (pair[1].generated_line, pair[1].generated_column);
        assert!(a <= b, "{:?} stands before {:?}", pair[0], pair[1]);
    }
}

#[test]
fn mapping_text_decodes_to_what_was_recorded() {
    let mut w = SourceWriter::new();
    w.set_file_index_mapper(vec![3, 0]);
    w.indent();
    w.write_for("query ", &Origin::Unnamed(place(0, 10, 4)));
    w.write_for("Q", &named(1, 2, 30, "Q"));
    w.write("\n\n\n");
    w.write_for("f😀", &named(0, 0, 0, "f"));
    w.write_for("\n", &Origin::Unnamed(place(1, 1, 1)));
    w.write_for("Q", &named(1, 0, 0, "Q"));
    let buffers = w.into_buffers();
    assert_eq!(buffers.buffer, "query Q\n\n\n  f😀\n  Q");
    assert_eq!(buffers.names, vec!["Q".to_string(), "f".to_string()]);
    assert_eq!(
        entries_of(&buffers.source_map),
        vec![
            entry(0, 0, 3, 10, 4, None),
            entry(0, 6, 0, 2, 30, Some(0)),
            entry(0, 7, 0, 2, 31, None),
            entry(3, 2, 3, 0, 0, Some(1)),
            entry(3, 5, 3, 0, 1, None),
            entry(3, 5, 0, 1, 1, None),
            entry(4, 2, 0, 0, 0, Some(0)),
            entry(4, 3, 0, 0, 1, None),
        ]
    );
}
