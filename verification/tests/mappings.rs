use sourcemap_writer::decode::{base64_value_of, parse_mappings};
use sourcemap_writer::mapping::{MappingEntry, MappingWriter};
use sourcemap_writer::vlq::{base64_char, push_vlq};

fn entry(
    generated_line: usize,
    generated_column: usize,
    original_file: usize,
    original_line: usize,
    original_column: usize,
    name_index: Option<usize>,
) -> MappingEntry {
    MappingEntry {
        generated_line,
        generated_column,
        original_file,
        original_line,
        original_column,
        name_index,
    }
}

fn encode(entries: &[MappingEntry]) -> String {
    let mut w = MappingWriter::new();
    for e in entries {
        w.add_entry(
            e.generated_line,
            e.generated_column,
            e.original_line,
            e.original_column,
            e.original_file,
            e.name_index,
        );
    }
    w.into_buffer()
}

fn vlq(value: i128) -> String {
    let mut out = String::new();
    push_vlq(&mut out, value);
    out
}

#[test]
fn base64_alphabet_is_the_standard_one() {
    let alphabet = "ABCDEFGHIJKLMNOPQRSTUVWXYZabcdefghijklmnopqrstuvwxyz0123456789+/";
    for (d, c) in alphabet.chars().enumerate() {
        assert_eq!(base64_char(d as u8), c);
        assert_eq!(base64_value_of(c), Some(d as u8));
    }
}

#[test]
fn other_characters_have_no_base64_value() {
    for c in [',', ';', '=', '-', '_', ' ', '@', '[', '`', '{', '.', ':', 'é', '😀', '\n'] {
        assert_eq!(base64_value_of(c), None);
    }
}

#[test]
fn vlq_of_small_values() {
    assert_eq!(vlq(0), "A");
    assert_eq!(vlq(1), "C");
    assert_eq!(vlq(-1), "D");
    assert_eq!(vlq(15), "e");
    assert_eq!(vlq(-15), "f");
}

#[test]
fn vlq_continues_past_four_bits() {
    assert_eq!(vlq(16), "gB");
    assert_eq!(vlq(-16), "hB");
    assert_eq!(vlq(123), "2H");
    assert_eq!(vlq(511), "+f");
    assert_eq!(vlq(-1000), "x+B");
}

#[test]
fn vlq_of_large_values() {
    assert_eq!(vlq(2147483647), "+/////D");
    assert_eq!(vlq(-2147483648), "hgggggE");
    assert_eq!(vlq(18446744073709551615), "+///////////f");
    assert_eq!(vlq(-18446744073709551615), "////////////f");
}

#[test]
fn vlq_is_appended() {
    let mut out = String::from("AA");
    push_vlq(&mut out, 16);
    push_vlq(&mut out, 0);
    assert_eq!(out, "AAgBA");
}

#[test]
fn no_entries_give_an_empty_text() {
    assert_eq!(MappingWriter::new().into_buffer(), "");
}

#[test]
fn first_entry_on_line_zero_has_no_separator() {
    assert_eq!(encode(&[entry(0, 3, 0, 0, 0, None)]), "GAAA");
}

#[test]
fn first_entry_on_a_later_line_follows_the_line_separators() {
    assert_eq!(encode(&[entry(1, 0, 0, 0, 0, None)]), ";AAAA");
    assert_eq!(encode(&[entry(3, 1, 0, 0, 0, None)]), ";;;CAAA");
}

#[test]
fn entries_on_one_line_are_separated_by_commas() {
    assert_eq!(
        encode(&[entry(0, 0, 0, 0, 5, Some(0)), entry(0, 15, 0, 0, 8, None)]),
        "AAAKA,eAAG"
    );
}

#[test]
fn column_delta_starts_again_on_a_new_line() {
    assert_eq!(
        encode(&[entry(0, 10, 0, 0, 0, None), entry(1, 4, 0, 0, 0, None)]),
        "UAAA;IAAA"
    );
}

#[test]
fn other_deltas_run_on_across_lines() {
    assert_eq!(
        encode(&[
            entry(2, 4, 1, 10, 3, None),
            entry(2, 9, 0, 2, 7, Some(1)),
            entry(5, 0, 0, 2, 7, Some(0)),
            entry(5, 0, 3, 0, 0, None),
        ]),
        ";;ICUG,KDRIC;;;AAAAD,AGFP"
    );
}

#[test]
fn name_delta_skips_entries_without_a_name() {
    assert_eq!(
        encode(&[
            entry(0, 0, 0, 0, 0, Some(2)),
            entry(0, 0, 0, 0, 0, None),
            entry(0, 0, 0, 0, 0, Some(3)),
        ]),
        "AAAAE,AAAA,AAAAC"
    );
}

#[test]
fn largest_values_are_encoded() {
    let max = usize::MAX;
    let all = [entry(0, max, max, max, max, Some(max)), entry(0, 0, 0, 0, 0, Some(0))];
    assert_eq!(parse_mappings(&encode(&all)), Some(all.to_vec()));
}

#[test]
fn decoding_gives_back_the_entries() {
    let all = [
        entry(0, 0, 0, 0, 0, None),
        entry(0, 0, 0, 0, 0, Some(0)),
        entry(0, 7, 2, 100, 3, Some(5)),
        entry(0, 7, 1, 3, 300, None),
        entry(4, 0, 1, 3, 300, Some(1)),
        entry(4, 1000000, 0, 0, 0, None),
        entry(5, 17, 9, 9, 9, Some(9)),
        entry(70, 0, 9, 8, 10, None),
    ];
    for n in 0..=all.len() {
        assert_eq!(parse_mappings(&encode(&all[..n])), Some(all[..n].to_vec()));
    }
}

#[test]
fn decoding_reads_hand_written_texts() {
    assert_eq!(parse_mappings(""), Some(vec![]));
    assert_eq!(parse_mappings("AAAA"), Some(vec![entry(0, 0, 0, 0, 0, None)]));
    assert_eq!(parse_mappings(";;;"), Some(vec![]));
    assert_eq!(
        parse_mappings("AAAA;;CACCC,C"),
        Some(vec![entry(0, 0, 0, 0, 0, None), entry(2, 1, 0, 1, 1, Some(1))])
    );
}

#[test]
fn decoding_takes_empty_segments() {
    assert_eq!(parse_mappings(",,AAAA,,;,"), Some(vec![entry(0, 0, 0, 0, 0, None)]));
}

#[test]
fn decoding_moves_the_column_by_a_segment_of_one_field() {
    assert_eq!(
        parse_mappings("E,CAAA;C,CAAA"),
        Some(vec![entry(0, 3, 0, 0, 0, None), entry(1, 2, 0, 0, 0, None)])
    );
}

#[test]
fn decoding_takes_a_negative_zero() {
    assert_eq!(parse_mappings("BBBB"), Some(vec![entry(0, 0, 0, 0, 0, None)]));
    assert_eq!(parse_mappings("B"), Some(vec![]));
}

#[test]
fn decoding_refuses_other_characters() {
    assert_eq!(parse_mappings("AAAA AAAA"), None);
    assert_eq!(parse_mappings("AAA="), None);
    assert_eq!(parse_mappings("ÀAAA"), None);
}

#[test]
fn decoding_refuses_segments_of_other_lengths() {
    assert_eq!(parse_mappings("AA"), None);
    assert_eq!(parse_mappings("AAA"), None);
    assert_eq!(parse_mappings("AAAAAA"), None);
    assert_eq!(parse_mappings("AAAA,AA;"), None);
}

#[test]
fn decoding_refuses_an_unfinished_quantity() {
    assert_eq!(parse_mappings("g"), None);
    assert_eq!(parse_mappings("AAAg"), None);
    assert_eq!(parse_mappings("AAAg,AAAA"), None);
    assert_eq!(parse_mappings("AAAg;"), None);
}

#[test]
fn decoding_refuses_values_below_zero() {
    assert_eq!(parse_mappings("DAAA"), None);
    assert_eq!(parse_mappings("ADAA"), None);
    assert_eq!(parse_mappings("AADA"), None);
    assert_eq!(parse_mappings("AAAA,AAAD"), None);
    assert_eq!(parse_mappings("AAAAD"), None);
    assert_eq!(parse_mappings("D"), None);
    assert_eq!(parse_mappings("C,D"), Some(vec![]));
}

#[test]
fn decoding_refuses_quantities_of_more_than_fourteen_digits() {
    assert_eq!(
        parse_mappings("ggggggggggggggAAAA"),
        None
    );
    assert_eq!(
        parse_mappings("gggggggggggggAAAA"),
        Some(vec![entry(0, 0, 0, 0, 0, None)])
    );
}
