//! The source map document: a JSON object of fixed shape, written with the
//! `json_writer` crate.

use vstd::prelude::*;
use crate::paths::{base_name, base_name_of, relative_path, relative_path_of, texts};

verus! {

/// The JSON string literal that `json_writer` writes for the text `value`:
/// the text between double quotes, with the characters that JSON does not
/// take as they are written as escapes.
pub uninterp spec fn json_string_text(value: Seq<char>) -> Seq<char>;

/// The decimal digits of `n`.
pub open spec fn decimal_digits(n: nat) -> Seq<char>
    decreases n,
{
    let last = (48 + n % 10) as char;
    if n < 10 {
        seq![last]
    } else {
        decimal_digits(n / 10).push(last)
    }
}

/// The decimal text of `v`, with a minus sign where it is negative.
pub open spec fn decimal_text(v: int) -> Seq<char> {
    if v < 0 {
        seq!['-'] + decimal_digits((-v) as nat)
    } else {
        decimal_digits(v as nat)
    }
}

/// What stands before a member's value: a comma unless the member is the
/// first, the key as a string literal, and a colon.
pub open spec fn json_key_text(key: Seq<char>, first: bool) -> Seq<char> {
    (if first {
        Seq::<char>::empty()
    } else {
        seq![',']
    }) + json_string_text(key) + seq![':']
}

/// The string literals of `items` with commas between them.
pub open spec fn json_items_text(items: Seq<Seq<char>>) -> Seq<char>
    decreases items.len(),
{
    if items.len() == 0 {
        Seq::empty()
    } else if items.len() == 1 {
        json_string_text(items[0])
    } else {
        json_items_text(items.drop_last()) + seq![','] + json_string_text(items.last())
    }
}

/// The JSON array of the strings `items`.
pub open spec fn json_array_text(items: Seq<Seq<char>>) -> Seq<char> {
    seq!['['] + json_items_text(items) + seq![']']
}

/// `json_writer::JSONWriter::json_begin_object` on a `String`: appends `{`.
#[verifier::external_body]
fn json_begin_object(out: &mut String)
    ensures
        final(out)@ == old(out)@.push('{'),
{
    json_writer::JSONWriter::json_begin_object(out)
}

/// `json_writer::JSONWriter::json_end_object` on a `String`: appends `}`,
/// whether the object is empty or not.
#[verifier::external_body]
fn json_end_object(out: &mut String, empty: bool)
    ensures
        final(out)@ == old(out)@.push('}'),
{
    json_writer::JSONWriter::json_end_object(out, empty)
}

/// `json_writer::JSONWriter::json_object_key` on a `String`: appends a comma
/// unless `first` is set, then the key as a string literal, then a colon.
#[verifier::external_body]
fn json_object_key(out: &mut String, key: &str, first: bool)
    ensures
        final(out)@ == old(out)@ + json_key_text(key@, first),
{
    json_writer::JSONWriter::json_object_key(out, key, first)
}

/// `json_writer::JSONWriterValue::write_json` of an `i32`: appends the
/// number in decimal.
#[verifier::external_body]
fn json_number(out: &mut String, value: i32)
    ensures
        final(out)@ == old(out)@ + decimal_text(value as int),
{
    json_writer::JSONWriterValue::write_json(value, out)
}

/// `json_writer::JSONWriterValue::write_json` of a `&str`: appends the text
/// as a string literal.
#[verifier::external_body]
fn json_string(out: &mut String, value: &str)
    ensures
        final(out)@ == old(out)@ + json_string_text(value@),
{
    json_writer::JSONWriterValue::write_json(value, out)
}

/// `json_writer::JSONWriterValue::write_json` of a slice of strings: appends
/// `[`, the string literals of the items with commas between them, and `]`.
#[verifier::external_body]
fn json_string_array(out: &mut String, items: &[String])
    ensures
        final(out)@ == old(out)@ + json_array_text(texts(items@)),
{
    json_writer::JSONWriterValue::write_json(items, out)
}

/// `std::io::Error`, the error of the result that writing a document gives.
#[verifier::external_type_specification]
#[verifier::external_body]
pub struct ExIoError(std::io::Error);

/// The texts of a slice of string slices.
pub open spec fn slice_texts(items: Seq<&str>) -> Seq<Seq<char>> {
    Seq::new(items.len(), |i: int| items[i]@)
}

/// Each of `sources` as seen from the directory of the file `file`.
pub open spec fn relative_sources(file: Seq<char>, sources: Seq<Seq<char>>) -> Seq<Seq<char>> {
    Seq::new(sources.len(), |i: int| relative_path_of(file, sources[i]))
}

/// The source map document for the generated file `file`, made from the
/// source files `sources`, with the names `names` and the mapping text
/// `mappings`: an object with the members `version` (3), `file` (the base
/// name of `file`), `sourceRoot` (empty), `sources` (each source as seen from
/// the directory of `file`), `names` and `mappings`, in this order.
pub open spec fn source_map_json(
    file: Seq<char>,
    sources: Seq<Seq<char>>,
    names: Seq<Seq<char>>,
    mappings: Seq<char>,
) -> Seq<char> {
    seq!['{'] + json_key_text("version"@, true) + decimal_text(3) + json_key_text("file"@, false)
        + json_string_text(base_name_of(file)) + json_key_text("sourceRoot"@, false)
        + json_string_text(Seq::empty()) + json_key_text("sources"@, false) + json_array_text(
        relative_sources(file, sources),
    ) + json_key_text("names"@, false) + json_array_text(names) + json_key_text(
        "mappings"@,
        false,
    ) + json_string_text(mappings) + seq!['}']
}

/// Appends the source map document to `buffer`.
pub fn print_source_map_json(
    // Name of generated file
    file: &str,
    // Name of source file
    source_files: &[&str],
    names: &[String],
    source_map: &str,
    buffer: &mut String,
) -> (result: Result<(), std::io::Error>)
    ensures
        result is Ok,
        final(buffer)@ == old(buffer)@ + source_map_json(
            file@,
            slice_texts(source_files@),
            texts(names@),
            source_map@,
        ),
{
    let mut sources: Vec<String> = Vec::new();
    let mut i: usize = 0;
    while i < source_files.len()
        invariant
            i <= source_files.len(),
            sources@.len() == i,
            forall|k: int|
                0 <= k < i ==> (#[trigger] sources@[k])@ == relative_path_of(
                    file@,
                    source_files@[k]@,
                ),
        decreases source_files.len() - i,
    {
        sources.push(relative_path(file, source_files[i]));
        i = i + 1;
    }
    assert(texts(sources@) =~= relative_sources(file@, slice_texts(source_files@)));
    let file_name = base_name(file);
    proof {
        reveal_strlit("");
        assert(""@ =~= Seq::<char>::empty());
    }
    json_begin_object(buffer);
    json_object_key(buffer, "version", true);
    json_number(buffer, 3);
    json_object_key(buffer, "file", false);
    json_string(buffer, file_name.as_str());
    json_object_key(buffer, "sourceRoot", false);
    json_string(buffer, "");
    json_object_key(buffer, "sources", false);
    json_string_array(buffer, sources.as_slice());
    json_object_key(buffer, "names", false);
    json_string_array(buffer, names);
    json_object_key(buffer, "mappings", false);
    json_string(buffer, source_map);
    json_end_object(buffer, false);
    assert(buffer@ =~= old(buffer)@ + source_map_json(
        file@,
        slice_texts(source_files@),
        texts(names@),
        source_map@,
    ));
    Ok(())
}

} // verus!
