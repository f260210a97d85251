//! The text emitter: it appends generated text, keeps the generated
//! position, indents lazily, and records a mapping entry for each chunk that
//! comes from a place in an original source.

use vstd::prelude::*;
use vstd::string::StrSliceExecFns;
use vstd::string::StringExecFns;
use vstd::string::StringSliceAdditionalSpecFns;
use vstd::std_specs::iter::IteratorSpec;
use crate::mapping::{encode_mappings, ordered, position_le, MappingEntry, MappingWriter};
use crate::name_mapper::{interned_index, interned_table, lemma_interned, NameMapper};
use crate::decode::{decode_mappings, lemma_decode_encode, lines_ascend};
use crate::output::{
    at_end, emit, emit_char, flush_indent, last_line, lemma_cursor_bound,
    lemma_emit_char_at_end, lemma_emit_piece, lemma_emit_push, lemma_flush_at_end, line_breaks,
    Output,
};
use crate::text::{push_char, spaces, spaces_string};
use crate::utf16::{lemma_utf16_len_le_utf8_len, utf16_len, utf16_len_of};

pub use crate::json::print_source_map_json;

verus! {

/// A position in an original source file, as a syntax node reports it.
/// `builtin` marks a node that was made up and has no place in any source.
#[derive(Clone, Copy, Debug, PartialEq, Eq)]
pub struct Pos {
    pub line: usize,
    pub column: usize,
    pub file: usize,
    pub builtin: bool,
}

/// A place in an original source file.
#[derive(Clone, Copy, Debug, PartialEq, Eq)]
pub struct SourcePos {
    pub file: usize,
    pub line: usize,
    pub column: usize,
}

/// Where a chunk of generated text comes from.
#[derive(Debug, PartialEq, Eq)]
pub enum Origin {
    /// From nowhere: the chunk is written and nothing is recorded.
    Builtin,
    /// From a place that has no name of its own.
    Unnamed(SourcePos),
    /// From an identifier that stands at the given place.
    Named(SourcePos, String),
}

impl Clone for Origin {
    fn clone(&self) -> (copy: Origin)
        ensures
            copy == *self,
    {
        match self {
            Origin::Builtin => Origin::Builtin,
            Origin::Unnamed(place) => Origin::Unnamed(*place),
            Origin::Named(place, name) => Origin::Named(*place, name.clone()),
        }
    }
}

impl Origin {
    /// Sorts what a syntax node reports into one of the three kinds. The
    /// builtin mark wins over a name.
    pub fn new(position: Pos, name: Option<String>) -> (origin: Origin)
        ensures
            position.builtin ==> origin == Origin::Builtin,
            !position.builtin ==> origin == match name {
                Some(n) => Origin::Named(
                    (SourcePos {
                        file: position.file,
                        line: position.line,
                        column: position.column,
                    }),
                    n,
                ),
                None => Origin::Unnamed(
                    (SourcePos {
                        file: position.file,
                        line: position.line,
                        column: position.column,
                    }),
                ),
            },
    {
        if position.builtin {
            Origin::Builtin
        } else {
            let place = SourcePos {
                file: position.file,
                line: position.line,
                column: position.column,
            };
            match name {
                Some(n) => Origin::Named(place, n),
                None => Origin::Unnamed(place),
            }
        }
    }
}

/// All that a writer holds.
#[verifier::ext_equal]
pub struct WriterState {
    pub output: Output,
    /// The indentation depth, in columns.
    pub indent: nat,
    /// The mapping entries recorded, in order.
    pub entries: Seq<MappingEntry>,
    /// The names interned, by index.
    pub names: Seq<Seq<char>>,
    /// The table that renumbers file indices, where one was set.
    pub file_map: Option<Seq<usize>>,
}

impl WriterState {
    /// The state of a new writer.
    pub open spec fn start() -> WriterState {
        WriterState {
            output: Output { text: Seq::empty(), pending_indent: false, line: 0, column: 0 },
            indent: 0,
            entries: Seq::empty(),
            names: Seq::empty(),
            file_map: None,
        }
    }
}

/// The file index that entries carry for the original file `file`.
pub open spec fn resolve_file(file_map: Option<Seq<usize>>, file: usize) -> usize {
    match file_map {
        Some(map) => map[file as int],
        None => file,
    }
}

/// The entry that links the cursor of `out` to the given original place.
pub open spec fn entry_at(
    out: Output,
    file: usize,
    line: usize,
    column: int,
    name_index: Option<usize>,
) -> MappingEntry {
    MappingEntry {
        generated_line: out.line as usize,
        generated_column: out.column as usize,
        original_file: file,
        original_line: line,
        original_column: column as usize,
        name_index,
    }
}

/// The origin can be recorded: its file index lies within the renumbering
/// where one is set, and the end of its name is a column that exists.
pub open spec fn origin_valid(file_map: Option<Seq<usize>>, origin: Origin) -> bool {
    match origin {
        Origin::Builtin => true,
        Origin::Unnamed(place) => file_map matches Some(map) ==> place.file < map.len(),
        Origin::Named(place, name) => {
            &&& file_map matches Some(map) ==> place.file < map.len()
            &&& place.column + utf16_len_of(name@) <= usize::MAX
        },
    }
}

/// The state after `chunk` was written for `origin`.
///
/// A builtin origin records nothing. An unnamed one records one entry, at
/// the cursor as it stands before the chunk. A named one interns the name,
/// pays the indentation owed, and records two entries: one before the chunk
/// with the name's index, at the name's first column, and one behind the
/// chunk without a name, at the column behind the name.
pub open spec fn recorded(state: WriterState, chunk: Seq<char>, origin: Origin) -> WriterState {
    match origin {
        Origin::Builtin => WriterState {
            output: emit(state.output, state.indent, chunk),
            ..state
        },
        Origin::Unnamed(place) => {
            let file = resolve_file(state.file_map, place.file);
            WriterState {
                output: emit(state.output, state.indent, chunk),
                entries: state.entries.push(
                    entry_at(state.output, file, place.line, place.column as int, None),
                ),
                ..state
            }
        },
        Origin::Named(place, name) => {
            let file = resolve_file(state.file_map, place.file);
            let index = interned_index(state.names, name@) as usize;
            let before = flush_indent(state.output, state.indent);
            let behind = emit(before, state.indent, chunk);
            WriterState {
                output: behind,
                names: interned_table(state.names, name@),
                entries: state.entries.push(
                    entry_at(before, file, place.line, place.column as int, Some(index)),
                ).push(
                    entry_at(
                        behind,
                        file,
                        place.line,
                        place.column + utf16_len_of(name@),
                        None,
                    ),
                ),
                ..state
            }
        },
    }
}

/// Writes text and records where it comes from.
pub struct SourceWriter {
    buffer: String,
    mapping: MappingWriter,
    name_mapper: NameMapper,
    file_index_mapper: Option<Vec<usize>>,
    indent: usize,
    indent_str: String,
    has_indent_flag: bool,
    /// Line number in generated source. (0-based)
    current_line: usize,
    /// Column number in generated source. (0-based)
    current_column: usize,
}

/// What a finished writer hands over.
pub struct SourceWriterBuffers {
    /// The generated text.
    pub buffer: String,
    /// The mapping text of the entries recorded.
    pub source_map: String,
    /// The names interned, by index.
    pub names: Vec<String>,
}

/// Every name index in `entries` points into a table of `count` names.
pub open spec fn names_indexed(entries: Seq<MappingEntry>, count: nat) -> bool {
    forall|i: int|
        0 <= i < entries.len() ==> ((#[trigger] entries[i]).name_index matches Some(n) ==> n
            < count)
}

/// The last of `entries`, if there is one, is not behind the cursor of `out`.
pub open spec fn cursor_behind(entries: Seq<MappingEntry>, out: Output) -> bool {
    entries.len() > 0 ==> {
        let last = entries.last();
        last.generated_line < out.line || (last.generated_line == out.line
            && last.generated_column <= out.column)
    }
}

impl SourceWriter {
    /// All that the writer holds.
    pub closed spec fn view(&self) -> WriterState {
        WriterState {
            output: Output {
                text: self.buffer@,
                pending_indent: self.has_indent_flag,
                line: self.current_line as nat,
                column: self.current_column as nat,
            },
            indent: self.indent as nat,
            entries: self.mapping@,
            names: self.name_mapper@,
            file_map: match self.file_index_mapper {
                Some(map) => Some(map@),
                None => None,
            },
        }
    }

    /// The writer's parts agree with each other.
    pub closed spec fn wf(&self) -> bool {
        &&& self.indent_str@ == spaces(self.indent as nat)
        &&& self.name_mapper.wf()
        &&& at_end(self@.output)
        &&& ordered(self.mapping@)
        &&& cursor_behind(self.mapping@, self@.output)
        &&& names_indexed(self.mapping@, self.name_mapper@.len())
    }

    /// What holds of every writer: the cursor stands behind the end of the
    /// text; the entries stand in non-decreasing order of generated
    /// position, none of them behind the cursor; no name is interned twice;
    /// and every name index points into the table.
    pub proof fn lemma_invariants(&self)
        requires
            self.wf(),
        ensures
            at_end(self@.output),
            ordered(self@.entries),
            cursor_behind(self@.entries, self@.output),
            self@.names.no_duplicates(),
            names_indexed(self@.entries, self@.names.len()),
            self@.output.line <= usize::MAX,
            self@.output.column <= usize::MAX,
            self@.indent <= usize::MAX,
    {
    }

    /// A writer that has written nothing.
    pub fn new() -> (w: SourceWriter)
        ensures
            w.wf(),
            w@ == WriterState::start(),
    {
        let w = SourceWriter {
            buffer: String::new(),
            mapping: MappingWriter::new(),
            name_mapper: NameMapper::new(),
            file_index_mapper: None,
            indent: 0,
            indent_str: String::new(),
            has_indent_flag: false,
            current_line: 0,
            current_column: 0,
        };
        assert(w.indent_str@ =~= spaces(0));
        assert(w@ =~= WriterState::start());
        w
    }

    /// Sets the table that leads from the file indices of origins to the file
    /// indices that entries carry.
    pub fn set_file_index_mapper(&mut self, file_index_mapper: Vec<usize>)
        requires
            old(self).wf(),
        ensures
            final(self).wf(),
            final(self)@ == (WriterState { file_map: Some(file_index_mapper@), ..old(self)@ }),
    {
        self.file_index_mapper = Some(file_index_mapper);
    }

    /// Hands over the text, the mapping text and the names.
    pub fn into_buffers(self) -> (buffers: SourceWriterBuffers)
        ensures
            buffers.buffer@ == self@.output.text,
            buffers.source_map@ == encode_mappings(self@.entries),
            buffers.names@.len() == self@.names.len(),
            forall|i: int| 0 <= i < buffers.names@.len() ==> buffers.names@[i]@ == self@.names[i],
    {
        SourceWriterBuffers {
            buffer: self.buffer,
            source_map: self.mapping.into_buffer(),
            names: self.name_mapper.into_names(),
        }
    }

    /// Pays the indentation that is owed, if any.
    fn flush_pending_indent(&mut self)
        requires
            old(self).wf(),
        ensures
            final(self).wf(),
            final(self)@ == (WriterState {
                output: flush_indent(old(self)@.output, old(self)@.indent),
                ..old(self)@
            }),
    {
        if self.has_indent_flag {
            self.buffer.append(self.indent_str.as_str());
            proof {
                lemma_flush_at_end(old(self)@.output, old(self)@.indent);
            }
            let _ = self.text_limit();
            self.current_column = self.current_column + self.indent;
            self.has_indent_flag = false;
        }
    }

    /// The byte length of the text, which bounds every count of its
    /// characters and of its UTF-16 code units.
    fn text_limit(&self) -> (limit: usize)
        ensures
            line_breaks(self.buffer@) + utf16_len_of(last_line(self.buffer@)) <= limit,
    {
        proof {
            lemma_cursor_bound(self.buffer@);
            lemma_utf16_len_le_utf8_len(self.buffer@);
        }
        self.buffer.as_str().as_bytes().len()
    }

    /// Writes one character.
    fn put(&mut self, c: char)
        requires
            old(self).wf(),
        ensures
            final(self).wf(),
            final(self)@ == (WriterState {
                output: emit_char(old(self)@.output, old(self)@.indent, c),
                ..old(self)@
            }),
    {
        if c == '\n' {
            push_char(&mut self.buffer, c);
            proof {
                lemma_emit_char_at_end(old(self)@.output, old(self)@.indent, c);
            }
            let _ = self.text_limit();
            self.has_indent_flag = true;
            self.current_line = self.current_line + 1;
            self.current_column = 0;
        } else {
            self.flush_pending_indent();
            push_char(&mut self.buffer, c);
            proof {
                lemma_emit_char_at_end(old(self)@.output, old(self)@.indent, c);
            }
            let _ = self.text_limit();
            if c as u32 >= 0x10000 {
                self.current_column = self.current_column + 2;
            } else {
                self.current_column = self.current_column + 1;
            }
        }
    }

    /// Writes `chunk`.
    pub fn write(&mut self, chunk: &str)
        requires
            old(self).wf(),
        ensures
            final(self).wf(),
            final(self)@ == (WriterState {
                output: emit(old(self)@.output, old(self)@.indent, chunk@),
                ..old(self)@
            }),
    {
        broadcast use vstd::string::group_string_axioms;

        let mut it = chunk.chars();
        let ghost mut seen: Seq<char> = Seq::empty();
        loop
            invariant
                it.decrease() is Some,
                seen + it.remaining() == chunk@,
                self.wf(),
                self@ == (WriterState {
                    output: emit(old(self)@.output, old(self)@.indent, seen),
                    ..old(self)@
                }),
            decreases it.decrease()->0,
        {
            let ghost rest = it.remaining();
            match it.next() {
                Some(c) => {
                    proof {
                        lemma_emit_push(old(self)@.output, old(self)@.indent, seen, c);
                        assert(seen.push(c) + rest.drop_first() =~= seen + rest);
                        seen = seen.push(c);
                    }
                    self.put(c);
                },
                None => {
                    proof {
                        assert(seen =~= chunk@);
                    }
                    return;
                },
            }
        }
    }

    /// The file index that entries carry for the original file `file`.
    fn file_index(&self, file: usize) -> (index: usize)
        requires
            self@.file_map matches Some(map) ==> file < map.len(),
        ensures
            index == resolve_file(self@.file_map, file),
    {
        match &self.file_index_mapper {
            Some(map) => map[file],
            None => file,
        }
    }

    /// Tells whether `origin` can be recorded by this writer.
    pub fn can_record(&self, origin: &Origin) -> (ok: bool)
        ensures
            ok == origin_valid(self@.file_map, *origin),
    {
        match origin {
            Origin::Builtin => true,
            Origin::Unnamed(place) => self.knows_file(place.file),
            Origin::Named(place, name) => {
                let behind_name = place.column.checked_add(utf16_len(name.as_str()));
                self.knows_file(place.file) && behind_name.is_some()
            },
        }
    }

    /// Tells whether the file index `file` lies within the table of file
    /// indices, where one is set.
    fn knows_file(&self, file: usize) -> (known: bool)
        ensures
            known == (self@.file_map matches Some(map) ==> file < map.len()),
    {
        match &self.file_index_mapper {
            Some(map) => file < map.len(),
            None => true,
        }
    }

    /// Records an entry that links the cursor to the given original place.
    fn record_here(&mut self, file: usize, line: usize, column: usize, name_index: Option<usize>)
        requires
            old(self).wf(),
            name_index matches Some(n) ==> n < old(self)@.names.len(),
        ensures
            final(self).wf(),
            final(self)@ == (WriterState {
                entries: old(self)@.entries.push(
                    entry_at(old(self)@.output, file, line, column as int, name_index),
                ),
                ..old(self)@
            }),
    {
        let ghost before = self.mapping@;
        self.mapping.add_entry(
            self.current_line,
            self.current_column,
            line,
            column,
            file,
            name_index,
        );
        proof {
            let added = entry_at(old(self)@.output, file, line, column as int, name_index);
            let all = self.mapping@;
            assert(all == before.push(added));
            assert forall|i: int, j: int| 0 <= i <= j < all.len() implies position_le(
                #[trigger] all[i],
                #[trigger] all[j],
            ) by {
                if j < before.len() {
                    assert(position_le(before[i], before[j]));
                } else if i < before.len() {
                    assert(position_le(before[i], before.last()));
                }
            }
        }
    }

    /// Writes `chunk` and records where it comes from.
    pub fn write_for(&mut self, chunk: &str, origin: &Origin)
        requires
            old(self).wf(),
            origin_valid(old(self)@.file_map, *origin),
        ensures
            final(self).wf(),
            final(self)@ == recorded(old(self)@, chunk@, *origin),
    {
        match origin {
            Origin::Builtin => {
                self.write(chunk);
            },
            Origin::Unnamed(place) => {
                let file = self.file_index(place.file);
                self.record_here(file, place.line, place.column, None);
                self.write(chunk);
            },
            Origin::Named(place, name) => {
                let file = self.file_index(place.file);
                let index = self.intern(name.as_str());
                self.flush_pending_indent();
                self.record_here(file, place.line, place.column, Some(index));
                self.write(chunk);
                let behind_name = place.column + utf16_len(name.as_str());
                self.record_here(file, place.line, behind_name, None);
            },
        }
    }

    /// Interns `name` in the table of names.
    fn intern(&mut self, name: &str) -> (index: usize)
        requires
            old(self).wf(),
        ensures
            final(self).wf(),
            final(self)@ == (WriterState {
                names: interned_table(old(self)@.names, name@),
                ..old(self)@
            }),
            index == interned_index(old(self)@.names, name@),
            index < final(self)@.names.len(),
    {
        proof {
            lemma_interned(self.name_mapper@, name@);
        }
        self.name_mapper.map_name(name)
    }

    /// Deepens the indentation by two columns.
    pub fn indent(&mut self)
        requires
            old(self).wf(),
        ensures
            final(self).wf(),
            final(self)@ == (WriterState { indent: old(self)@.indent + 2, ..old(self)@ }),
    {
        push_char(&mut self.indent_str, ' ');
        push_char(&mut self.indent_str, ' ');
        assert(self.indent_str@ =~= spaces((self.indent + 2) as nat));
        self.indent = self.indent_str.as_str().unicode_len();
    }

    /// Takes two columns off the indentation, or all of it where it is less.
    pub fn dedent(&mut self)
        requires
            old(self).wf(),
        ensures
            final(self).wf(),
            final(self)@ == (WriterState {
                indent: if old(self)@.indent >= 2 {
                    (old(self)@.indent - 2) as nat
                } else {
                    0
                },
                ..old(self)@
            }),
    {
        self.indent = if self.indent >= 2 {
            self.indent - 2
        } else {
            0
        };
        self.indent_str = spaces_string(self.indent);
    }

    /// Decoding the mapping text of a writer gives back exactly the entries
    /// it recorded, in their order.
    pub proof fn lemma_round_trip(&self)
        requires
            self.wf(),
        ensures
            decode_mappings(encode_mappings(self@.entries)) == Some(self@.entries),
    {
        lemma_ordered_lines_ascend(self@.entries);
        lemma_decode_encode(self@.entries);
    }
}

impl Default for SourceWriter {
    fn default() -> (w: SourceWriter)
        ensures
            w.wf(),
            w@ == WriterState::start(),
    {
        SourceWriter::new()
    }
}

/// Entries in order of generated position have generated lines that never go
/// down.
pub proof fn lemma_ordered_lines_ascend(entries: Seq<MappingEntry>)
    requires
        ordered(entries),
    ensures
        lines_ascend(entries),
{
    assert forall|i: int, j: int| 0 <= i <= j < entries.len() implies (
    #[trigger] entries[i]).generated_line <= (#[trigger] entries[j]).generated_line by {
        assert(position_le(entries[i], entries[j]));
    }
}

/// A builtin origin has its chunk written like any text and records nothing.
pub proof fn lemma_builtin_records_nothing(state: WriterState, chunk: Seq<char>)
    ensures
        recorded(state, chunk, Origin::Builtin) == (WriterState {
            output: emit(state.output, state.indent, chunk),
            ..state
        }),
        recorded(state, chunk, Origin::Builtin).entries == state.entries,
        recorded(state, chunk, Origin::Builtin).names == state.names,
{
}

/// A named origin whose chunk is one piece of a line records two entries on
/// that line: the first at the column where the chunk starts, with the index
/// of the name; the second behind the chunk, its UTF-16 length further on,
/// without a name. In the original they lie the name's UTF-16 length apart.
pub proof fn lemma_named_span(
    state: WriterState,
    chunk: Seq<char>,
    place: SourcePos,
    name: String,
)
    requires
        chunk.len() > 0,
        !chunk.contains('\n'),
        state.names.no_duplicates(),
        state.output.line <= usize::MAX,
        flush_indent(state.output, state.indent).column + utf16_len_of(chunk) <= usize::MAX,
        place.column + utf16_len_of(name@) <= usize::MAX,
    ensures
        ({
            let after = recorded(state, chunk, Origin::Named(place, name));
            let n = state.entries.len() as int;
            let start = flush_indent(state.output, state.indent).column;
            &&& after.entries.len() == n + 2
            &&& after.entries.subrange(0, n) == state.entries
            &&& after.entries[n].generated_line == state.output.line
            &&& after.entries[n].generated_column == start
            &&& after.entries[n].original_column == place.column
            &&& after.entries[n].name_index == Some(interned_index(state.names, name@) as usize)
            &&& after.names[interned_index(state.names, name@)] == name@
            &&& after.entries[n + 1].generated_line == state.output.line
            &&& after.entries[n + 1].generated_column == start + utf16_len_of(chunk)
            &&& after.entries[n + 1].original_column == place.column + utf16_len_of(name@)
            &&& after.entries[n + 1].name_index == None::<usize>
        }),
{
    let before = flush_indent(state.output, state.indent);
    lemma_emit_piece(before, state.indent, chunk);
    lemma_interned(state.names, name@);
    let after = recorded(state, chunk, Origin::Named(place, name));
    assert(after.entries.subrange(0, state.entries.len() as int) =~= state.entries);
}

} // verus!
