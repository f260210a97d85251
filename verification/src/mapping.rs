//! Mapping entries and their delta-encoded text: the `mappings` string of a
//! version 3 source map.

use vstd::prelude::*;
use crate::text::push_char;
use crate::vlq::{push_vlq, vlq};

verus! {

/// One recorded link from a position in the generated text to a position in
/// an original source file. Lines and columns count from zero; columns count
/// UTF-16 code units.
#[derive(Clone, Copy, Debug, PartialEq, Eq)]
pub struct MappingEntry {
    pub generated_line: usize,
    pub generated_column: usize,
    pub original_file: usize,
    pub original_line: usize,
    pub original_column: usize,
    pub name_index: Option<usize>,
}

/// The values that the fields of the next segment are written relative to.
pub struct DeltaBase {
    pub line: int,
    pub column: int,
    pub file: int,
    pub original_line: int,
    pub original_column: int,
    pub name: int,
}

impl DeltaBase {
    /// The base before any entry: every field is zero.
    pub open spec fn start() -> DeltaBase {
        DeltaBase { line: 0, column: 0, file: 0, original_line: 0, original_column: 0, name: 0 }
    }

    /// The base after `e` was written: `e`'s own values, and the name of the
    /// latest entry that had one.
    pub open spec fn after(self, e: MappingEntry) -> DeltaBase {
        DeltaBase {
            line: e.generated_line as int,
            column: e.generated_column as int,
            file: e.original_file as int,
            original_line: e.original_line as int,
            original_column: e.original_column as int,
            name: match e.name_index {
                Some(n) => n as int,
                None => self.name,
            },
        }
    }
}

/// The base that follows all of `entries`.
pub open spec fn base_after(entries: Seq<MappingEntry>) -> DeltaBase
    decreases entries.len(),
{
    if entries.len() == 0 {
        DeltaBase::start()
    } else {
        base_after(entries.drop_last()).after(entries.last())
    }
}

/// `n` line separators.
pub open spec fn semicolons(n: nat) -> Seq<char> {
    Seq::new(n, |i: int| ';')
}

/// What stands between the text written so far and the segment of `e`: one
/// `;` for each generated line that `e` lies beyond the base's line; else a
/// `,`, unless `e` is the first entry of all.
pub open spec fn separator(base: DeltaBase, first: bool, e: MappingEntry) -> Seq<char> {
    if e.generated_line > base.line {
        semicolons((e.generated_line - base.line) as nat)
    } else if first {
        Seq::empty()
    } else {
        seq![',']
    }
}

/// The column that `e`'s generated column is written relative to: zero on a
/// new generated line, the base's column on the same line.
pub open spec fn column_base(base: DeltaBase, e: MappingEntry) -> int {
    if e.generated_line > base.line {
        0
    } else {
        base.column
    }
}

/// The segment of `e`: the VLQ texts of its generated column, file index,
/// original line and original column, each as a difference from the base,
/// and of its name index where it has one.
pub open spec fn segment(base: DeltaBase, e: MappingEntry) -> Seq<char> {
    vlq(e.generated_column - column_base(base, e)) + vlq(e.original_file - base.file) + vlq(
        e.original_line - base.original_line,
    ) + vlq(e.original_column - base.original_column) + match e.name_index {
        Some(n) => vlq(n - base.name),
        None => Seq::empty(),
    }
}

/// The mapping text of `entries`, in the order given.
pub open spec fn encode_mappings(entries: Seq<MappingEntry>) -> Seq<char>
    decreases entries.len(),
{
    if entries.len() == 0 {
        Seq::empty()
    } else {
        let before = entries.drop_last();
        let base = base_after(before);
        encode_mappings(before) + separator(base, before.len() == 0, entries.last()) + segment(
            base,
            entries.last(),
        )
    }
}

/// The generated position of `a` is not behind that of `b`.
pub open spec fn position_le(a: MappingEntry, b: MappingEntry) -> bool {
    a.generated_line < b.generated_line || (a.generated_line == b.generated_line
        && a.generated_column <= b.generated_column)
}

/// The entries stand in non-decreasing order of generated position.
pub open spec fn ordered(entries: Seq<MappingEntry>) -> bool {
    forall|i: int, j: int|
        0 <= i <= j < entries.len() ==> position_le(#[trigger] entries[i], #[trigger] entries[j])
}

/// The running base of an encoder, in machine integers.
struct Previous {
    line: usize,
    column: usize,
    file: usize,
    original_line: usize,
    original_column: usize,
    name: usize,
}

impl Previous {
    spec fn view(&self) -> DeltaBase {
        DeltaBase {
            line: self.line as int,
            column: self.column as int,
            file: self.file as int,
            original_line: self.original_line as int,
            original_column: self.original_column as int,
            name: self.name as int,
        }
    }
}

/// Appends `n` line separators to `out`.
fn push_semicolons(out: &mut String, n: usize)
    ensures
        final(out)@ == old(out)@ + semicolons(n as nat),
{
    let mut k: usize = 0;
    while k < n
        invariant
            k <= n,
            out@ == old(out)@ + semicolons(k as nat),
        decreases n - k,
    {
        push_char(out, ';');
        k = k + 1;
        assert(out@ =~= old(out)@ + semicolons(k as nat));
    }
}

/// Appends the VLQ text of `to - from` to `out`.
fn push_delta(out: &mut String, from: usize, to: usize)
    ensures
        final(out)@ == old(out)@ + vlq(to - from),
{
    push_vlq(out, to as i128 - from as i128);
}

/// Appends the separator and the segment of `e` to `out`, and moves the base
/// on to `e`.
fn push_entry(out: &mut String, prev: &mut Previous, first: bool, e: &MappingEntry)
    ensures
        final(out)@ == old(out)@ + separator(old(prev)@, first, *e) + segment(old(prev)@, *e),
        final(prev)@ == old(prev)@.after(*e),
{
    let ghost base = prev@;
    let column_from = if e.generated_line > prev.line {
        push_semicolons(out, e.generated_line - prev.line);
        0
    } else {
        if !first {
            push_char(out, ',');
        }
        prev.column
    };
    assert(out@ =~= old(out)@ + separator(base, first, *e));
    push_delta(out, column_from, e.generated_column);
    push_delta(out, prev.file, e.original_file);
    push_delta(out, prev.original_line, e.original_line);
    push_delta(out, prev.original_column, e.original_column);
    match e.name_index {
        Some(n) => {
            push_delta(out, prev.name, n);
            prev.name = n;
        },
        None => {},
    }
    assert(out@ =~= old(out)@ + separator(base, first, *e) + segment(base, *e));
    prev.line = e.generated_line;
    prev.column = e.generated_column;
    prev.file = e.original_file;
    prev.original_line = e.original_line;
    prev.original_column = e.original_column;
}

/// Collects mapping entries in the order they are added, and writes them out
/// as one mapping text.
pub struct MappingWriter {
    entries: Vec<MappingEntry>,
}

impl MappingWriter {
    /// The entries added so far, in order.
    pub closed spec fn view(&self) -> Seq<MappingEntry> {
        self.entries@
    }

    /// A writer that holds no entry.
    pub fn new() -> (w: MappingWriter)
        ensures
            w@ == Seq::<MappingEntry>::empty(),
    {
        MappingWriter { entries: Vec::new() }
    }

    /// Adds one entry behind those already held.
    pub fn add_entry(
        &mut self,
        generated_line: usize,
        generated_column: usize,
        original_line: usize,
        original_column: usize,
        file_index: usize,
        name_index: Option<usize>,
    )
        ensures
            final(self)@ == old(self)@.push(
                (MappingEntry {
                    generated_line,
                    generated_column,
                    original_file: file_index,
                    original_line,
                    original_column,
                    name_index,
                }),
            ),
    {
        self.entries.push(
            MappingEntry {
                generated_line,
                generated_column,
                original_file: file_index,
                original_line,
                original_column,
                name_index,
            },
        );
    }

    /// The mapping text of the entries held.
    pub fn into_buffer(self) -> (text: String)
        ensures
            text@ == encode_mappings(self@),
    {
        let mut out = String::new();
        let mut prev = Previous {
            line: 0,
            column: 0,
            file: 0,
            original_line: 0,
            original_column: 0,
            name: 0,
        };
        let mut i: usize = 0;
        while i < self.entries.len()
            invariant
                i <= self.entries.len(),
                out@ == encode_mappings(self.entries@.take(i as int)),
                prev@ == base_after(self.entries@.take(i as int)),
            decreases self.entries.len() - i,
        {
            assert(self.entries@.take(i + 1).drop_last() =~= self.entries@.take(i as int));
            push_entry(&mut out, &mut prev, i == 0, &self.entries[i]);
            i = i + 1;
        }
        assert(self.entries@.take(i as int) =~= self.entries@);
        out
    }
}

} // verus!
