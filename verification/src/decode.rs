//! Reading a mapping text back: a character-by-character decoder, and the
//! proof that it recovers every entry that the encoder wrote.

use vstd::prelude::*;
use vstd::string::StringSliceAdditionalSpecFns;
use vstd::std_specs::iter::IteratorSpec;
use crate::utf16::{lemma_utf16_len_bounds, lemma_utf16_len_le_utf8_len};
use crate::mapping::{
    base_after, column_base, encode_mappings, segment, semicolons, separator, DeltaBase,
    MappingEntry,
};
use crate::vlq::{
    base64_digit, base64_value, lemma_base64_value_digit, lemma_sign_unfold_fold, sign_fold,
    sign_unfold, vlq, vlq_digits,
};

verus! {

/// The bound on the weight of a VLQ digit: a quantity may have fourteen
/// digits, seventy bits, and no more.
pub open spec fn vlq_limit() -> nat {
    0x40_0000_0000_0000_0000
}

/// What a decoder knows after it has read some characters.
#[verifier::ext_equal]
pub struct DecodeState {
    /// Nothing malformed was read.
    pub ok: bool,
    /// The entries of the segments that are closed.
    pub entries: Seq<MappingEntry>,
    /// The values that the fields of the open segment are relative to.
    pub base: DeltaBase,
    /// The fields read of the open segment.
    pub fields: Seq<int>,
    /// The part read of an unfinished quantity.
    pub acc: nat,
    /// The weight of the next digit: one, unless a quantity is unfinished.
    pub scale: nat,
}

impl DecodeState {
    /// The state before any character.
    pub open spec fn start() -> DecodeState {
        DecodeState {
            ok: true,
            entries: Seq::empty(),
            base: DeltaBase::start(),
            fields: Seq::empty(),
            acc: 0,
            scale: 1,
        }
    }

    /// The state between two segments, when `entries` have been read.
    pub open spec fn between(entries: Seq<MappingEntry>) -> DecodeState {
        DecodeState {
            ok: true,
            entries,
            base: base_after(entries),
            fields: Seq::empty(),
            acc: 0,
            scale: 1,
        }
    }

    /// This state, marked as malformed.
    pub open spec fn fail(self) -> DecodeState {
        DecodeState { ok: false, ..self }
    }
}

/// `v` is a value that an entry's field can hold.
pub open spec fn fits(v: int) -> bool {
    0 <= v <= usize::MAX
}

/// Reads one digit of value `d` into the open quantity. A digit with the
/// continuation bit leaves the quantity open; any other ends it, and the
/// signed value it carries becomes the segment's next field.
pub open spec fn read_digit(st: DecodeState, d: int) -> DecodeState {
    if st.scale >= vlq_limit() {
        st.fail()
    } else {
        let acc = (st.acc + (d % 32) * st.scale) as nat;
        if d >= 32 {
            DecodeState { acc, scale: st.scale * 32, ..st }
        } else {
            DecodeState { fields: st.fields.push(sign_unfold(acc)), acc: 0, scale: 1, ..st }
        }
    }
}

/// Closes the open segment. One without fields is empty and changes
/// nothing; one field moves the generated column; four or five fields make
/// an entry, each value being the base's plus the field. Anything else, an
/// unfinished quantity, or a value that no entry can hold, is malformed.
pub open spec fn close_segment(st: DecodeState) -> DecodeState {
    let n = st.fields.len();
    if !st.ok {
        st
    } else if st.scale != 1 {
        st.fail()
    } else if n == 0 {
        st
    } else if n == 1 {
        let column = st.base.column + st.fields[0];
        if fits(column) {
            DecodeState { base: DeltaBase { column, ..st.base }, fields: Seq::empty(), ..st }
        } else {
            st.fail()
        }
    } else if n == 4 || n == 5 {
        let column = st.base.column + st.fields[0];
        let file = st.base.file + st.fields[1];
        let original_line = st.base.original_line + st.fields[2];
        let original_column = st.base.original_column + st.fields[3];
        let name = if n == 5 {
            st.base.name + st.fields[4]
        } else {
            0
        };
        if fits(st.base.line) && fits(column) && fits(file) && fits(original_line) && fits(
            original_column,
        ) && fits(name) {
            let e = MappingEntry {
                generated_line: st.base.line as usize,
                generated_column: column as usize,
                original_file: file as usize,
                original_line: original_line as usize,
                original_column: original_column as usize,
                name_index: if n == 5 {
                    Some(name as usize)
                } else {
                    None
                },
            };
            DecodeState {
                entries: st.entries.push(e),
                base: st.base.after(e),
                fields: Seq::empty(),
                ..st
            }
        } else {
            st.fail()
        }
    } else {
        st.fail()
    }
}

/// Moves on to the next generated line, where columns start again at zero.
pub open spec fn next_line(st: DecodeState) -> DecodeState {
    if !st.ok {
        st
    } else {
        DecodeState { base: DeltaBase { line: st.base.line + 1, column: 0, ..st.base }, ..st }
    }
}

/// Reads one character: `;` closes the segment and the line, `,` closes the
/// segment, a base64 character is a digit, and any other is malformed. Once
/// malformed, a state stays so.
pub open spec fn decode_step(st: DecodeState, c: char) -> DecodeState {
    if !st.ok {
        st
    } else if c == ';' {
        next_line(close_segment(st))
    } else if c == ',' {
        close_segment(st)
    } else {
        match base64_value(c) {
            Some(d) => read_digit(st, d),
            None => st.fail(),
        }
    }
}

/// Reads the characters of `text` in order.
pub open spec fn decode_run(st: DecodeState, text: Seq<char>) -> DecodeState
    decreases text.len(),
{
    if text.len() == 0 {
        st
    } else {
        decode_step(decode_run(st, text.drop_last()), text.last())
    }
}

/// The entries that the mapping text `text` holds, or `None` where it is
/// malformed.
pub open spec fn decode_mappings(text: Seq<char>) -> Option<Seq<MappingEntry>> {
    let st = close_segment(decode_run(DecodeState::start(), text));
    if st.ok {
        Some(st.entries)
    } else {
        None
    }
}

/// The generated lines of `entries` never go down.
pub open spec fn lines_ascend(entries: Seq<MappingEntry>) -> bool {
    forall|i: int, j: int|
        0 <= i <= j < entries.len() ==> (#[trigger] entries[i]).generated_line <= (
        #[trigger] entries[j]).generated_line
}

/// Reading a concatenation is reading its parts in turn.
pub proof fn lemma_run_concat(st: DecodeState, a: Seq<char>, b: Seq<char>)
    ensures
        decode_run(st, a + b) == decode_run(decode_run(st, a), b),
    decreases b.len(),
{
    if b.len() == 0 {
        assert(a + b =~= a);
    } else {
        assert((a + b).drop_last() =~= a + b.drop_last());
        lemma_run_concat(st, a, b.drop_last());
    }
}

/// Reading a text of one character is one step.
proof fn lemma_run_one(st: DecodeState, c: char)
    ensures
        decode_run(st, seq![c]) == decode_step(st, c),
{
    let one = seq![c];
    assert(one.drop_last() =~= Seq::<char>::empty());
    assert(decode_run(st, Seq::<char>::empty()) == st);
    assert(one.last() == c);
    assert(decode_run(st, one) == decode_step(decode_run(st, one.drop_last()), one.last()));
}

/// Reading a text that starts with `c` is a step on `c`, then reading the rest.
proof fn lemma_run_first(st: DecodeState, c: char, rest: Seq<char>)
    ensures
        decode_run(st, seq![c] + rest) == decode_run(decode_step(st, c), rest),
{
    lemma_run_concat(st, seq![c], rest);
    lemma_run_one(st, c);
}

/// The digits of `n`, read into an open quantity, end it with `n` added at
/// the current weight.
proof fn lemma_run_digits(st: DecodeState, n: nat)
    requires
        st.ok,
        1 <= st.scale < vlq_limit(),
        n * st.scale < vlq_limit(),
    ensures
        decode_run(st, vlq_digits(n)) == (DecodeState {
            fields: st.fields.push(sign_unfold((st.acc + n * st.scale) as nat)),
            acc: 0,
            scale: 1,
            ..st
        }),
    decreases n,
{
    let scale = st.scale;
    if n < 32 {
        lemma_base64_value_digit(n as int);
        lemma_run_one(st, base64_digit(n as int));
        assert((n as int % 32) * scale == n * scale);
    } else {
        let low = n % 32;
        let high = n / 32;
        let c = base64_digit(32 + low as int);
        lemma_base64_value_digit(32 + low as int);
        assert(c != ';' && c != ',');
        let next = decode_step(st, c);
        assert(32 * scale <= n * scale && high * (scale * 32) <= n * scale && low * scale + high
            * (scale * 32) == n * scale) by (nonlinear_arith)
            requires
                n >= 32,
                scale >= 1,
                n == 32 * high + low,
                low < 32,
        ;
        assert(((32 + low as int) % 32) == low);
        assert(next == DecodeState {
            acc: (st.acc + low * scale) as nat,
            scale: scale * 32,
            ..st
        });
        lemma_run_digits(next, high);
        lemma_run_first(st, c, vlq_digits(high));
    }
}

/// The VLQ text of `v`, read at the start of a field, adds the field `v`.
proof fn lemma_run_vlq(st: DecodeState, v: int)
    requires
        st.ok,
        st.acc == 0,
        st.scale == 1,
        sign_fold(v) < vlq_limit(),
    ensures
        decode_run(st, vlq(v)) == (DecodeState { fields: st.fields.push(v), ..st }),
{
    lemma_run_digits(st, sign_fold(v));
    lemma_sign_unfold_fold(v);
    assert(sign_fold(v) * 1 == sign_fold(v));
}

/// The differences that the segment of `e` holds against `base`.
pub open spec fn deltas(base: DeltaBase, e: MappingEntry) -> Seq<int> {
    let four = seq![
        e.generated_column - column_base(base, e),
        e.original_file - base.file,
        e.original_line - base.original_line,
        e.original_column - base.original_column,
    ];
    match e.name_index {
        Some(n) => four.push(n - base.name),
        None => four,
    }
}

/// `v` lies where a difference of two field values can lie.
spec fn small(v: int) -> bool {
    -0x1_0000_0000_0000_0000 < v < 0x1_0000_0000_0000_0000
}

/// The base holds values that entries can hold.
spec fn base_fits(base: DeltaBase) -> bool {
    &&& fits(base.line)
    &&& fits(base.column)
    &&& fits(base.file)
    &&& fits(base.original_line)
    &&& fits(base.original_column)
    &&& fits(base.name)
}

/// The base after any entries holds values that entries can hold.
proof fn lemma_base_after_fits(entries: Seq<MappingEntry>)
    ensures
        base_fits(base_after(entries)),
        base_after(entries).line == if entries.len() == 0 {
            0
        } else {
            entries.last().generated_line as int
        },
    decreases entries.len(),
{
    if entries.len() > 0 {
        lemma_base_after_fits(entries.drop_last());
    }
}

/// The segment of `e`, read between two segments, leaves the differences of
/// `e` as the open segment's fields.
proof fn lemma_run_segment(st: DecodeState, base: DeltaBase, e: MappingEntry)
    requires
        st.ok,
        st.acc == 0,
        st.scale == 1,
        st.fields.len() == 0,
        base_fits(base),
    ensures
        decode_run(st, segment(base, e)) == (DecodeState { fields: deltas(base, e), ..st }),
{
    let d0 = e.generated_column - column_base(base, e);
    let d1 = e.original_file - base.file;
    let d2 = e.original_line - base.original_line;
    let d3 = e.original_column - base.original_column;
    assert(small(d0) && small(d1) && small(d2) && small(d3));
    let s1 = DecodeState { fields: st.fields.push(d0), ..st };
    let s2 = DecodeState { fields: s1.fields.push(d1), ..st };
    let s3 = DecodeState { fields: s2.fields.push(d2), ..st };
    let s4 = DecodeState { fields: s3.fields.push(d3), ..st };
    lemma_run_vlq(st, d0);
    lemma_run_vlq(s1, d1);
    lemma_run_vlq(s2, d2);
    lemma_run_vlq(s3, d3);
    let t1 = vlq(d0);
    let t2 = t1 + vlq(d1);
    let t3 = t2 + vlq(d2);
    let t4 = t3 + vlq(d3);
    lemma_run_concat(st, t1, vlq(d1));
    lemma_run_concat(st, t2, vlq(d2));
    lemma_run_concat(st, t3, vlq(d3));
    assert(decode_run(st, t4) == s4);
    assert(s4.fields =~= seq![d0, d1, d2, d3]);
    match e.name_index {
        Some(n) => {
            let d4 = n - base.name;
            assert(small(d4));
            lemma_run_vlq(s4, d4);
            lemma_run_concat(st, t4, vlq(d4));
            assert(segment(base, e) == t4 + vlq(d4));
            assert(s4.fields.push(d4) =~= deltas(base, e));
        },
        None => {
            assert(segment(base, e) =~= t4);
        },
    }
}

/// Line separators, read after a well-formed segment, close it and move on
/// by as many lines.
proof fn lemma_run_semicolons(st: DecodeState, n: nat)
    requires
        n >= 1,
        close_segment(st).ok,
    ensures
        decode_run(st, semicolons(n)) == ({
            let closed = close_segment(st);
            DecodeState {
                base: DeltaBase { line: closed.base.line + n, column: 0, ..closed.base },
                ..closed
            }
        }),
    decreases n,
{
    let closed = close_segment(st);
    assert(st.ok);
    if n == 1 {
        assert(semicolons(1) =~= seq![';']);
        lemma_run_one(st, ';');
    } else {
        let m = (n - 1) as nat;
        lemma_run_semicolons(st, m);
        assert(semicolons(n).drop_last() =~= semicolons(m));
        let before = decode_run(st, semicolons(m));
        assert(close_segment(before) == before);
    }
}

/// Closing the segment that holds the differences of `e` against the base
/// gives back `e`.
proof fn lemma_close_deltas(st: DecodeState, before: Seq<MappingEntry>, e: MappingEntry)
    requires
        st.ok,
        st.acc == 0,
        st.scale == 1,
        st.entries == before,
        st.fields == deltas(base_after(before), e),
        st.base == (DeltaBase {
            line: e.generated_line as int,
            column: column_base(base_after(before), e),
            ..base_after(before)
        }),
    ensures
        close_segment(st) == DecodeState::between(before.push(e)),
{
    lemma_base_after_fits(before);
    let all = before.push(e);
    assert(all.drop_last() =~= before);
    assert(all.last() == e);
    assert(base_after(all) == base_after(before).after(e));
    let closed = close_segment(st);
    assert(closed.entries =~= all);
    assert(closed =~= DecodeState::between(all));
}

/// Reading the mapping text of `entries` and closing the last segment leaves
/// the decoder between segments with exactly `entries` read.
proof fn lemma_run_encoded(entries: Seq<MappingEntry>)
    requires
        lines_ascend(entries),
    ensures
        close_segment(decode_run(DecodeState::start(), encode_mappings(entries)))
            == DecodeState::between(entries),
    decreases entries.len(),
{
    let start = DecodeState::start();
    if entries.len() == 0 {
        assert(DecodeState::between(entries) =~= start);
    } else {
        let before = entries.drop_last();
        let e = entries.last();
        let base = base_after(before);
        let first = before.len() == 0;
        let sep = separator(base, first, e);
        let seg = segment(base, e);
        assert(lines_ascend(before)) by {
            assert forall|i: int, j: int| 0 <= i <= j < before.len() implies (
            #[trigger] before[i]).generated_line <= (#[trigger] before[j]).generated_line by {
                assert(before[i] == entries[i] && before[j] == entries[j]);
            }
        }
        lemma_run_encoded(before);
        lemma_base_after_fits(before);
        assert(base.line <= e.generated_line) by {
            if before.len() > 0 {
                assert(before.last() == entries[entries.len() - 2]);
            }
        }
        let read_before = decode_run(start, encode_mappings(before));
        let closed = DecodeState::between(before);
        // The separator closes the segment before it and sets the line.
        let opened = DecodeState {
            base: DeltaBase {
                line: e.generated_line as int,
                column: column_base(base, e),
                ..base
            },
            ..closed
        };
        assert(decode_run(read_before, sep) == opened) by {
            if e.generated_line > base.line {
                lemma_run_semicolons(read_before, (e.generated_line - base.line) as nat);
            } else if first {
                assert(encode_mappings(before) =~= Seq::<char>::empty());
                assert(read_before == start);
                assert(opened =~= start);
            } else {
                lemma_run_one(read_before, ',');
                assert(opened =~= closed);
            }
        }
        lemma_run_segment(opened, base, e);
        let read_all = DecodeState { fields: deltas(base, e), ..opened };
        lemma_close_deltas(read_all, before, e);
        assert(before.push(e) =~= entries);
        lemma_run_concat(start, encode_mappings(before), sep);
        lemma_run_concat(start, encode_mappings(before) + sep, seg);
        assert(decode_run(start, encode_mappings(entries)) == read_all);
    }
}

/// Decoding the mapping text of entries whose generated lines never go down
/// gives back exactly those entries, in their order.
pub proof fn lemma_decode_encode(entries: Seq<MappingEntry>)
    requires
        lines_ascend(entries),
    ensures
        decode_mappings(encode_mappings(entries)) == Some(entries),
{
    lemma_run_encoded(entries);
}

/// Two sequences of entries whose generated lines never go down have the
/// same mapping text only if they are the same.
pub proof fn lemma_encode_injective(a: Seq<MappingEntry>, b: Seq<MappingEntry>)
    requires
        lines_ascend(a),
        lines_ascend(b),
        encode_mappings(a) == encode_mappings(b),
    ensures
        a == b,
{
    lemma_decode_encode(a);
    lemma_decode_encode(b);
}

/// Once malformed, a state stays so whatever is read.
pub proof fn lemma_fail_sticks(st: DecodeState, text: Seq<char>)
    requires
        !st.ok,
    ensures
        !decode_run(st, text).ok,
        !close_segment(decode_run(st, text)).ok,
    decreases text.len(),
{
    if text.len() > 0 {
        lemma_fail_sticks(st, text.drop_last());
    }
}

/// Computes the six-bit value of a base64 character.
pub fn base64_value_of(c: char) -> (value: Option<u8>)
    ensures
        match value {
            Some(d) => d < 64 && base64_value(c) == Some(d as int),
            None => base64_value(c) is None,
        },
{
    let u = c as u32;
    if 65 <= u && u <= 90 {
        Some((u - 65) as u8)
    } else if 97 <= u && u <= 122 {
        Some((u - 97 + 26) as u8)
    } else if 48 <= u && u <= 57 {
        Some((u - 48 + 52) as u8)
    } else if c == '+' {
        Some(62)
    } else if c == '/' {
        Some(63)
    } else {
        None
    }
}

/// A decoder at work, in machine integers.
struct Reader {
    entries: Vec<MappingEntry>,
    line: usize,
    column: usize,
    file: usize,
    original_line: usize,
    original_column: usize,
    name: usize,
    fields: Vec<i128>,
    acc: u128,
    scale: u128,
}

/// The value `base + delta`, where an entry's field can hold it.
fn moved(base: usize, delta: i128) -> (value: Option<usize>)
    requires
        -32 * vlq_limit() <= delta <= 32 * vlq_limit(),
    ensures
        match value {
            Some(v) => v == base + delta,
            None => !fits(base + delta),
        },
{
    let sum = base as i128 + delta;
    if 0 <= sum && sum <= usize::MAX as i128 {
        Some(sum as usize)
    } else {
        None
    }
}

impl Reader {
    spec fn view(&self) -> DecodeState {
        DecodeState {
            ok: true,
            entries: self.entries@,
            base: DeltaBase {
                line: self.line as int,
                column: self.column as int,
                file: self.file as int,
                original_line: self.original_line as int,
                original_column: self.original_column as int,
                name: self.name as int,
            },
            fields: Seq::new(self.fields@.len(), |i: int| self.fields@[i] as int),
            acc: self.acc as nat,
            scale: self.scale as nat,
        }
    }

    spec fn wf(&self) -> bool {
        &&& self.acc < self.scale <= 32 * vlq_limit()
        &&& forall|i: int|
            0 <= i < self.fields@.len() ==> -32 * vlq_limit() <= #[trigger] self.fields@[i] <= 32
                * vlq_limit()
    }

    fn new() -> (r: Reader)
        ensures
            r.wf(),
            r@ == DecodeState::start(),
    {
        let r = Reader {
            entries: Vec::new(),
            line: 0,
            column: 0,
            file: 0,
            original_line: 0,
            original_column: 0,
            name: 0,
            fields: Vec::new(),
            acc: 0,
            scale: 1,
        };
        assert(r@ =~= DecodeState::start());
        r
    }

    /// Reads one digit; tells whether the state is still well-formed.
    fn read_digit(&mut self, d: u8) -> (ok: bool)
        requires
            old(self).wf(),
            d < 64,
        ensures
            ok == read_digit(old(self)@, d as int).ok,
            ok ==> final(self).wf() && final(self)@ == read_digit(old(self)@, d as int),
    {
        if self.scale >= 0x40_0000_0000_0000_0000 {
            return false;
        }
        let low = (d % 32) as u128;
        assert(low * self.scale <= 31 * self.scale && low * self.scale + self.acc < 32
            * self.scale) by (nonlinear_arith)
            requires
                low <= 31,
                self.acc < self.scale,
        ;
        let acc = self.acc + low * self.scale;
        if d >= 32 {
            self.acc = acc;
            self.scale = self.scale * 32;
        } else {
            let value: i128 = if acc % 2 == 1 {
                -((acc / 2) as i128)
            } else {
                (acc / 2) as i128
            };
            let ghost held = self@.fields;
            self.fields.push(value);
            self.acc = 0;
            self.scale = 1;
            assert(self@.fields =~= held.push(value as int));
        }
        assert(self@ =~= read_digit(old(self)@, d as int));
        true
    }

    /// Closes the open segment; tells whether the state is still well-formed.
    fn close(&mut self) -> (ok: bool)
        requires
            old(self).wf(),
        ensures
            ok == close_segment(old(self)@).ok,
            ok ==> final(self).wf() && final(self)@ == close_segment(old(self)@),
    {
        let n = self.fields.len();
        if self.scale != 1 {
            return false;
        }
        if n == 0 {
            return true;
        }
        let ghost fields = self@.fields;
        assert(fields[0] == self.fields@[0]);
        let column = match moved(self.column, self.fields[0]) {
            Some(v) => v,
            None => {
                return false;
            },
        };
        if n == 1 {
            self.column = column;
            self.fields = Vec::new();
            assert(self@ =~= close_segment(old(self)@));
            return true;
        }
        if n != 4 && n != 5 {
            return false;
        }
        assert(fields[1] == self.fields@[1] && fields[2] == self.fields@[2] && fields[3]
            == self.fields@[3]);
        let file = match moved(self.file, self.fields[1]) {
            Some(v) => v,
            None => {
                return false;
            },
        };
        let original_line = match moved(self.original_line, self.fields[2]) {
            Some(v) => v,
            None => {
                return false;
            },
        };
        let original_column = match moved(self.original_column, self.fields[3]) {
            Some(v) => v,
            None => {
                return false;
            },
        };
        let name_index = if n == 5 {
            assert(fields[4] == self.fields@[4]);
            match moved(self.name, self.fields[4]) {
                Some(v) => Some(v),
                None => {
                    return false;
                },
            }
        } else {
            None
        };
        let e = MappingEntry {
            generated_line: self.line,
            generated_column: column,
            original_file: file,
            original_line,
            original_column,
            name_index,
        };
        self.entries.push(e);
        self.column = column;
        self.file = file;
        self.original_line = original_line;
        self.original_column = original_column;
        match name_index {
            Some(v) => {
                self.name = v;
            },
            None => {},
        }
        self.fields = Vec::new();
        assert(self@ =~= close_segment(old(self)@));
        true
    }

    /// Reads one character; tells whether the state is still well-formed.
    fn step(&mut self, c: char) -> (ok: bool)
        requires
            old(self).wf(),
            old(self).line < usize::MAX,
        ensures
            ok == decode_step(old(self)@, c).ok,
            ok ==> final(self).wf() && final(self)@ == decode_step(old(self)@, c),
            ok ==> final(self).line <= old(self).line + 1,
    {
        if c == ';' {
            if !self.close() {
                return false;
            }
            self.line = self.line + 1;
            self.column = 0;
            assert(self@ =~= decode_step(old(self)@, c));
            true
        } else if c == ',' {
            self.close()
        } else {
            match base64_value_of(c) {
                Some(d) => self.read_digit(d),
                None => false,
            }
        }
    }
}

/// Reads the entries out of a mapping text; `None` where it is malformed.
pub fn parse_mappings(text: &str) -> (entries: Option<Vec<MappingEntry>>)
    ensures
        match entries {
            Some(v) => decode_mappings(text@) == Some(v@),
            None => decode_mappings(text@) is None,
        },
{
    broadcast use vstd::string::group_string_axioms;

    let byte_len = text.as_bytes().len();
    proof {
        lemma_utf16_len_bounds(text@);
        lemma_utf16_len_le_utf8_len(text@);
    }
    let mut reader = Reader::new();
    let mut it = text.chars();
    let ghost mut seen: Seq<char> = Seq::empty();
    loop
        invariant
            it.decrease() is Some,
            seen + it.remaining() == text@,
            text@.len() <= byte_len,
            reader.wf(),
            reader.line <= seen.len(),
            reader@ == decode_run(DecodeState::start(), seen),
        decreases it.decrease()->0,
    {
        let ghost rest = it.remaining();
        let ghost before = reader@;
        match it.next() {
            Some(c) => {
                proof {
                    assert(seen.push(c).drop_last() =~= seen);
                    assert(seen.push(c) + rest.drop_first() =~= seen + rest);
                    assert(seen.len() < text@.len());
                }
                let ok = reader.step(c);
                proof {
                    seen = seen.push(c);
                }
                if !ok {
                    proof {
                        let failed = decode_run(DecodeState::start(), seen);
                        assert(failed == decode_step(before, c));
                        lemma_run_concat(DecodeState::start(), seen, rest.drop_first());
                        lemma_fail_sticks(failed, rest.drop_first());
                    }
                    return None;
                }
            },
            None => {
                proof {
                    assert(seen =~= text@);
                }
                if !reader.close() {
                    return None;
                }
                return Some(reader.entries);
            },
        }
    }
}

} // verus!
