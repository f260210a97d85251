//! The generated text and the cursor behind its end: what writing a chunk
//! does to them, character by character.

use vstd::prelude::*;
use crate::text::spaces;
use crate::utf16::{lemma_utf16_len_concat, lemma_utf16_len_push, utf16_len_of, utf16_units};

verus! {

/// The generated text and the cursor behind its end.
#[verifier::ext_equal]
pub struct Output {
    /// The text written.
    pub text: Seq<char>,
    /// A line was broken and its indentation is still owed.
    pub pending_indent: bool,
    /// The generated line of the cursor, from zero.
    pub line: nat,
    /// The generated column of the cursor, in UTF-16 code units from zero.
    pub column: nat,
}

/// Pays the indentation that is owed, if any: `indent` spaces.
pub open spec fn flush_indent(out: Output, indent: nat) -> Output {
    if out.pending_indent {
        Output {
            text: out.text + spaces(indent),
            pending_indent: false,
            line: out.line,
            column: out.column + indent,
        }
    } else {
        out
    }
}

/// Writes one character. A line break starts a new line at column zero and
/// owes its indentation; any other character first pays what is owed, and
/// moves the column on by its UTF-16 length.
pub open spec fn emit_char(out: Output, indent: nat, c: char) -> Output {
    if c == '\n' {
        Output { text: out.text.push(c), pending_indent: true, line: out.line + 1, column: 0 }
    } else {
        let paid = flush_indent(out, indent);
        Output {
            text: paid.text.push(c),
            pending_indent: false,
            line: paid.line,
            column: paid.column + utf16_units(c),
        }
    }
}

/// Writes the characters of `chunk` in order.
pub open spec fn emit(out: Output, indent: nat, chunk: Seq<char>) -> Output
    decreases chunk.len(),
{
    if chunk.len() == 0 {
        out
    } else {
        emit_char(emit(out, indent, chunk.drop_last()), indent, chunk.last())
    }
}

/// The number of line breaks in `text`.
pub open spec fn line_breaks(text: Seq<char>) -> nat
    decreases text.len(),
{
    if text.len() == 0 {
        0
    } else if text.last() == '\n' {
        line_breaks(text.drop_last()) + 1
    } else {
        line_breaks(text.drop_last())
    }
}

/// What stands in `text` behind its last line break.
pub open spec fn last_line(text: Seq<char>) -> Seq<char>
    decreases text.len(),
{
    if text.len() == 0 || text.last() == '\n' {
        Seq::empty()
    } else {
        last_line(text.drop_last()).push(text.last())
    }
}

/// The cursor of `out` stands behind the end of its text: its line is the
/// number of line breaks written, its column the UTF-16 length of what
/// follows the last of them. Indentation is owed only directly behind a line
/// break.
pub open spec fn at_end(out: Output) -> bool {
    &&& out.line == line_breaks(out.text)
    &&& out.column == utf16_len_of(last_line(out.text))
    &&& out.pending_indent ==> out.text.len() > 0 && out.text.last() == '\n'
}

/// The cursor of `to` is not before the cursor of `from`.
pub open spec fn not_before(from: Output, to: Output) -> bool {
    from.line < to.line || (from.line == to.line && from.column <= to.column)
}

/// Writing a concatenation is writing its parts in turn.
pub proof fn lemma_emit_concat(out: Output, indent: nat, a: Seq<char>, b: Seq<char>)
    ensures
        emit(out, indent, a + b) == emit(emit(out, indent, a), indent, b),
    decreases b.len(),
{
    if b.len() == 0 {
        assert(a + b =~= a);
    } else {
        assert((a + b).drop_last() =~= a + b.drop_last());
        lemma_emit_concat(out, indent, a, b.drop_last());
    }
}

/// Writing one more character is one step.
pub proof fn lemma_emit_push(out: Output, indent: nat, chunk: Seq<char>, c: char)
    ensures
        emit(out, indent, chunk.push(c)) == emit_char(emit(out, indent, chunk), indent, c),
{
    assert(chunk.push(c).drop_last() =~= chunk);
}

/// A piece of text without a line break goes out as it is, behind the
/// indentation that was owed, and moves the column on by its UTF-16 length.
pub proof fn lemma_emit_piece(out: Output, indent: nat, piece: Seq<char>)
    requires
        piece.len() > 0,
        !piece.contains('\n'),
    ensures
        emit(out, indent, piece) == (Output {
            text: flush_indent(out, indent).text + piece,
            pending_indent: false,
            line: out.line,
            column: flush_indent(out, indent).column + utf16_len_of(piece),
        }),
    decreases piece.len(),
{
    let paid = flush_indent(out, indent);
    let head = piece.drop_last();
    let c = piece.last();
    assert(piece.contains(c));
    if head.len() == 0 {
        assert(emit(out, indent, head) == out);
        assert(paid.text.push(c) =~= paid.text + piece);
        assert(utf16_len_of(head) == 0);
    } else {
        assert forall|i: int| 0 <= i < head.len() implies head[i] != '\n' by {
            assert(piece.contains(piece[i]));
        }
        lemma_emit_piece(out, indent, head);
        assert((paid.text + head).push(c) =~= paid.text + piece);
    }
}

/// Writing no text changes nothing: indentation that is owed stays owed.
pub proof fn lemma_emit_nothing(out: Output, indent: nat)
    ensures
        emit(out, indent, Seq::empty()) == out,
{
}

/// The first character that follows a line break, unless it breaks the line
/// again, stands directly behind the indentation of its line.
pub proof fn lemma_emit_after_break(out: Output, indent: nat, c: char)
    requires
        out.pending_indent,
        c != '\n',
    ensures
        emit_char(out, indent, c).text == out.text + spaces(indent) + seq![c],
        emit_char(out, indent, c).column == out.column + indent + utf16_units(c),
        !emit_char(out, indent, c).pending_indent,
{
    assert((out.text + spaces(indent)).push(c) =~= out.text + spaces(indent) + seq![c]);
}

/// A character outside the Basic Multilingual Plane moves the column on by
/// exactly two.
pub proof fn lemma_emit_supplementary(out: Output, indent: nat, c: char)
    requires
        c as u32 >= 0x10000,
    ensures
        emit_char(out, indent, c).column == flush_indent(out, indent).column + 2,
        emit_char(out, indent, c).line == out.line,
{
}

/// Spaces take one UTF-16 code unit each.
pub proof fn lemma_utf16_len_spaces(n: nat)
    ensures
        utf16_len_of(spaces(n)) == n,
    decreases n,
{
    if n > 0 {
        assert(spaces(n).drop_last() =~= spaces((n - 1) as nat));
        lemma_utf16_len_spaces((n - 1) as nat);
    }
}

/// A piece without a line break, put behind a text, adds no line and
/// lengthens the last one.
pub proof fn lemma_append_piece(text: Seq<char>, piece: Seq<char>)
    requires
        !piece.contains('\n'),
    ensures
        line_breaks(text + piece) == line_breaks(text),
        last_line(text + piece) == last_line(text) + piece,
    decreases piece.len(),
{
    if piece.len() == 0 {
        assert(text + piece =~= text);
        assert(last_line(text) + piece =~= last_line(text));
    } else {
        let head = piece.drop_last();
        assert(piece.contains(piece.last()));
        assert forall|i: int| 0 <= i < head.len() implies head[i] != '\n' by {
            assert(piece.contains(piece[i]));
        }
        lemma_append_piece(text, head);
        assert((text + piece).drop_last() =~= text + head);
        assert((last_line(text) + head).push(piece.last()) =~= last_line(text) + piece);
    }
}

/// Paying the indentation keeps the cursor behind the end of the text.
pub proof fn lemma_flush_at_end(out: Output, indent: nat)
    requires
        at_end(out),
    ensures
        at_end(flush_indent(out, indent)),
        not_before(out, flush_indent(out, indent)),
{
    if out.pending_indent {
        lemma_append_piece(out.text, spaces(indent));
        lemma_utf16_len_concat(last_line(out.text), spaces(indent));
        lemma_utf16_len_spaces(indent);
    }
}

/// Writing a character keeps the cursor behind the end of the text, and
/// never moves it back.
pub proof fn lemma_emit_char_at_end(out: Output, indent: nat, c: char)
    requires
        at_end(out),
    ensures
        at_end(emit_char(out, indent, c)),
        not_before(out, emit_char(out, indent, c)),
{
    if c == '\n' {
        assert(out.text.push(c).drop_last() =~= out.text);
    } else {
        lemma_flush_at_end(out, indent);
        let paid = flush_indent(out, indent);
        assert(paid.text.push(c).drop_last() =~= paid.text);
        lemma_utf16_len_push(last_line(paid.text), c);
    }
}

/// Writing a chunk keeps the cursor behind the end of the text, and never
/// moves it back.
pub proof fn lemma_emit_at_end(out: Output, indent: nat, chunk: Seq<char>)
    requires
        at_end(out),
    ensures
        at_end(emit(out, indent, chunk)),
        not_before(out, emit(out, indent, chunk)),
    decreases chunk.len(),
{
    if chunk.len() > 0 {
        lemma_emit_at_end(out, indent, chunk.drop_last());
        lemma_emit_char_at_end(emit(out, indent, chunk.drop_last()), indent, chunk.last());
    }
}

/// The line and the column of a cursor behind the end of a text are together
/// no more than the UTF-16 length of the text.
pub proof fn lemma_cursor_bound(text: Seq<char>)
    ensures
        line_breaks(text) + utf16_len_of(last_line(text)) <= utf16_len_of(text),
    decreases text.len(),
{
    if text.len() > 0 {
        lemma_cursor_bound(text.drop_last());
        if text.last() != '\n' {
            lemma_utf16_len_push(last_line(text.drop_last()), text.last());
        }
    }
}

} // verus!
