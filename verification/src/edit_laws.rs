use vstd::prelude::*;
use vstd::utf8::*;

use crate::parse_code::{changed_code, edited_code, line_start, position_offset, TextChange};
use crate::position::{Position, Range};

verus! {

broadcast use {
    vstd::utf8::encode_utf8_valid_utf8,
    vstd::utf8::encode_utf8_decode_utf8,
    vstd::utf8::decode_utf8_encode_utf8,
};

/// The number of line ends among the first `k` bytes.
pub open spec fn line_ends(bytes: Seq<u8>, k: int) -> int
    decreases k,
{
    if k <= 0 {
        0
    } else {
        line_ends(bytes, k - 1) + if bytes[k - 1] == 10 {
            1int
        } else {
            0
        }
    }
}

/// Whether a line starts at an offset: at the start of the text, or just behind a line end, with
/// as many line ends in front of it as there are lines.
pub open spec fn line_at(bytes: Seq<u8>, line: int, start: int) -> bool {
    &&& 0 <= start <= bytes.len()
    &&& start == 0 || bytes[start - 1] == 10
    &&& line_ends(bytes, start) == line
}

/// Whether a position stands for an offset of a text: it is as far behind the start of its line as
/// the position says.
pub open spec fn stands_at(code: Seq<char>, position: Position, offset: int) -> bool {
    let bytes = encode_utf8(code);
    line_at(bytes, position.line as int, offset - position.character)
}

/// Line ends do not get fewer.
proof fn lemma_line_ends(bytes: Seq<u8>, a: int, b: int)
    requires
        0 <= a <= b,
    ensures
        0 <= line_ends(bytes, a) <= line_ends(bytes, b),
    decreases b,
{
    if b > 0 {
        if a < b {
            lemma_line_ends(bytes, a, b - 1);
        } else {
            lemma_line_ends(bytes, a - 1, b - 1);
        }
    }
}

/// The search for a line finds where it starts.
proof fn lemma_line_start(bytes: Seq<u8>, line: int, from: int, start: int)
    requires
        0 <= from <= start,
        line_at(bytes, line, start),
        from == 0 || bytes[from - 1] == 10 || line_ends(bytes, from) < line,
    ensures
        line_start(bytes, line - line_ends(bytes, from), from) == Some(start),
    decreases start - from,
{
    lemma_line_ends(bytes, from, start);
    if line_ends(bytes, from) < line {
        assert(from < start);
        lemma_line_start(bytes, line, from + 1, start);
    } else if from < start {
        lemma_line_ends(bytes, from, start - 1);
        assert(line_ends(bytes, start) == line_ends(bytes, start - 1) + 1);
    }
}

/// A line that is found starts where it is found.
proof fn lemma_line_found(bytes: Seq<u8>, line: int, from: int)
    requires
        0 <= from <= bytes.len(),
        line >= 0,
        line == 0 ==> from == 0 || bytes[from - 1] == 10,
    ensures
        line_start(bytes, line, from) matches Some(start) ==> line_at(
            bytes,
            line + line_ends(bytes, from),
            start,
        ),
    decreases bytes.len() - from,
{
    if line > 0 && from < bytes.len() {
        if bytes[from] == 10 {
            lemma_line_found(bytes, line - 1, from + 1);
        } else {
            lemma_line_found(bytes, line, from + 1);
        }
    }
}

/// The offset of a position is the one that it stands for.
pub proof fn law_a_position_has_one_offset(code: Seq<char>, position: Position, offset: int)
    requires
        offset <= usize::MAX,
    ensures
        stands_at(code, position, offset) ==> position_offset(code, position) == Some(offset),
        position_offset(code, position) == Some(offset) && offset < usize::MAX ==> stands_at(
            code,
            position,
            offset,
        ),
{
    let bytes = encode_utf8(code);
    assert(line_ends(bytes, 0) == 0);
    if stands_at(code, position, offset) {
        lemma_line_start(bytes, position.line as int, 0, offset - position.character);
    }
    lemma_line_found(bytes, position.line as int, 0);
}

/// The bytes of two texts one after the other are those of the one, then those of the other.
proof fn lemma_encode_concat(a: Seq<char>, b: Seq<char>)
    ensures
        encode_utf8(a + b) == encode_utf8(a) + encode_utf8(b),
{
    let (x, y) = (encode_utf8(a), encode_utf8(b));
    let bytes = x + y;
    valid_utf8_concat(x, y);
    assert(bytes.subrange(0, x.len() as int) =~= x);
    assert(bytes.subrange(x.len() as int, bytes.len() as int) =~= y);
    lemma_boundary_of_concat(a, y);
    decode_utf8_split(bytes, x.len() as int);
    assert(decode_utf8(bytes) == a + b);
    assert(encode_utf8(decode_utf8(bytes)) == bytes);
}

/// The end of a text is a boundary of characters when others follow.
proof fn lemma_boundary_of_concat(a: Seq<char>, y: Seq<u8>)
    requires
        valid_utf8(y),
    ensures
        is_char_boundary(encode_utf8(a) + y, encode_utf8(a).len() as int),
{
    let x = encode_utf8(a);
    let bytes = x + y;
    valid_utf8_concat(x, y);
    is_char_boundary_start_end_of_seq(bytes);
    is_char_boundary_start_end_of_seq(y);
    if y.len() > 0 {
        is_char_boundary_iff_not_is_continuation_byte(y, 0);
        is_char_boundary_iff_not_is_continuation_byte(bytes, x.len() as int);
        assert(bytes[x.len() as int] == y[0]);
    }
}

/// A change replaces its range, on however many lines: in front of it and behind it the text stays
/// as it is, and in between stands the new text. A range does not count that ends before it
/// starts, or that starts or ends within a character or behind the end of the text.
pub proof fn law_a_change_replaces_its_range(
    code: Seq<char>,
    range: Range,
    text: Seq<char>,
    from: int,
    to: int,
)
    requires
        stands_at(code, range.start, from),
        stands_at(code, range.end, to),
        from <= usize::MAX,
        to <= usize::MAX,
    ensures
        ({
            let bytes = encode_utf8(code);
            let after = encode_utf8(changed_code(code, Some(range), text));
            if from <= to <= bytes.len() && is_char_boundary(bytes, from) && is_char_boundary(
                bytes,
                to,
            ) {
                after == bytes.take(from) + encode_utf8(text) + bytes.skip(to)
            } else {
                after == bytes
            }
        }),
{
    let bytes = encode_utf8(code);
    law_a_position_has_one_offset(code, range.start, from);
    law_a_position_has_one_offset(code, range.end, to);
    is_char_boundary_start_end_of_seq(bytes);
    if from <= to <= bytes.len() && is_char_boundary(bytes, from) && is_char_boundary(bytes, to) {
        let head = bytes.subrange(0, from);
        let tail = bytes.subrange(to, bytes.len() as int);
        valid_utf8_split(bytes, from);
        valid_utf8_split(bytes, to);
        let (before, after) = (decode_utf8(head), decode_utf8(tail));
        assert(changed_code(code, Some(range), text) == before + text + after);
        lemma_encode_concat(before + text, after);
        lemma_encode_concat(before, text);
        assert(head =~= bytes.take(from));
        assert(tail =~= bytes.skip(to));
    }
}

/// A change without a range replaces the whole text, and one whose range starts or ends on a line
/// that the text does not have changes nothing.
pub proof fn law_other_changes(code: Seq<char>, range: Range, text: Seq<char>)
    requires
        encode_utf8(code).len() + u32::MAX < usize::MAX,
    ensures
        changed_code(code, None, text) == text,
        (forall|from: int| !stands_at(code, range.start, from)) || (forall|to: int|
            !stands_at(code, range.end, to)) ==> changed_code(code, Some(range), text) == code,
{
    let bytes = encode_utf8(code);
    lemma_line_found(bytes, range.start.line as int, 0);
    lemma_line_found(bytes, range.end.line as int, 0);
    assert(line_ends(bytes, 0) == 0);
    if let Some(from) = position_offset(code, range.start) {
        assert(stands_at(code, range.start, from));
    }
    if let Some(to) = position_offset(code, range.end) {
        assert(stands_at(code, range.end, to));
    }
}

/// The changes of a list come one after the other, each to the text that those before it made.
pub proof fn law_changes_come_in_turn(code: Seq<char>, changes: Seq<TextChange>, k: int)
    requires
        0 <= k < changes.len(),
    ensures
        edited_code(code, changes, 0) == code,
        edited_code(code, changes, k + 1) == changed_code(
            edited_code(code, changes, k),
            changes[k].range,
            changes[k].text@,
        ),
{
}

} // verus!
