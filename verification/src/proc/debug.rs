//! A view of an engine for a human reader: the buffer in numbered lines,
//! with the cursors marked.

use vstd::prelude::*;
use crate::codepoint::{is_whitespace, spec_is_whitespace};
use crate::proc::{Processor, ProcessorView};

verus! {

/// How a byte shows in a rendering: a printable byte as itself, whitespace
/// as a middle dot, anything else as the replacement character.
pub open spec fn spec_glyph(c: u8) -> char {
    if spec_is_whitespace(c) {
        '\u{b7}'
    } else if 0x21 <= c <= 0x7e {
        c as char
    } else {
        '\u{fffd}'
    }
}

#[verifier::when_used_as_spec(spec_glyph)]
pub fn glyph(c: u8) -> (shown: char)
    ensures
        shown == spec_glyph(c),
{
    if is_whitespace(c) {
        '\u{b7}'
    } else if 0x21 <= c && c <= 0x7e {
        c as char
    } else {
        '\u{fffd}'
    }
}

/// The mark under the byte at `at`: `B` where both cursors stand there, `R`
/// for the read cursor, `W` for the write cursor.
pub open spec fn cursor_mark(view: ProcessorView, at: int) -> Option<char> {
    if at == view.read_next && at == view.write_next {
        Some('B')
    } else if at == view.read_next {
        Some('R')
    } else if at == view.write_next {
        Some('W')
    } else {
        None
    }
}

/// How many columns line numbers up to `lines` are given: the least number
/// of digits `w` such that ten to the `w` is no less than `lines`.
pub open spec fn spec_label_width(lines: nat) -> nat
    decreases lines,
{
    if lines <= 1 {
        0
    } else {
        1 + spec_label_width((lines + 9) / 10)
    }
}

pub fn label_width(lines: u128) -> (width: usize)
    ensures
        width == spec_label_width(lines as nat),
    decreases lines,
{
    if lines <= 1 {
        0
    } else {
        let shorter = label_width(lines / 10 + if lines % 10 == 0 {
            0
        } else {
            1
        });
        assert(shorter < 40) by {
            lemma_label_width_bound(((lines + 9) / 10) as nat);
        }
        1 + shorter
    }
}

proof fn lemma_label_width_bound(lines: nat)
    ensures
        lines <= u128::MAX ==> spec_label_width(lines) <= 39,
{
    reveal_with_fuel(spec_label_width, 41);
}

/// The decimal digits of `n`.
pub open spec fn decimal_digits(n: nat) -> Seq<char>
    decreases n,
{
    if n < 10 {
        seq![(0x30 + n) as u8 as char]
    } else {
        decimal_digits(n / 10).push((0x30 + n % 10) as u8 as char)
    }
}

/// `count` times `c`.
pub open spec fn repeated(c: char, count: int) -> Seq<char> {
    Seq::new(
        if count > 0 {
            count as nat
        } else {
            0
        },
        |i: int| c,
    )
}

/// What stands before the bar of a line: the number of a line of text,
/// flush right in `width` columns, or as many chevrons for a line of marks.
pub open spec fn label(number: Option<nat>, width: nat) -> Seq<char> {
    match number {
        Some(n) => repeated(' ', width - decimal_digits(n).len()) + decimal_digits(n),
        None => repeated('>', width as int),
    }
}

/// The line of marks under a line of text, if there are any.
pub open spec fn marks_line(marks: Seq<char>, width: nat) -> Seq<char> {
    if marks.len() == 0 {
        Seq::empty()
    } else {
        label(None, width) + seq!['|'] + marks + seq!['\n']
    }
}

/// A rendering under way.
pub ghost struct Rendering {
    /// The lines that are done, and the line of text under way.
    pub out: Seq<char>,
    /// The marks under the line of text under way.
    pub marks: Seq<char>,
    /// How many bytes the line of text under way shows.
    pub column: int,
    /// The number of the line of text under way.
    pub line_no: nat,
}

/// The rendering of the first `n` bytes of the buffer.
pub open spec fn rendered(view: ProcessorView, width: nat, n: int) -> Rendering
    decreases n,
{
    if n <= 0 {
        Rendering { out: label(Some(1), width) + seq!['|'], marks: Seq::empty(), column: 0, line_no: 1 }
    } else {
        let before = rendered(view, width, n - 1);
        let c = view.code[n - 1];
        // A mark stands in the column of its byte, behind spaces.
        let marks = match cursor_mark(view, n - 1) {
            Some(mark) => (before.marks + repeated(' ', before.column - before.marks.len())).push(
                mark,
            ),
            None => before.marks,
        };
        if c == 0x0a {
            Rendering {
                out: before.out + seq!['\u{23ce}', '\n'] + marks_line(marks, width) + label(
                    Some(before.line_no + 1),
                    width,
                ) + seq!['|'],
                marks: Seq::empty(),
                column: 0,
                line_no: before.line_no + 1,
            }
        } else {
            Rendering {
                out: before.out.push(spec_glyph(c)),
                marks,
                column: before.column + 1,
                line_no: before.line_no,
            }
        }
    }
}

/// How many line feeds `code` holds.
pub open spec fn line_feeds(code: Seq<u8>) -> nat
    decreases code.len(),
{
    if code.len() == 0 {
        0
    } else {
        line_feeds(code.drop_last()) + if code.last() == 0x0a {
            1nat
        } else {
            0nat
        }
    }
}

/// The buffer as numbered lines of text, each byte shown by its glyph and
/// each line feed by a return sign, with a line of marks under each line on
/// which a cursor stands. A cursor behind the last byte is not shown.
pub open spec fn rendering(view: ProcessorView) -> Seq<char> {
    let width = spec_label_width(line_feeds(view.code) + 1);
    let last = rendered(view, width, view.code.len() as int);
    last.out + seq!['\n'] + marks_line(last.marks, width)
}

fn push_repeated(out: &mut Vec<char>, c: char, count: usize)
    ensures
        final(out)@ == old(out)@ + repeated(c, count as int),
{
    let mut i: usize = 0;
    assert(out@ =~= old(out)@ + repeated(c, 0));
    while i < count
        invariant
            i <= count,
            out@ == old(out)@ + repeated(c, i as int),
        decreases count - i,
    {
        out.push(c);
        i += 1;
        assert(out@ =~= old(out)@ + repeated(c, i as int));
    }
}

fn push_all(out: &mut Vec<char>, chars: &Vec<char>)
    ensures
        final(out)@ == old(out)@ + chars@,
{
    let n = chars.len();
    let mut i: usize = 0;
    assert(out@ =~= old(out)@ + chars@.take(0));
    while i < n
        invariant
            n == chars@.len(),
            i <= n,
            out@ == old(out)@ + chars@.take(i as int),
        decreases n - i,
    {
        out.push(chars[i]);
        i += 1;
        assert(out@ =~= old(out)@ + chars@.take(i as int));
    }
    assert(chars@.take(n as int) =~= chars@);
}

fn digits_of(n: u128) -> (digits: Vec<char>)
    ensures
        digits@ == decimal_digits(n as nat),
    decreases n,
{
    if n < 10 {
        let mut digits = Vec::new();
        digits.push((0x30 + (n as u8)) as char);
        assert(digits@ =~= decimal_digits(n as nat));
        digits
    } else {
        let mut digits = digits_of(n / 10);
        digits.push((0x30 + ((n % 10) as u8)) as char);
        digits
    }
}

fn push_label(out: &mut Vec<char>, number: Option<u128>, width: usize)
    ensures
        final(out)@ == old(out)@ + label(
            match number {
                Some(n) => Some(n as nat),
                None => None,
            },
            width as nat,
        ),
{
    match number {
        Some(n) => {
            let digits = digits_of(n);
            let pad = if digits.len() < width {
                width - digits.len()
            } else {
                0
            };
            assert(repeated(' ', pad as int) =~= repeated(' ', width - digits@.len()));
            push_repeated(out, ' ', pad);
            push_all(out, &digits);
            assert(out@ =~= old(out)@ + (repeated(' ', width - digits@.len()) + digits@));
        },
        None => push_repeated(out, '>', width),
    }
}

fn push_marks_line(out: &mut Vec<char>, marks: &Vec<char>, width: usize)
    ensures
        final(out)@ == old(out)@ + marks_line(marks@, width as nat),
{
    if marks.len() > 0 {
        push_label(out, None, width);
        out.push('|');
        push_all(out, marks);
        out.push('\n');
        assert(out@ =~= old(out)@ + marks_line(marks@, width as nat));
    } else {
        assert(out@ =~= old(out)@ + marks_line(marks@, width as nat));
    }
}

fn count_line_feeds(code: &[u8]) -> (count: u128)
    ensures
        count == line_feeds(code@),
        count <= usize::MAX,
{
    let n = code.len();
    let mut count: u128 = 0;
    let mut i: usize = 0;
    assert(code@.take(0) =~= Seq::<u8>::empty());
    while i < n
        invariant
            n == code@.len(),
            i <= n,
            count == line_feeds(code@.take(i as int)),
            count <= i,
        decreases n - i,
    {
        assert(code@.take(i + 1).drop_last() =~= code@.take(i as int));
        if code[i] == 0x0a {
            count += 1;
        }
        i += 1;
    }
    assert(code@.take(n as int) =~= code@);
    count
}

/// A view of the buffer for a reader, character by character: see
/// `rendering`.
pub fn render(proc: &Processor) -> (out: Vec<char>)
    ensures
        out@ == rendering(proc@),
{
    let code = proc.code();
    let read_next = proc.read_len();
    let write_next = proc.written_len();
    let n = code.len();
    let width = label_width(count_line_feeds(code) + 1);
    let mut out: Vec<char> = Vec::new();
    let mut marks: Vec<char> = Vec::new();
    let mut column: usize = 0;
    let mut line_no: u128 = 1;
    push_label(&mut out, Some(1), width);
    out.push('|');
    let mut i: usize = 0;
    assert(out@ =~= rendered(proc@, width as nat, 0).out);
    while i < n
        invariant
            n == code@.len(),
            code@ == proc@.code,
            read_next == proc@.read_next,
            write_next == proc@.write_next,
            i <= n,
            out@ == rendered(proc@, width as nat, i as int).out,
            marks@ == rendered(proc@, width as nat, i as int).marks,
            column == rendered(proc@, width as nat, i as int).column,
            line_no == rendered(proc@, width as nat, i as int).line_no,
            column <= i,
            line_no <= i + 1,
        decreases n - i,
    {
        let c = code[i];
        let ghost before = rendered(proc@, width as nat, i as int);
        if i == read_next || i == write_next {
            // The column of this byte is how many bytes the line shows
            // before it.
            let pad = if marks.len() < column {
                column - marks.len()
            } else {
                0
            };
            assert(repeated(' ', pad as int) =~= repeated(' ', before.column - before.marks.len()));
            push_repeated(&mut marks, ' ', pad);
            marks.push(
                if i == read_next && i == write_next {
                    'B'
                } else if i == read_next {
                    'R'
                } else {
                    'W'
                },
            );
        }
        if c == 0x0a {
            out.push('\u{23ce}');
            out.push('\n');
            push_marks_line(&mut out, &marks, width);
            line_no += 1;
            column = 0;
            marks = Vec::new();
            push_label(&mut out, Some(line_no), width);
            out.push('|');
            assert(out@ =~= rendered(proc@, width as nat, i + 1).out);
        } else {
            out.push(glyph(c));
            column += 1;
        }
        i += 1;
    }
    out.push('\n');
    push_marks_line(&mut out, &marks, width);
    out
}

} // verus!
