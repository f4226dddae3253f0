use markup_minify::err::ErrorType;
use markup_minify::proc::checkpoint::Checkpoint;
use markup_minify::proc::range::ProcessorRange;
use markup_minify::proc::Processor;

fn ordered(proc: &Processor) -> bool {
    proc.written_len() <= proc.read_len() && proc.read_len() <= proc.code().len()
}

#[test]
fn new_starts_both_cursors_at_zero() {
    let proc = Processor::new(b"abc".to_vec());
    assert_eq!(proc.read_len(), 0);
    assert_eq!(proc.written_len(), 0);
    assert_eq!(proc.code(), b"abc");
    assert!(!proc.at_end());
    assert!(ordered(&proc));
}

#[test]
fn empty_buffer_is_at_end() {
    let mut proc = Processor::new(Vec::new());
    assert!(proc.at_end());
    assert_eq!(proc.peek(0), None);
    assert_eq!(proc.skip(), Err(ErrorType::UnexpectedEnd));
    assert_eq!(proc.accept(), Err(ErrorType::UnexpectedEnd));
    assert_eq!(proc.read_len(), 0);
    assert_eq!(proc.written_len(), 0);
}

#[test]
fn peek_looks_ahead_without_consuming() {
    let proc = Processor::new(b"abc".to_vec());
    assert_eq!(proc.peek(0), Some(b'a'));
    assert_eq!(proc.peek(2), Some(b'c'));
    assert_eq!(proc.peek(3), None);
    assert_eq!(proc.peek(usize::MAX), None);
    assert_eq!(proc.read_len(), 0);
}

#[test]
fn peek_many_gives_a_slice_or_nothing() {
    let mut proc = Processor::new(b"abcdef".to_vec());
    proc.skip_expect();
    assert_eq!(proc.peek_many(0, 3), Some(&b"bcd"[..]));
    assert_eq!(proc.peek_many(2, 3), Some(&b"def"[..]));
    assert_eq!(proc.peek_many(3, 3), None);
    assert_eq!(proc.peek_many(5, 0), Some(&b""[..]));
    assert_eq!(proc.peek_many(6, 0), None);
    assert_eq!(proc.peek_many(usize::MAX, 2), None);
    assert_eq!(proc.peek_many(1, usize::MAX), None);
    assert_eq!(proc.read_len(), 1);
}

#[test]
fn in_bounds_and_read_offset_follow_the_read_cursor() {
    let mut proc = Processor::new(b"abcd".to_vec());
    proc.skip_amount_expect(2);
    assert!(proc._in_bounds(0));
    assert!(proc._in_bounds(1));
    assert!(!proc._in_bounds(2));
    assert_eq!(proc._read_offset(1), b'd');
    assert_eq!(proc._maybe_read_offset(1), Some(b'd'));
    assert_eq!(proc._maybe_read_offset(2), None);
    assert_eq!(proc._maybe_read_slice_offset(0, 2), Some(&b"cd"[..]));
    assert_eq!(proc._maybe_read_slice_offset(0, 3), None);
    assert_eq!(proc.remaining(), b"cd");
}

#[test]
fn skip_returns_each_byte_then_fails() {
    let mut proc = Processor::new(b"ab".to_vec());
    assert_eq!(proc.skip(), Ok(b'a'));
    assert_eq!(proc.skip(), Ok(b'b'));
    assert!(proc.at_end());
    assert_eq!(proc.skip(), Err(ErrorType::UnexpectedEnd));
    assert_eq!(proc.read_len(), 2);
    assert_eq!(proc.written_len(), 0);
    assert_eq!(proc.code(), b"ab");
}

#[test]
fn write_appends_into_consumed_space() {
    let mut proc = Processor::new(b"abcd".to_vec());
    proc.skip_amount_expect(3);
    proc.write(b'x');
    proc.write(b'y');
    assert_eq!(proc.written_len(), 2);
    assert_eq!(proc.read_len(), 3);
    assert_eq!(proc.code(), b"xycd");
    assert!(ordered(&proc));
}

#[test]
fn write_slice_appends_all_bytes() {
    let mut proc = Processor::new(b"abcdef".to_vec());
    proc.skip_amount_expect(4);
    proc.write(b'1');
    proc.write_slice(b"23");
    proc.write_slice(b"");
    assert_eq!(proc.written_len(), 3);
    assert_eq!(proc.code(), b"123def");
    assert!(ordered(&proc));
}

#[test]
fn write_range_copies_a_source_span() {
    let mut proc = Processor::new(b"abcdef".to_vec());
    proc.skip_amount_expect(5);
    let dest = proc.write_range(ProcessorRange { start: 3, end: 5 });
    assert_eq!(dest, ProcessorRange { start: 0, end: 2 });
    assert_eq!(proc.code(), b"decdef");
    assert_eq!(proc.written_len(), 2);
}

#[test]
fn write_range_copies_overlapping_spans_as_they_were() {
    let mut proc = Processor::new(b"abcdef".to_vec());
    proc.skip_amount_expect(6);
    proc.write(b'x');
    // Source [0, 3) overlaps the destination [1, 4).
    let dest = proc.write_range(ProcessorRange { start: 0, end: 3 });
    assert_eq!(dest, ProcessorRange { start: 1, end: 4 });
    assert_eq!(proc.code(), b"xxbcef");
    // Source [2, 5) lies ahead of the destination [4, 6) and overlaps it.
    let mut proc = Processor::new(b"abcdefgh".to_vec());
    proc.skip_amount_expect(8);
    proc.reserve_output(1);
    let dest = proc.write_range(ProcessorRange { start: 2, end: 6 });
    assert_eq!(dest, ProcessorRange { start: 1, end: 5 });
    assert_eq!(proc.code(), b"acdeffgh");
}

#[test]
fn write_utf8_writes_the_canonical_encoding() {
    let mut proc = Processor::new(vec![0u8; 12]);
    proc.skip_amount_expect(12);
    proc.write_utf8('A');
    assert_eq!(proc.written_len(), 1);
    proc.write_utf8('\u{e9}');
    assert_eq!(proc.written_len(), 3);
    proc.write_utf8('\u{20ac}');
    assert_eq!(proc.written_len(), 6);
    proc.write_utf8('\u{1f600}');
    assert_eq!(proc.written_len(), 10);
    assert_eq!(
        &proc.code()[..10],
        &[0x41, 0xc3, 0xa9, 0xe2, 0x82, 0xac, 0xf0, 0x9f, 0x98, 0x80]
    );
    assert_eq!(&proc.code()[10..], &[0, 0]);
}

#[test]
fn reserve_output_claims_slots_unwritten() {
    let mut proc = Processor::new(b"abcd".to_vec());
    proc.skip_amount_expect(3);
    proc.reserve_output(2);
    assert_eq!(proc.written_len(), 2);
    assert_eq!(proc.read_len(), 3);
    assert_eq!(proc.code(), b"abcd");
    proc.reserve_output(0);
    assert_eq!(proc.written_len(), 2);
}

#[test]
fn accept_moves_bytes_to_the_output() {
    let mut proc = Processor::new(b"abcd".to_vec());
    proc.skip_expect();
    assert_eq!(proc.accept(), Ok(b'b'));
    assert_eq!(proc.accept_expect(), b'c');
    assert_eq!(proc.written_len(), 2);
    assert_eq!(proc.read_len(), 3);
    assert_eq!(proc.code(), b"bccd");
    assert_eq!(proc.accept(), Ok(b'd'));
    assert_eq!(proc.accept(), Err(ErrorType::UnexpectedEnd));
    assert_eq!(proc.code(), b"bcdd");
    assert!(ordered(&proc));
}

#[test]
fn accept_amount_expect_shifts_a_run() {
    let mut proc = Processor::new(b"..hello!".to_vec());
    proc.skip_amount_expect(2);
    proc.accept_amount_expect(5);
    assert_eq!(proc.written_len(), 5);
    assert_eq!(proc.read_len(), 7);
    assert_eq!(proc.code(), b"hellolo!");
    proc.accept_amount_expect(0);
    assert_eq!(proc.written_len(), 5);
    assert_eq!(proc.read_len(), 7);
}

#[test]
fn shift_with_cursors_together_only_advances() {
    let mut proc = Processor::new(b"abcd".to_vec());
    proc._shift(3);
    assert_eq!(proc.written_len(), 3);
    assert_eq!(proc.read_len(), 3);
    assert_eq!(proc.code(), b"abcd");
}

#[test]
fn shift_copies_overlapping_bytes_forward() {
    let mut proc = Processor::new(b"xabcdef".to_vec());
    proc.skip_expect();
    proc._shift(6);
    assert_eq!(proc.code(), b"abcdeff");
    assert_eq!(proc.written_len(), 6);
    assert_eq!(proc.read_len(), 7);
}

#[test]
fn replace_grows_the_output_into_slack() {
    let mut proc = Processor::new(b"abcdef....".to_vec());
    proc.accept_amount_expect(6);
    proc.skip_amount_expect(4);
    let added = proc._replace(2, 4, b"WXYZ");
    assert_eq!(added, 2);
    assert_eq!(proc.written_len(), 8);
    assert_eq!(proc.read_len(), 10);
    assert_eq!(proc.code(), b"abWXYZef..");
    assert!(ordered(&proc));
}

#[test]
fn replace_of_equal_length_overwrites_in_place() {
    let mut proc = Processor::new(b"abcdef".to_vec());
    proc.accept_amount_expect(6);
    let added = proc._replace(1, 3, b"XY");
    assert_eq!(added, 0);
    assert_eq!(proc.written_len(), 6);
    assert_eq!(proc.code(), b"aXYdef");
}

#[test]
fn insert_makes_room_at_a_place() {
    let mut proc = Processor::new(b"abcd....".to_vec());
    proc.accept_amount_expect(4);
    proc.skip_amount_expect(4);
    let added = proc._insert(1, b"123");
    assert_eq!(added, 3);
    assert_eq!(proc.written_len(), 7);
    assert_eq!(proc.code(), b"a123bcd.");
    let added = proc._insert(7, b"!");
    assert_eq!(added, 1);
    assert_eq!(proc.code(), b"a123bcd!");
    assert_eq!(proc.written_len(), proc.read_len());
}

#[test]
fn index_reads_a_span() {
    let mut proc = Processor::new(b"abcdef".to_vec());
    proc.accept_amount_expect(4);
    assert_eq!(proc.index(ProcessorRange { start: 1, end: 3 }), b"bc");
    assert_eq!(proc.index(ProcessorRange { start: 4, end: 6 }), b"ef");
    assert_eq!(proc.index(ProcessorRange { start: 2, end: 2 }), b"");
}

#[test]
fn index_mut_changes_written_bytes_only() {
    let mut proc = Processor::new(b"abcdef".to_vec());
    proc.accept_amount_expect(4);
    {
        let bytes = proc.index_mut(ProcessorRange { start: 1, end: 3 });
        assert_eq!(bytes, b"bc");
        bytes[0] = b'X';
        bytes[1] = b'Y';
    }
    assert_eq!(proc.code(), b"aXYdef");
    assert_eq!(proc.written_len(), 4);
    assert_eq!(proc.read_len(), 4);
}

#[test]
fn into_code_hands_the_buffer_back() {
    let mut proc = Processor::new(b"  ab".to_vec());
    proc.skip_amount_expect(2);
    proc.accept_amount_expect(2);
    let written = proc.written_len();
    let code = proc.into_code();
    assert_eq!(&code[..written], b"ab");
    assert_eq!(code.len(), 4);
}

#[test]
fn checkpoint_restores_both_cursors() {
    let mut proc = Processor::new(b"abcdefgh".to_vec());
    proc.skip_amount_expect(2);
    proc.accept_expect();
    let checkpoint = Checkpoint::new(&proc);
    proc.accept_amount_expect(3);
    proc.skip_expect();
    assert_eq!(checkpoint.written_count(&proc), 3);
    assert_eq!(
        checkpoint.written_range(&proc),
        ProcessorRange { start: 1, end: 4 }
    );
    checkpoint.restore(&mut proc);
    assert_eq!(proc.read_len(), 3);
    assert_eq!(proc.written_len(), 1);
    // What was written since stays in the buffer.
    assert_eq!(proc.code(), b"cdefefgh");
    assert_eq!(checkpoint.written_count(&proc), 0);
    assert!(ordered(&proc));
}

#[test]
fn range_lengths() {
    let range = ProcessorRange { start: 3, end: 7 };
    assert_eq!(range.len(), 4);
    assert!(range.nonempty());
    assert!(!range.empty());
    let none = ProcessorRange { start: 5, end: 5 };
    assert_eq!(none.len(), 0);
    assert!(none.empty());
    assert!(!none.nonempty());
}

#[test]
fn error_message_names_the_end_of_input() {
    assert_eq!(ErrorType::UnexpectedEnd.message(), "unexpected end of input");
}

#[test]
fn write_cursor_never_passes_read_cursor_in_a_trace() {
    let mut proc = Processor::new(b"<a href = 'x'  >text</a>".to_vec());
    assert!(ordered(&proc));
    proc.accept_amount_expect(7);
    assert!(ordered(&proc));
    proc.skip_expect();
    assert!(ordered(&proc));
    proc.accept_expect();
    assert!(ordered(&proc));
    proc.skip_expect();
    assert!(ordered(&proc));
    let checkpoint = Checkpoint::new(&proc);
    proc.skip_amount_expect(3);
    assert!(ordered(&proc));
    checkpoint.restore(&mut proc);
    assert!(ordered(&proc));
    proc.skip_expect();
    proc.accept_expect();
    proc.skip_amount_expect(3);
    assert!(ordered(&proc));
    proc.write(b'>');
    assert!(ordered(&proc));
    proc.skip_expect();
    proc._insert(2, b" ");
    assert!(ordered(&proc));
    proc.accept_amount_expect(8);
    assert!(ordered(&proc));
    assert!(proc.at_end());
    let written = proc.written_len();
    assert_eq!(&proc.code()[..written], b"<a  href=x>text</a>");
}

#[test]
fn write_scalar_writes_the_encoding_of_a_scalar_value() {
    let mut proc = Processor::new(vec![0u8; 10]);
    proc.skip_amount_expect(10);
    proc.write_scalar(0x24);
    proc.write_scalar(0xa2);
    proc.write_scalar(0xd7ff);
    proc.write_scalar(0x10348);
    assert_eq!(proc.written_len(), 10);
    assert_eq!(
        proc.code(),
        &[0x24, 0xc2, 0xa2, 0xed, 0x9f, 0xbf, 0xf0, 0x90, 0x8d, 0x88]
    );
}
