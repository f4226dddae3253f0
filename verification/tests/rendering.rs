use markup_minify::proc::debug::{glyph, label_width, render as render_chars};
use markup_minify::proc::Processor;

fn render(proc: &Processor) -> String {
    render_chars(proc).into_iter().collect()
}

#[test]
fn glyphs_show_printables_whitespace_and_the_rest() {
    assert_eq!(glyph(b'a'), 'a');
    assert_eq!(glyph(b'!'), '!');
    assert_eq!(glyph(b'~'), '~');
    assert_eq!(glyph(b' '), '\u{b7}');
    assert_eq!(glyph(b'\t'), '\u{b7}');
    assert_eq!(glyph(b'\r'), '\u{b7}');
    assert_eq!(glyph(0), '\u{fffd}');
    assert_eq!(glyph(0x7f), '\u{fffd}');
    assert_eq!(glyph(0xc3), '\u{fffd}');
}

#[test]
fn label_width_counts_the_digits_needed() {
    assert_eq!(label_width(0), 0);
    assert_eq!(label_width(1), 0);
    assert_eq!(label_width(2), 1);
    assert_eq!(label_width(9), 1);
    assert_eq!(label_width(10), 1);
    assert_eq!(label_width(11), 2);
    assert_eq!(label_width(100), 2);
    assert_eq!(label_width(101), 3);
    assert_eq!(label_width(1000), 3);
    assert_eq!(label_width(1001), 4);
}

#[test]
fn one_line_without_cursors_in_sight() {
    let mut proc = Processor::new(b"ab".to_vec());
    proc.accept_amount_expect(2);
    assert_eq!(render(&proc), "1|ab\n");
}

#[test]
fn empty_buffer_renders_one_empty_line() {
    let proc = Processor::new(Vec::new());
    assert_eq!(render(&proc), "1|\n");
}

#[test]
fn both_cursors_on_one_byte_show_as_one_mark() {
    let proc = Processor::new(b"abc".to_vec());
    assert_eq!(render(&proc), "1|abc\n|B\n");
    let mut proc = Processor::new(b"abc".to_vec());
    proc.accept_amount_expect(2);
    assert_eq!(render(&proc), "1|abc\n|  B\n");
}

#[test]
fn cursors_are_marked_under_their_bytes() {
    let mut proc = Processor::new(b"ab\ncd".to_vec());
    proc.accept_expect();
    proc.skip_amount_expect(2);
    assert_eq!(render(&proc), "1|ab\u{23ce}\n>| W\n2|cd\n>|R\n");
}

#[test]
fn cursors_on_one_line_share_a_line_of_marks() {
    let mut proc = Processor::new(b"a b\tc\n".to_vec());
    proc.accept_expect();
    proc.skip_amount_expect(3);
    assert_eq!(render(&proc), "1|a\u{b7}b\u{b7}c\u{23ce}\n>| W  R\n2|\n");
}

#[test]
fn cursor_on_a_line_feed_is_marked_on_its_line() {
    let mut proc = Processor::new(b"ab\n\nc".to_vec());
    proc.skip_amount_expect(2);
    assert_eq!(
        render(&proc),
        "1|ab\u{23ce}\n>|W R\n2|\u{23ce}\n3|c\n"
    );
    proc.skip_expect();
    assert_eq!(
        render(&proc),
        "1|ab\u{23ce}\n>|W\n2|\u{23ce}\n>|R\n3|c\n"
    );
}

#[test]
fn line_numbers_are_flush_right() {
    let mut code = Vec::new();
    for _ in 0..10 {
        code.extend_from_slice(b"x\n");
    }
    let mut proc = Processor::new(code);
    proc.accept_amount_expect(20);
    let shown = render(&proc);
    let lines: Vec<&str> = shown.split('\n').collect();
    assert_eq!(lines.len(), 12);
    assert_eq!(lines[0], " 1|x\u{23ce}");
    assert_eq!(lines[8], " 9|x\u{23ce}");
    assert_eq!(lines[9], "10|x\u{23ce}");
    assert_eq!(lines[10], "11|");
    assert_eq!(lines[11], "");
}

#[test]
fn bytes_that_do_not_print_show_as_replacement() {
    let mut proc = Processor::new(vec![0xc3, 0xa9, b'!', 0x00]);
    proc.skip_amount_expect(4);
    proc.write(b'x');
    assert_eq!(render(&proc), "1|x\u{fffd}!\u{fffd}\n| W\n");
}
