use markup_minify::err::ErrorType;
use markup_minify::proc::attr::quoted::{
    consume_attr_value, encoded, is_attr_quote, is_double_quote, is_single_quote,
    is_unquoted_delimiter, process_quoted_val, quoted_val_fits, try_process_quoted_val, AttrPass,
    CharType, DelimiterType, Gauge, Metrics,
};
use markup_minify::proc::attr::AttrType;
use markup_minify::proc::entity::{EntityDecoder, EntityRef, NumericEntities};
use markup_minify::proc::Processor;

/// An engine that has read `slack` bytes, written none, and has `src` ahead.
fn engine(slack: usize, src: &[u8]) -> Processor {
    let mut code = vec![b'#'; slack];
    code.extend_from_slice(src);
    let mut proc = Processor::new(code);
    if slack > 0 {
        proc.skip_amount_expect(slack);
    }
    proc
}

/// Minifies the value at the start of `src`, with `slack` consumed bytes
/// before it, and returns the result, the output and how much was read.
fn minify(slack: usize, src: &[u8], collapse: bool) -> (Result<AttrType, ErrorType>, Vec<u8>, usize) {
    let mut proc = engine(slack, src);
    assert!(quoted_val_fits(&mut proc, &NumericEntities {}, collapse));
    let result = process_quoted_val(&mut proc, &NumericEntities {}, collapse);
    assert!(proc.written_len() <= proc.read_len());
    assert!(proc.read_len() <= proc.code().len());
    let written = proc.code()[..proc.written_len()].to_vec();
    (result, written, proc.read_len() - slack)
}

fn metrics_of(chars: &[CharType]) -> Metrics {
    let mut metrics = Metrics::new();
    for c in chars {
        metrics.collect_char_type(*c);
    }
    metrics
}

#[test]
fn quote_predicates() {
    assert!(is_double_quote(b'"'));
    assert!(!is_double_quote(b'\''));
    assert!(is_single_quote(b'\''));
    assert!(!is_single_quote(b'"'));
    assert!(is_attr_quote(b'"'));
    assert!(is_attr_quote(b'\''));
    assert!(!is_attr_quote(b'`'));
    assert!(!is_attr_quote(b'a'));
}

#[test]
fn unquoted_delimiters_are_whitespace_and_right_chevron() {
    for c in [b' ', b'\t', b'\n', 0x0c, b'\r', b'>'] {
        assert!(is_unquoted_delimiter(c));
    }
    for c in [b'a', b'"', b'\'', b'<', b'/', 0x0b, 0] {
        assert!(!is_unquoted_delimiter(c));
    }
}

#[test]
fn escaped_forms() {
    assert_eq!(encoded(b'\''), b"&#39;");
    assert_eq!(encoded(b'"'), b"&#34;");
    assert_eq!(encoded(b'>'), b"&#62;");
    assert_eq!(encoded(0x09), b"&#9;");
    assert_eq!(encoded(0x0a), b"&#10;");
    assert_eq!(encoded(0x0c), b"&#12;");
    assert_eq!(encoded(0x0d), b"&#13;");
    assert_eq!(encoded(0x20), b"&#32;");
}

#[test]
fn from_char_classifies_bytes() {
    assert_eq!(CharType::from_char(b'"'), CharType::DoubleQuote);
    assert_eq!(CharType::from_char(b'\''), CharType::SingleQuote);
    assert_eq!(CharType::from_char(b'>'), CharType::RightChevron);
    assert_eq!(CharType::from_char(b' '), CharType::Whitespace(b' '));
    assert_eq!(CharType::from_char(b'\t'), CharType::Whitespace(b'\t'));
    assert_eq!(CharType::from_char(b'a'), CharType::Normal(b'a'));
    assert_eq!(CharType::from_char(b'&'), CharType::Normal(b'&'));
    assert_eq!(CharType::from_char(0xc3), CharType::Normal(0xc3));
}

#[test]
fn empty_metrics_cost_nothing_and_prefer_double_quotes() {
    let metrics = Metrics::new();
    assert_eq!(metrics.collected_count(), 0);
    assert_eq!(metrics.double_quoted_cost(), 0);
    assert_eq!(metrics.single_quoted_cost(), 0);
    assert_eq!(metrics.unquoted_cost(), 0);
    assert_eq!(metrics.get_optimal_delimiter_type(), DelimiterType::Double);
}

#[test]
fn costs_of_one_single_and_two_double_quotes() {
    // i t ' s " o k "
    let metrics = metrics_of(&[
        CharType::Normal(b'i'),
        CharType::Normal(b't'),
        CharType::SingleQuote,
        CharType::Normal(b's'),
        CharType::DoubleQuote,
        CharType::Normal(b'o'),
        CharType::Normal(b'k'),
        CharType::DoubleQuote,
    ]);
    assert_eq!(metrics.collected_count(), 8);
    assert_eq!(metrics.single_quoted_cost(), 7);
    assert_eq!(metrics.double_quoted_cost(), 11);
    assert_eq!(metrics.unquoted_cost(), 3);
    assert_eq!(metrics.get_optimal_delimiter_type(), DelimiterType::Unquoted);
}

#[test]
fn whitespace_costs_its_escaped_length_without_quotes() {
    let metrics = metrics_of(&[
        CharType::Normal(b'a'),
        CharType::Whitespace(b' '),
        CharType::Normal(b'b'),
    ]);
    assert_eq!(metrics.double_quoted_cost(), 1);
    assert_eq!(metrics.single_quoted_cost(), 1);
    assert_eq!(metrics.unquoted_cost(), 5);
    assert_eq!(metrics.get_optimal_delimiter_type(), DelimiterType::Double);
    let tab = metrics_of(&[CharType::Whitespace(b'\t'), CharType::Whitespace(b'\n')]);
    assert_eq!(tab.unquoted_cost(), 4 + 5);
    assert_eq!(tab.double_quoted_cost(), 2);
}

#[test]
fn last_right_chevron_costs_its_escape_without_quotes() {
    let metrics = metrics_of(&[
        CharType::Normal(b'f'),
        CharType::Normal(b'o'),
        CharType::Normal(b'o'),
        CharType::RightChevron,
    ]);
    assert_eq!(metrics.unquoted_cost(), 5);
    assert_eq!(metrics.double_quoted_cost(), 0);
    assert_eq!(metrics.single_quoted_cost(), 0);
    assert_eq!(metrics.get_optimal_delimiter_type(), DelimiterType::Double);
    // A right chevron that is not last costs nothing.
    let inner = metrics_of(&[CharType::RightChevron, CharType::Normal(b'a')]);
    assert_eq!(inner.unquoted_cost(), 0);
}

#[test]
fn first_quote_that_is_the_only_quote_is_counted_once() {
    let double = metrics_of(&[CharType::DoubleQuote, CharType::Normal(b'a')]);
    assert_eq!(double.unquoted_cost(), 5);
    assert_eq!(double.double_quoted_cost(), 5);
    assert_eq!(double.single_quoted_cost(), 1);
    assert_eq!(double.get_optimal_delimiter_type(), DelimiterType::Single);
    let single = metrics_of(&[CharType::SingleQuote]);
    assert_eq!(single.unquoted_cost(), 5);
    assert_eq!(single.single_quoted_cost(), 5);
    assert_eq!(single.double_quoted_cost(), 1);
    assert_eq!(single.get_optimal_delimiter_type(), DelimiterType::Double);
}

#[test]
fn first_quote_among_others_adds_its_escape_to_the_count() {
    // " ' " : the first costs 5, the other two 1 each.
    let metrics = metrics_of(&[
        CharType::DoubleQuote,
        CharType::SingleQuote,
        CharType::DoubleQuote,
    ]);
    assert_eq!(metrics.unquoted_cost(), 7);
    assert_eq!(metrics.double_quoted_cost(), 11);
    assert_eq!(metrics.single_quoted_cost(), 7);
    // Single quotes win the tie with none.
    assert_eq!(metrics.get_optimal_delimiter_type(), DelimiterType::Single);
}

#[test]
fn ties_prefer_double_then_single_then_none() {
    let plain = metrics_of(&[CharType::Normal(b'a')]);
    assert_eq!(plain.get_optimal_delimiter_type(), DelimiterType::Double);
    // a " b: double 5, single 1, none 1.
    let one_double = metrics_of(&[
        CharType::Normal(b'a'),
        CharType::DoubleQuote,
        CharType::Normal(b'b'),
    ]);
    assert_eq!(one_double.single_quoted_cost(), 1);
    assert_eq!(one_double.unquoted_cost(), 1);
    assert_eq!(one_double.get_optimal_delimiter_type(), DelimiterType::Single);
    // a " ' b: double 6, single 6, none 2.
    let both = metrics_of(&[
        CharType::Normal(b'a'),
        CharType::DoubleQuote,
        CharType::SingleQuote,
        CharType::Normal(b'b'),
    ]);
    assert_eq!(both.double_quoted_cost(), 6);
    assert_eq!(both.single_quoted_cost(), 6);
    assert_eq!(both.unquoted_cost(), 2);
    assert_eq!(both.get_optimal_delimiter_type(), DelimiterType::Unquoted);
}

#[test]
fn chosen_delimiter_is_never_dearer_than_another() {
    let kinds = [
        CharType::Normal(b'a'),
        CharType::DoubleQuote,
        CharType::SingleQuote,
        CharType::Whitespace(b' '),
        CharType::Whitespace(b'\t'),
        CharType::RightChevron,
        CharType::DecodedNonAscii,
        CharType::MalformedEntity,
    ];
    // Every value of up to four characters over these kinds.
    for len in 0..=4usize {
        for mut code in 0..kinds.len().pow(len as u32) {
            let mut chars = Vec::new();
            for _ in 0..len {
                chars.push(kinds[code % kinds.len()]);
                code /= kinds.len();
            }
            let metrics = metrics_of(&chars);
            let double = metrics.double_quoted_cost();
            let single = metrics.single_quoted_cost();
            let unquoted = metrics.unquoted_cost();
            match metrics.get_optimal_delimiter_type() {
                DelimiterType::Double => assert!(double <= single && double <= unquoted),
                DelimiterType::Single => assert!(single < double && single <= unquoted),
                DelimiterType::Unquoted => assert!(unquoted < double && unquoted < single),
            }
        }
    }
}

#[test]
fn plain_value_keeps_double_quotes_on_a_tie() {
    // No quote and no whitespace: every delimiter costs nothing, and double
    // quotes are preferred.
    let (result, written, read) = minify(0, b"\"hello\">", false);
    assert_eq!(result, Ok(AttrType::Quoted));
    assert_eq!(written, b"\"hello\"");
    assert_eq!(read, 7);
}

#[test]
fn quotes_inside_are_left_alone_without_delimiters() {
    // it's"ok" : single 7, double 11, none 3.
    let (result, written, read) = minify(0, b"\"it's&#34;ok&#34;\" ", false);
    assert_eq!(result, Ok(AttrType::Unquoted));
    assert_eq!(written, b"it's\"ok\"");
    assert_eq!(read, 18);
}

#[test]
fn whitespace_is_trimmed_and_collapsed() {
    let (result, written, read) = minify(0, b"\"  a  b  \">", true);
    assert_eq!(result, Ok(AttrType::Quoted));
    assert_eq!(written, b"\"a b\"");
    assert_eq!(read, 10);
}

#[test]
fn whitespace_is_kept_when_not_collapsing() {
    let (result, written, read) = minify(0, b"'  a  b  '>", false);
    assert_eq!(result, Ok(AttrType::Quoted));
    assert_eq!(written, b"\"  a  b  \"");
    assert_eq!(read, 10);
}

#[test]
fn value_ending_in_right_chevron_is_quoted() {
    let (result, written, read) = minify(1, b"foo&#62; x", false);
    assert_eq!(result, Ok(AttrType::Quoted));
    assert_eq!(written, b"\"foo>\"");
    // The byte that ends a value without quotes is not read.
    assert_eq!(read, 8);
}

#[test]
fn unquoted_source_ends_at_whitespace_or_right_chevron() {
    let (result, written, read) = minify(2, b"foo>bar", false);
    assert_eq!(result, Ok(AttrType::Quoted));
    assert_eq!(written, b"\"foo\"");
    assert_eq!(read, 3);
    let (result, written, read) = minify(2, b"a'b\tc", false);
    assert_eq!(result, Ok(AttrType::Quoted));
    assert_eq!(written, b"\"a'b\"");
    assert_eq!(read, 3);
}

#[test]
fn malformed_reference_passes_through_unchanged() {
    let (result, written, read) = minify(0, b"\"a&notareal;b\"", false);
    assert_eq!(result, Ok(AttrType::Quoted));
    assert_eq!(written, b"\"a&notareal;b\"");
    assert_eq!(read, 14);
    let mut proc = Processor::new(b"&notareal;\"".to_vec());
    let mut metrics = Metrics::new();
    let r = consume_attr_value(
        &mut proc,
        &NumericEntities {},
        false,
        Some(b'"'),
        AttrPass::Measure,
        &mut metrics,
        &mut Gauge::new(),
    );
    assert_eq!(r, Ok(()));
    assert_eq!(metrics.collected_count(), 10);
    assert_eq!(metrics.double_quoted_cost(), 0);
    assert_eq!(metrics.single_quoted_cost(), 0);
    assert_eq!(metrics.unquoted_cost(), 0);
}

#[test]
fn decoded_quotes_are_escaped_as_the_delimiter_asks() {
    // ''" between double quotes in the source: double 5 + 2, single 10 + 1,
    // none 5 + 3 - 1.
    let (result, written, _) = minify(0, b"\"''&#34;\"", false);
    assert_eq!(result, Ok(AttrType::Quoted));
    assert_eq!(written, b"\"''&#34;\"");
    // ""' between single quotes in the source: single 5 + 2.
    let (result, written, _) = minify(0, b"'\"\"&#39;'", false);
    assert_eq!(result, Ok(AttrType::Quoted));
    assert_eq!(written, b"'\"\"&#39;'");
}

#[test]
fn first_quote_is_escaped_without_delimiters() {
    // "'"'x : double 2 * 5 + 2, single 2 * 5 + 2, none 5 + 4 - 1.
    let (result, written, _) = minify(3, b"'\"&#39;\"&#39;x'", false);
    assert_eq!(result, Ok(AttrType::Unquoted));
    assert_eq!(written, b"&#34;'\"'x");
}

#[test]
fn whitespace_is_escaped_without_delimiters() {
    // x"'"'"' and one tab: double 3 * 5 + 3 + 1, none 6 + 4.
    let (result, written, _) = minify(0, b"\"x&#34;'&#34;'&#34;'\t\"", false);
    assert_eq!(result, Ok(AttrType::Unquoted));
    assert_eq!(written, b"x\"'\"'\"'&#9;");
}

#[test]
fn last_right_chevron_is_escaped_without_delimiters() {
    // "'"'"'> : double 19 - 1, none 6 + 5.
    let (result, written, _) = minify(0, b"'&#39;\"&#39;\"&#39;\">'", false);
    assert_eq!(result, Ok(AttrType::Unquoted));
    assert_eq!(written, b"&#39;\"'\"'\"&#62;");
}

#[test]
fn reference_outside_ascii_is_written_as_utf8() {
    let (result, written, read) = minify(0, b"\"caf&#233; &#8364;\"", false);
    assert_eq!(result, Ok(AttrType::Quoted));
    assert_eq!(written, "\"caf\u{e9} \u{20ac}\"".as_bytes());
    assert_eq!(read, 19);
}

#[test]
fn space_before_a_reference_outside_ascii_stays_before_it() {
    let (result, written, _) = minify(0, b"\"a \t &#233;\"", true);
    assert_eq!(result, Ok(AttrType::Quoted));
    assert_eq!(written, "\"a \u{e9}\"".as_bytes());
}

#[test]
fn decoded_whitespace_is_collapsed_too() {
    let (result, written, _) = minify(0, b"\"&#32;a&#9;&#32; b&#10;\"", true);
    assert_eq!(result, Ok(AttrType::Quoted));
    assert_eq!(written, b"\"a b\"");
}

#[test]
fn empty_value_stays_in_double_quotes() {
    let (result, written, read) = minify(0, b"''>", false);
    assert_eq!(result, Ok(AttrType::Quoted));
    assert_eq!(written, b"\"\"");
    assert_eq!(read, 2);
    let (result, written, read) = minify(0, b"'   '>", true);
    assert_eq!(result, Ok(AttrType::Quoted));
    assert_eq!(written, b"\"\"");
    assert_eq!(read, 5);
}

#[test]
fn unterminated_value_fails_and_writes_nothing() {
    let (result, written, _) = minify(2, b"\"abc", false);
    assert_eq!(result, Err(ErrorType::UnexpectedEnd));
    assert_eq!(written, b"");
    let (result, written, _) = minify(2, b"abc", false);
    assert_eq!(result, Err(ErrorType::UnexpectedEnd));
    assert_eq!(written, b"");
    let (result, written, _) = minify(2, b"", true);
    assert_eq!(result, Err(ErrorType::UnexpectedEnd));
    assert_eq!(written, b"");
}

#[test]
fn source_behind_the_value_is_left_as_it_was() {
    let mut proc = Processor::new(b"\"a  b\" c=d>".to_vec());
    let result = process_quoted_val(&mut proc, &NumericEntities {}, true);
    assert_eq!(result, Ok(AttrType::Quoted));
    assert_eq!(proc.written_len(), 5);
    assert_eq!(proc.read_len(), 6);
    assert_eq!(proc.code(), b"\"a b\"\" c=d>");
    assert_eq!(proc.remaining(), b" c=d>");
}

#[test]
fn minifying_the_output_again_changes_nothing() {
    let sources: [(&[u8], bool); 8] = [
        (b"\"hello\" ", false),
        (b"\"it's&#34;ok&#34;\" ", false),
        (b"\"  a  b  \" ", true),
        (b"' a\tb ' ", false),
        (b"'\"&#39;\"&#39;x' ", false),
        (b"\"x&#34;'&#34;'&#34;'\t\" ", false),
        (b"'&#39;\"&#39;\"&#39;\"&#62;' ", true),
        (b"\"caf&#233;\" ", true),
    ];
    for (src, collapse) in sources {
        let (result, once, _) = minify(4, src, collapse);
        let mut again = once.clone();
        again.push(b' ');
        let (result_again, twice, read) = minify(0, &again, collapse);
        assert_eq!(result_again, result);
        assert_eq!(twice, once);
        assert_eq!(read, once.len());
    }
}

#[test]
fn measuring_reads_the_value_and_writes_nothing() {
    let mut proc = Processor::new(b"x a &#39;b&#62;  \" rest".to_vec());
    proc.skip_expect();
    let mut metrics = Metrics::new();
    let r = consume_attr_value(
        &mut proc,
        &NumericEntities {},
        true,
        Some(b'"'),
        AttrPass::Measure,
        &mut metrics,
        &mut Gauge::new(),
    );
    assert_eq!(r, Ok(()));
    assert_eq!(proc.read_len(), 17);
    assert_eq!(proc.written_len(), 0);
    assert_eq!(proc.code(), b"x a &#39;b&#62;  \" rest");
    // a, space, ', b, >
    assert_eq!(metrics.collected_count(), 5);
    assert_eq!(metrics.double_quoted_cost(), 2);
    assert_eq!(metrics.single_quoted_cost(), 6);
    assert_eq!(metrics.unquoted_cost(), 1 + 5 + 5);
}

#[test]
fn emitting_writes_under_the_given_delimiter() {
    let mut proc = Processor::new(b"......a'b \"c>\" rest".to_vec());
    proc.skip_amount_expect(6);
    let mut metrics = Metrics::new();
    let r = consume_attr_value(
        &mut proc,
        &NumericEntities {},
        false,
        None,
        AttrPass::Emit { delimiter: DelimiterType::Single, total: 3 },
        &mut metrics,
        &mut Gauge::new(),
    );
    assert_eq!(r, Ok(()));
    assert_eq!(proc.read_len(), 9);
    assert_eq!(&proc.code()[..proc.written_len()], b"a&#39;b");
    assert_eq!(metrics.collected_count(), 0);
}

#[test]
fn numeric_references_decode_to_scalar_values() {
    let decoder = NumericEntities {};
    assert_eq!(decoder.decode(b"&#39;x"), EntityRef { len: 5, value: Some('\'' as u32) });
    assert_eq!(decoder.decode(b"&#9;"), EntityRef { len: 4, value: Some('\t' as u32) });
    assert_eq!(decoder.decode(b"&#0065;"), EntityRef { len: 7, value: Some('A' as u32) });
    assert_eq!(decoder.decode(b"&#8364;"), EntityRef { len: 7, value: Some('\u{20ac}' as u32) });
    assert_eq!(decoder.decode(b"&#1114111;"), EntityRef { len: 10, value: Some('\u{10ffff}' as u32) });
    assert_eq!(decoder.decode(b"&#0;"), EntityRef { len: 4, value: Some('\0' as u32) });
}

#[test]
fn other_references_are_malformed() {
    let decoder = NumericEntities {};
    let malformed = EntityRef { len: 1, value: None };
    assert_eq!(decoder.decode(b"&"), malformed);
    assert_eq!(decoder.decode(b"&#"), malformed);
    assert_eq!(decoder.decode(b"&#;"), malformed);
    assert_eq!(decoder.decode(b"&#39"), malformed);
    assert_eq!(decoder.decode(b"&#39x"), malformed);
    assert_eq!(decoder.decode(b"&amp;"), malformed);
    assert_eq!(decoder.decode(b"&#x27;"), malformed);
    // Beyond the last scalar value, and a surrogate.
    assert_eq!(decoder.decode(b"&#1114112;"), malformed);
    assert_eq!(decoder.decode(b"&#99999999999999999999;"), malformed);
    assert_eq!(decoder.decode(b"&#55296;"), malformed);
}

/// What a measuring pass finds in the value at the start of `src`: how many
/// characters, and what each delimiter would cost.
fn measure(src: &[u8], delimiter: Option<u8>, collapse: bool) -> (usize, u128, u128, u128) {
    let mut proc = Processor::new(src.to_vec());
    if delimiter.is_some() {
        proc.skip_expect();
    }
    let mut metrics = Metrics::new();
    let r = consume_attr_value(
        &mut proc,
        &NumericEntities {},
        collapse,
        delimiter,
        AttrPass::Measure,
        &mut metrics,
        &mut Gauge::new(),
    );
    assert_eq!(r, Ok(()));
    (
        metrics.collected_count(),
        metrics.double_quoted_cost(),
        metrics.single_quoted_cost(),
        metrics.unquoted_cost(),
    )
}

#[test]
fn reading_the_output_gives_the_characters_of_the_source() {
    let sources: [(&[u8], u8, bool); 6] = [
        (b"\"it's&#34;ok&#34;\" ", b'"', false),
        (b"\"  a  b  \" ", b'"', true),
        (b"' a\tb ' ", b'\'', false),
        (b"'\"&#39;\"&#39;x' ", b'\'', false),
        (b"\"x&#34;'&#34;'&#34;'\t\" ", b'"', false),
        (b"'&#39;\"&#39;\"&#39;\"&#62;' ", b'\'', true),
    ];
    for (src, quote, collapse) in sources {
        let (result, mut out, _) = minify(4, src, collapse);
        out.push(b' ');
        let out_delimiter = match result {
            Ok(AttrType::Quoted) => Some(out[0]),
            _ => None,
        };
        assert_eq!(
            measure(&out, out_delimiter, false),
            measure(src, Some(quote), collapse)
        );
    }
}

#[test]
fn room_is_found_wanting_where_the_output_would_overtake_the_input() {
    // The first quote is escaped before enough has been read.
    let src = b"'\"&#39;\"&#39;x'";
    for slack in 0..3 {
        let mut proc = engine(slack, src);
        assert!(!quoted_val_fits(&mut proc, &NumericEntities {}, false));
        assert_eq!(proc.read_len(), slack);
        assert_eq!(proc.written_len(), 0);
        assert_eq!(try_process_quoted_val(&mut proc, &NumericEntities {}, false), None);
        assert_eq!(proc.read_len(), slack);
        assert_eq!(proc.written_len(), 0);
        assert_eq!(&proc.code()[slack..], src);
    }
    let mut proc = engine(3, src);
    assert!(quoted_val_fits(&mut proc, &NumericEntities {}, false));
    assert_eq!(proc.read_len(), 3);
    assert_eq!(
        try_process_quoted_val(&mut proc, &NumericEntities {}, false),
        Some(Ok(AttrType::Unquoted))
    );
    assert_eq!(&proc.code()[..proc.written_len()], b"&#34;'\"'x");
    assert_eq!(proc.read_len(), 3 + src.len());
}

#[test]
fn quotes_for_a_value_without_quotes_need_two_bytes() {
    for slack in 0..2 {
        let mut proc = engine(slack, b"foo>");
        assert!(!quoted_val_fits(&mut proc, &NumericEntities {}, false));
        assert_eq!(try_process_quoted_val(&mut proc, &NumericEntities {}, false), None);
        assert_eq!(proc.read_len(), slack);
    }
    let mut proc = engine(2, b"foo>");
    assert_eq!(
        try_process_quoted_val(&mut proc, &NumericEntities {}, false),
        Some(Ok(AttrType::Quoted))
    );
    assert_eq!(&proc.code()[..proc.written_len()], b"\"foo\"");
    assert_eq!(proc.remaining(), b">");
}

#[test]
fn a_value_in_quotes_that_stays_in_quotes_needs_no_slack() {
    let mut proc = engine(0, b"'a  b'>");
    assert!(quoted_val_fits(&mut proc, &NumericEntities {}, true));
    assert_eq!(
        try_process_quoted_val(&mut proc, &NumericEntities {}, true),
        Some(Ok(AttrType::Quoted))
    );
    assert_eq!(&proc.code()[..proc.written_len()], b"\"a b\"");
}

#[test]
fn a_value_without_end_fits_and_fails() {
    let mut proc = engine(0, b"\"abc");
    assert!(quoted_val_fits(&mut proc, &NumericEntities {}, false));
    assert_eq!(proc.read_len(), 0);
    assert_eq!(
        try_process_quoted_val(&mut proc, &NumericEntities {}, false),
        Some(Err(ErrorType::UnexpectedEnd))
    );
    assert_eq!(proc.read_len(), 4);
    assert_eq!(proc.written_len(), 0);
}

#[test]
fn probing_counts_what_would_be_written() {
    // Without quotes: a, escaped tab, b.
    let mut proc = engine(3, b"a\tb\"");
    let mut metrics = Metrics::new();
    let mut gauge = Gauge::new();
    let r = consume_attr_value(
        &mut proc,
        &NumericEntities {},
        false,
        Some(b'"'),
        AttrPass::Probe { delimiter: DelimiterType::Unquoted, total: 3, write_next: 0 },
        &mut metrics,
        &mut gauge,
    );
    assert_eq!(r, Ok(()));
    assert_eq!(gauge, Gauge { written: 6, fits: true });
    assert_eq!(proc.read_len(), 6);
    assert_eq!(proc.written_len(), 0);
    assert_eq!(metrics.collected_count(), 0);
    // With a byte less between the cursors the escaped tab overtakes.
    let mut proc = engine(3, b"a\tb\"");
    let mut gauge = Gauge::new();
    let r = consume_attr_value(
        &mut proc,
        &NumericEntities {},
        false,
        Some(b'"'),
        AttrPass::Probe { delimiter: DelimiterType::Unquoted, total: 3, write_next: 1 },
        &mut metrics,
        &mut gauge,
    );
    assert_eq!(r, Ok(()));
    assert!(!gauge.fits);
}
