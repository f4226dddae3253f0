//! What holds of the cheapest form of a value: it reads back as what the
//! source denoted, writing it again changes nothing, and there is room for
//! it wherever the cursors lie far enough apart.

use vstd::prelude::*;
use vstd::utf8::encode_scalar;
use crate::proc::attr::quoted::{
    cost, double_quotes, has_encoding, lemma_counts_bounded, optimal_delimiter, single_quotes,
    spec_encoded, spec_is_attr_quote, whitespace_encoded_len, whitespaces, CharType,
    DelimiterType,
};
use crate::proc::attr::value::{
    body, chosen_delimiter, collapse, delimiter_bytes, delimiter_char, delimiter_len, emitted,
    ends_value, entity_token, kinds, lemma_body_next, lemma_scan_ends, lemma_widths_push,
    logical, minified, next_token, scan, source_delimiter, value_fits, value_tokens, widths, Token,
};
use crate::proc::entity::{
    decimal, digit_run, is_digit, lemma_digit_run_split, numeric_reference, EntityDecoder,
    EntityRef, NumericEntities,
};

verus! {

/// Whether the decoder reads each escaped form that this library writes as
/// the byte it stands for, whatever follows it.
pub open spec fn reads_escapes<E: EntityDecoder>(decoder: &E) -> bool {
    forall|c: u8, rest: Seq<u8>|
        has_encoding(c) ==> #[trigger] decoder.reference(spec_encoded(c) + rest) == (EntityRef {
            len: spec_encoded(c).len() as usize,
            value: Some(c as u32),
        })
}

/// The decoder of decimal references reads this library's escaped forms.
pub proof fn lemma_numeric_entities_read_escapes(decoder: &NumericEntities)
    ensures
        reads_escapes(decoder),
{
    assert forall|c: u8, rest: Seq<u8>| has_encoding(c) implies #[trigger] decoder.reference(
        spec_encoded(c) + rest,
    ) == (EntityRef { len: spec_encoded(c).len() as usize, value: Some(c as u32) }) by {
        let escaped = spec_encoded(c);
        let text = escaped + rest;
        let count = escaped.len() - 3;
        let digits = text.skip(2);
        assert(text[1] == escaped[1]);
        assert(text[2 + count] == escaped[2 + count]);
        assert forall|i: int| 0 <= i < count implies is_digit(#[trigger] digits[i]) by {
            assert(digits[i] == escaped[2 + i]);
        }
        lemma_digit_run_split(digits, count);
        assert(digits.skip(count)[0] == text[2 + count]);
        assert(digit_run(digits.skip(count)) == 0);
        let number = text.subrange(2, 2 + count);
        assert(number =~= escaped.subrange(2, 2 + count));
        assert(decimal(number) == c) by {
            reveal_with_fuel(decimal, 3);
            if count == 2 {
                assert(number.drop_last() =~= seq![escaped[2]]);
                assert(number.drop_last().drop_last() =~= Seq::<u8>::empty());
                assert(number.last() == escaped[3]);
                assert(number.drop_last().last() == escaped[2]);
            } else {
                assert(number.drop_last() =~= Seq::<u8>::empty());
                assert(number.last() == escaped[2]);
            }
        }
        assert(numeric_reference(text) == (EntityRef {
            len: escaped.len() as usize,
            value: Some(c as u32),
        }));
    }
}

/// The characters that `token` denotes: one of its own kind, or, for a
/// reference to a character outside ASCII, one plain byte for each byte of
/// that character's encoding.
pub open spec fn denoted_by(token: Token) -> Seq<CharType> {
    if token.kind is DecodedNonAscii {
        Seq::new(token.literal.len(), |i: int| CharType::Normal(token.literal[i]))
    } else {
        seq![token.kind]
    }
}

/// The characters that `tokens` denote, in order.
pub open spec fn denoted(tokens: Seq<Token>) -> Seq<CharType>
    decreases tokens.len(),
{
    if tokens.len() == 0 {
        Seq::empty()
    } else {
        denoted(tokens.drop_last()) + denoted_by(tokens.last())
    }
}

/// Whether each of `chars` is written so that it reads back as what it
/// denotes under `delimiter`: none is a malformed reference, none is an
/// ampersand, and, without quotes, only the last is a right chevron.
pub open spec fn reads_back(chars: Seq<Token>, delimiter: DelimiterType) -> bool {
    forall|i: int|
        0 <= i < chars.len() ==> {
            let kind = (#[trigger] chars[i]).kind;
            &&& !(kind is MalformedEntity)
            &&& kind != CharType::Normal(0x26)
            &&& delimiter is Unquoted && kind is RightChevron ==> i == chars.len() - 1
        }
}

/// Whether each of `bytes` is outside ASCII.
spec fn high(bytes: Seq<u8>) -> bool {
    forall|i: int| 0 <= i < bytes.len() ==> #[trigger] bytes[i] >= 0x80
}

/// Whether `token` is a character that a scan can find: of a kind that
/// holds what it may, and, where it denotes a character outside ASCII, with
/// bytes outside ASCII for it.
spec fn scannable_token(token: Token) -> bool {
    &&& token.kind.wf()
    &&& !(token.kind is End)
    &&& token.kind is DecodedNonAscii ==> token.literal.len() > 0 && high(token.literal)
}

/// Whether each of `tokens` is a character that a scan can find.
spec fn scannable(tokens: Seq<Token>) -> bool {
    forall|i: int| 0 <= i < tokens.len() ==> scannable_token(#[trigger] tokens[i])
}

/// The encoding of a scalar value outside ASCII has bytes outside ASCII
/// only.
proof fn lemma_encoding_is_high(scalar: u32)
    requires
        scalar > 0x7f,
    ensures
        encode_scalar(scalar).len() >= 2,
        high(encode_scalar(scalar)),
{
    assert forall|x: u8| #![auto] (0xc0u8 | x) >= 0x80 && (0xe0u8 | x) >= 0x80 && (0xf0u8 | x)
        >= 0x80 && (0x80u8 | x) >= 0x80 by {
        assert((0xc0u8 | x) >= 0x80 && (0xe0u8 | x) >= 0x80 && (0xf0u8 | x) >= 0x80 && (0x80u8
            | x) >= 0x80) by (bit_vector);
    }
}

/// The bytes that stand in the output for `chars` from the `from`th on.
spec fn body_from(chars: Seq<Token>, delimiter: DelimiterType, total: int, from: int) -> Seq<
    u8,
>
    decreases chars.len() - from,
{
    if from >= chars.len() || from < 0 {
        Seq::empty()
    } else {
        emitted(chars[from], from, total, delimiter) + body_from(chars, delimiter, total, from + 1)
    }
}

proof fn lemma_body_split(chars: Seq<Token>, delimiter: DelimiterType, total: int, from: int)
    requires
        0 <= from <= chars.len(),
    ensures
        body(chars, delimiter, total) == body(chars.take(from), delimiter, total) + body_from(
            chars,
            delimiter,
            total,
            from,
        ),
    decreases chars.len() - from,
{
    if from == chars.len() {
        assert(chars.take(from) =~= chars);
        assert(body(chars, delimiter, total) + Seq::<u8>::empty() =~= body(
            chars,
            delimiter,
            total,
        ));
    } else {
        lemma_body_split(chars, delimiter, total, from + 1);
        let upto = chars.take(from + 1);
        assert(upto.drop_last() =~= chars.take(from));
        assert(upto.last() == chars[from]);
        assert(body(upto, delimiter, total) == body(chars.take(from), delimiter, total) + emitted(
            chars[from],
            from,
            total,
            delimiter,
        ));
        assert(body(chars.take(from), delimiter, total) + emitted(
            chars[from],
            from,
            total,
            delimiter,
        ) + body_from(chars, delimiter, total, from + 1) =~= body(
            chars.take(from),
            delimiter,
            total,
        ) + body_from(chars, delimiter, total, from));
    }
}

/// The tokens of a scan are characters that a scan can find.
proof fn lemma_scan_scannable<E: EntityDecoder>(
    decoder: &E,
    text: Seq<u8>,
    delimiter: Option<u8>,
)
    requires
        scan(decoder, text, delimiter) is Some,
    ensures
        scannable(scan(decoder, text, delimiter)->0),
    decreases text.len(),
{
    if !ends_value(delimiter, text[0]) {
        let token = next_token(decoder, text);
        let rest = scan(decoder, text.skip(token.width), delimiter)->0;
        lemma_scan_scannable(decoder, text.skip(token.width), delimiter);
        if text[0] == 0x26 {
            decoder.reference_bounds(text);
            if let Some(scalar) = decoder.reference(text).value {
                if scalar > 0x7f {
                    lemma_encoding_is_high(scalar);
                }
            }
        }
        let all = seq![token] + rest;
        assert forall|i: int| 0 <= i < all.len() implies scannable_token(#[trigger] all[i]) by {
            if i > 0 {
                assert(all[i] == rest[i - 1]);
            }
        }
    }
}

/// Collapsing whitespace leaves characters that a scan can find.
proof fn lemma_collapse_scannable(raw: Seq<Token>)
    requires
        scannable(raw),
    ensures
        scannable(collapse(raw)),
    decreases raw.len(),
{
    if raw.len() > 0 {
        assert forall|i: int| 0 <= i < raw.drop_last().len() implies scannable_token(
            #[trigger] raw.drop_last()[i],
        ) by {
            assert(raw.drop_last()[i] == raw[i]);
        }
        lemma_collapse_scannable(raw.drop_last());
        assert(scannable_token(raw[raw.len() - 1]));
    }
}

/// One character, written under `delimiter`, reads back as a character of
/// the same kind that takes exactly the bytes written.
proof fn lemma_reads_char<E: EntityDecoder>(
    decoder: &E,
    token: Token,
    index: int,
    total: int,
    delimiter: DelimiterType,
    more: Seq<u8>,
)
    requires
        reads_escapes(decoder),
        token.kind.wf(),
        !(token.kind is End),
        !(token.kind is MalformedEntity),
        !(token.kind is DecodedNonAscii),
        token.kind != CharType::Normal(0x26),
        delimiter is Unquoted && token.kind is RightChevron ==> index == total - 1,
    ensures
        ({
            let written = emitted(token, index, total, delimiter);
            let text = written + more;
            let again = next_token(decoder, text);
            &&& written.len() >= 1
            &&& !ends_value(delimiter_char(delimiter), text[0])
            &&& delimiter is Unquoted && index == 0 ==> !spec_is_attr_quote(text[0])
            &&& again.kind == token.kind
            &&& again.width == written.len()
            &&& again.literal.len() == 0
            &&& text.skip(written.len() as int) == more
        }),
{
    let written = emitted(token, index, total, delimiter);
    let text = written + more;
    assert(text.skip(written.len() as int) =~= more);
    let escaped: Option<u8> = match token.kind {
        CharType::Whitespace(c) => if delimiter is Unquoted {
            Some(c)
        } else {
            None
        },
        CharType::SingleQuote => if delimiter is Single || (delimiter is Unquoted && index == 0) {
            Some(0x27u8)
        } else {
            None
        },
        CharType::DoubleQuote => if delimiter is Double || (delimiter is Unquoted && index == 0) {
            Some(0x22u8)
        } else {
            None
        },
        CharType::RightChevron => if delimiter is Unquoted {
            Some(0x3eu8)
        } else {
            None
        },
        _ => None,
    };
    match escaped {
        Some(c) => {
            assert(written == spec_encoded(c));
            assert(text[0] == written[0]);
            let found = decoder.reference(spec_encoded(c) + more);
            assert(found == (EntityRef { len: spec_encoded(c).len() as usize, value: Some(c as u32) }));
            assert(entity_token(found, text).kind == CharType::spec_from_char(c));
        },
        None => {
            assert(written.len() == 1);
            assert(text[0] == written[0]);
        },
    }
}

/// One plain token for each of `bytes`.
spec fn byte_tokens(bytes: Seq<u8>) -> Seq<Token> {
    Seq::new(
        bytes.len(),
        |i: int| Token { kind: CharType::Normal(bytes[i]), width: 1, literal: Seq::empty() },
    )
}

/// Bytes outside ASCII read back as one plain character each.
proof fn lemma_reads_high<E: EntityDecoder>(
    decoder: &E,
    bytes: Seq<u8>,
    delimiter: DelimiterType,
    more: Seq<u8>,
)
    requires
        high(bytes),
        scan(decoder, more, delimiter_char(delimiter)) is Some,
    ensures
        scan(decoder, bytes + more, delimiter_char(delimiter)) == Some(
            byte_tokens(bytes) + scan(decoder, more, delimiter_char(delimiter))->0,
        ),
    decreases bytes.len(),
{
    let text = bytes + more;
    let rest = scan(decoder, more, delimiter_char(delimiter))->0;
    if bytes.len() == 0 {
        assert(text =~= more);
        assert(byte_tokens(bytes) + rest =~= rest);
    } else {
        assert(text[0] == bytes[0]);
        assert(text.skip(1) =~= bytes.skip(1) + more);
        assert forall|i: int| 0 <= i < bytes.skip(1).len() implies #[trigger] bytes.skip(1)[i]
            >= 0x80 by {
            assert(bytes.skip(1)[i] == bytes[i + 1]);
        }
        lemma_reads_high(decoder, bytes.skip(1), delimiter, more);
        assert(seq![next_token(decoder, text)] + (byte_tokens(bytes.skip(1)) + rest)
            =~= byte_tokens(bytes) + rest);
    }
}

/// What tokens denote, one after the other.
proof fn lemma_denoted_concat(first: Seq<Token>, second: Seq<Token>)
    ensures
        denoted(first + second) == denoted(first) + denoted(second),
    decreases second.len(),
{
    if second.len() == 0 {
        assert(first + second =~= first);
        assert(denoted(first) + denoted(second) =~= denoted(first));
    } else {
        assert((first + second).drop_last() =~= first + second.drop_last());
        assert((first + second).last() == second.last());
        lemma_denoted_concat(first, second.drop_last());
        assert(denoted(first) + denoted(second.drop_last()) + denoted_by(second.last())
            =~= denoted(first) + (denoted(second.drop_last()) + denoted_by(second.last())));
    }
}

/// What tokens denote starts with what the first of them denotes.
proof fn lemma_denoted_front(tokens: Seq<Token>)
    requires
        tokens.len() > 0,
    ensures
        denoted(tokens) == denoted_by(tokens[0]) + denoted(tokens.skip(1)),
{
    let head = seq![tokens[0]];
    assert(head + tokens.skip(1) =~= tokens);
    lemma_denoted_concat(head, tokens.skip(1));
    assert(head.drop_last() =~= Seq::<Token>::empty());
    assert(head.last() == tokens[0]);
    assert(denoted(head.drop_last()) =~= Seq::<CharType>::empty());
    assert(denoted(head) =~= denoted_by(tokens[0]));
}

/// The characters written from the `from`th on, followed by a byte that
/// ends the value, read back as the characters that they denote.
proof fn lemma_reads_body<E: EntityDecoder>(
    decoder: &E,
    chars: Seq<Token>,
    delimiter: DelimiterType,
    from: int,
    tail: Seq<u8>,
)
    requires
        reads_escapes(decoder),
        scannable(chars),
        reads_back(chars, delimiter),
        0 <= from <= chars.len(),
        tail.len() > 0,
        ends_value(delimiter_char(delimiter), tail[0]),
    ensures
        scan(
            decoder,
            body_from(chars, delimiter, chars.len() as int, from) + tail,
            delimiter_char(delimiter),
        ) matches Some(again) && kinds(again) == denoted(chars.skip(from)),
    decreases chars.len() - from,
{
    let total = chars.len() as int;
    let text = body_from(chars, delimiter, total, from) + tail;
    if from == chars.len() {
        assert(text =~= tail);
        assert(chars.skip(from) =~= Seq::<Token>::empty());
        assert(kinds(Seq::<Token>::empty()) =~= denoted(chars.skip(from)));
    } else {
        let token = chars[from];
        let written = emitted(token, from, total, delimiter);
        let more = body_from(chars, delimiter, total, from + 1) + tail;
        assert(text =~= written + more);
        assert(scannable_token(token));
        lemma_reads_body(decoder, chars, delimiter, from + 1, tail);
        let rest = scan(decoder, more, delimiter_char(delimiter))->0;
        lemma_denoted_front(chars.skip(from));
        assert(chars.skip(from).skip(1) =~= chars.skip(from + 1));
        assert(kinds(rest).len() == rest.len());
        if token.kind is DecodedNonAscii {
            lemma_reads_high(decoder, written, delimiter, more);
            let again = byte_tokens(written) + rest;
            assert(kinds(again) =~= denoted_by(token) + kinds(rest)) by {
                assert forall|i: int| 0 <= i < again.len() implies again[i].kind == (denoted_by(
                    token,
                ) + kinds(rest))[i] by {
                    if i >= written.len() {
                        assert(again[i] == rest[i - written.len()]);
                        assert(kinds(rest)[i - written.len()] == rest[i - written.len()].kind);
                    }
                }
            }
        } else {
            lemma_reads_char(decoder, token, from, total, delimiter, more);
            let first = next_token(decoder, text);
            let again = seq![first] + rest;
            assert(scan(decoder, text, delimiter_char(delimiter)) == Some(again));
            assert(kinds(again) =~= denoted_by(token) + kinds(rest)) by {
                assert forall|i: int| 0 <= i < again.len() implies again[i].kind == (denoted_by(
                    token,
                ) + kinds(rest))[i] by {
                    if i > 0 {
                        assert(again[i] == rest[i - 1]);
                        assert(kinds(rest)[i - 1] == rest[i - 1].kind);
                    }
                }
            }
        }
    }
}

/// A value that is cheapest without quotes has a character.
proof fn lemma_unquoted_is_not_empty(chars: Seq<CharType>)
    requires
        optimal_delimiter(chars) is Unquoted,
    ensures
        chars.len() > 0,
{
    lemma_counts_bounded(chars);
}

/// Round trip: where the value at the start of `source` is written in its
/// cheapest form and something that ends a value follows, reading the
/// output gives, in the same order, the characters that the source denoted
/// after collapsing. This holds of a decoder that reads this library's
/// escaped forms, and of values whose characters all read back.
pub proof fn lemma_minified_round_trip<E: EntityDecoder>(
    decoder: &E,
    source: Seq<u8>,
    should_collapse_and_trim_ws: bool,
    tail: Seq<u8>,
)
    requires
        reads_escapes(decoder),
        value_tokens(decoder, source) matches Some(raw) && reads_back(
            logical(raw, should_collapse_and_trim_ws),
            chosen_delimiter(raw, should_collapse_and_trim_ws),
        ) && (chosen_delimiter(raw, should_collapse_and_trim_ws) is Unquoted ==> tail.len() > 0
            && ends_value(None, tail[0])),
    ensures
        ({
            let raw = value_tokens(decoder, source)->0;
            let out = minified(raw, should_collapse_and_trim_ws);
            &&& source_delimiter(out + tail) == delimiter_char(
                chosen_delimiter(raw, should_collapse_and_trim_ws),
            )
            &&& value_tokens(decoder, out + tail) matches Some(again) && denoted(again) == denoted(
                logical(raw, should_collapse_and_trim_ws),
            ) && kinds(again) == denoted(again)
        }),
{
    let raw = value_tokens(decoder, source)->0;
    let chars = logical(raw, should_collapse_and_trim_ws);
    let delimiter = chosen_delimiter(raw, should_collapse_and_trim_ws);
    let total = chars.len() as int;
    let quote = delimiter_bytes(delimiter);
    let out = minified(raw, should_collapse_and_trim_ws);
    let text = out + tail;
    let src_len = if source_delimiter(source) is Some {
        1int
    } else {
        0int
    };
    lemma_scan_scannable(decoder, source.skip(src_len), source_delimiter(source));
    if should_collapse_and_trim_ws {
        lemma_collapse_scannable(raw);
    }
    lemma_body_split(chars, delimiter, total, 0);
    assert(chars.take(0) =~= Seq::<Token>::empty());
    assert(body(chars, delimiter, total) =~= body_from(chars, delimiter, total, 0));
    assert(chars.skip(0) =~= chars);
    if delimiter is Unquoted {
        assert(kinds(chars).len() == chars.len());
        lemma_unquoted_is_not_empty(kinds(chars));
        assert(text =~= body_from(chars, delimiter, total, 0) + tail);
        let more = body_from(chars, delimiter, total, 1) + tail;
        assert(text =~= emitted(chars[0], 0, total, delimiter) + more);
        assert(scannable_token(chars[0]));
        if chars[0].kind is DecodedNonAscii {
            assert(text[0] == chars[0].literal[0]);
        } else {
            lemma_reads_char(decoder, chars[0], 0, total, delimiter, more);
        }
        assert(text.skip(0) =~= text);
        lemma_reads_body(decoder, chars, delimiter, 0, tail);
    } else {
        let q = delimiter_char(delimiter)->0;
        assert(text[0] == q);
        let inner_tail = quote + tail;
        assert(text.skip(1) =~= body_from(chars, delimiter, total, 0) + inner_tail);
        lemma_reads_body(decoder, chars, delimiter, 0, inner_tail);
    }
    let again = value_tokens(decoder, text)->0;
    lemma_denoted_shape(chars);
    lemma_denoted_of_kinds(again, denoted(chars));
}

/// Tokens whose kinds are what tokens denote denote their own kinds.
proof fn lemma_denoted_of_kinds(tokens: Seq<Token>, of: Seq<CharType>)
    requires
        kinds(tokens) == of,
        forall|i: int| 0 <= i < of.len() ==> !((#[trigger] of[i]) is DecodedNonAscii),
    ensures
        denoted(tokens) == kinds(tokens),
    decreases tokens.len(),
{
    assert(kinds(tokens).len() == tokens.len());
    if tokens.len() == 0 {
        assert(denoted(tokens) =~= kinds(tokens));
    } else {
        let init = tokens.drop_last();
        assert(kinds(init) =~= of.drop_last()) by {
            assert forall|i: int| 0 <= i < init.len() implies init[i].kind == of.drop_last()[i] by {
                assert(kinds(tokens)[i] == tokens[i].kind);
            }
        }
        assert forall|i: int| 0 <= i < of.drop_last().len() implies !((
        #[trigger] of.drop_last()[i]) is DecodedNonAscii) by {
            assert(of.drop_last()[i] == of[i]);
        }
        lemma_denoted_of_kinds(init, of.drop_last());
        assert(kinds(tokens)[tokens.len() - 1] == tokens.last().kind);
        assert(!(of[tokens.len() - 1] is DecodedNonAscii));
        assert(denoted(tokens) =~= kinds(tokens)) by {
            assert forall|i: int| 0 <= i < tokens.len() implies (kinds(init) + seq![
                tokens.last().kind,
            ])[i] == kinds(tokens)[i] by {
                if i < init.len() {
                    assert(kinds(init)[i] == init[i].kind);
                }
            }
        }
    }
}

/// Whether whitespace stands in `kinds` only as single spaces, each behind
/// a character that is not whitespace.
spec fn spaced_singly(kinds: Seq<CharType>) -> bool {
    forall|i: int|
        0 <= i < kinds.len() && (#[trigger] kinds[i]) is Whitespace ==> kinds[i]
            == CharType::Whitespace(0x20) && i > 0 && !(kinds[i - 1] is Whitespace)
}

/// What is left of collapsing has whitespace only as single spaces between
/// other characters.
proof fn lemma_collapse_is_spaced_singly(raw: Seq<Token>)
    ensures
        spaced_singly(kinds(collapse(raw))),
        collapse(raw).len() > 0 ==> !(collapse(raw).last().kind is Whitespace),
    decreases raw.len(),
{
    if raw.len() > 0 {
        lemma_collapse_is_spaced_singly(raw.drop_last());
        let before = collapse(raw.drop_last());
        let all = collapse(raw);
        assert forall|i: int| 0 <= i < kinds(all).len() && (#[trigger] kinds(all)[i])
            is Whitespace implies kinds(all)[i] == CharType::Whitespace(0x20) && i > 0 && !(kinds(
            all,
        )[i - 1] is Whitespace) by {
            if i < before.len() {
                assert(kinds(before)[i] == kinds(all)[i]);
                if i > 0 {
                    assert(kinds(before)[i - 1] == kinds(all)[i - 1]);
                }
            }
        }
    }
}

/// The tokens without a last one that is whitespace.
spec fn trim_end(tokens: Seq<Token>) -> Seq<Token> {
    if tokens.len() > 0 && tokens.last().kind is Whitespace {
        tokens.drop_last()
    } else {
        tokens
    }
}

/// Collapsing takes from tokens whose whitespace is single spaces between
/// other characters nothing but a space at the end.
proof fn lemma_collapse_of_spaced_singly(tokens: Seq<Token>)
    requires
        spaced_singly(kinds(tokens)),
    ensures
        kinds(collapse(tokens)) == kinds(trim_end(tokens)),
    decreases tokens.len(),
{
    if tokens.len() == 0 {
        assert(kinds(collapse(tokens)) =~= kinds(trim_end(tokens)));
    } else {
        let init = tokens.drop_last();
        let last = tokens.last();
        assert forall|i: int| 0 <= i < kinds(init).len() && (#[trigger] kinds(init)[i])
            is Whitespace implies kinds(init)[i] == CharType::Whitespace(0x20) && i > 0 && !(kinds(
            init,
        )[i - 1] is Whitespace) by {
            assert(kinds(init)[i] == kinds(tokens)[i]);
            if i > 0 {
                assert(kinds(init)[i - 1] == kinds(tokens)[i - 1]);
            }
        }
        lemma_collapse_of_spaced_singly(init);
        let before = collapse(init);
        let all = collapse(tokens);
        assert(kinds(before).len() == before.len());
        assert(kinds(trim_end(init)).len() == trim_end(init).len());
        assert(kinds(tokens)[tokens.len() - 1] == last.kind);
        if init.len() > 0 {
            assert(kinds(tokens)[init.len() - 1] == init.last().kind);
        }
        if last.kind is Whitespace {
            assert(trim_end(init) == init);
            assert(trim_end(tokens) == init);
        } else if init.len() > 0 && init.last().kind is Whitespace {
            assert(trim_end(init) == init.drop_last());
            if before.len() == 0 {
                assert(init.len() == 1);
                assert(kinds(tokens)[0] is Whitespace);
            }
            assert(kinds(all) =~= kinds(tokens)) by {
                assert(all.len() == tokens.len());
                assert forall|i: int| 0 <= i < all.len() implies all[i].kind == tokens[i].kind by {
                    if i < before.len() {
                        assert(kinds(before)[i] == kinds(init.drop_last())[i]);
                    }
                }
            }
        } else {
            assert(trim_end(init) == init);
            assert(kinds(all) =~= kinds(tokens)) by {
                assert(all.len() == tokens.len());
                assert forall|i: int| 0 <= i < all.len() implies all[i].kind == tokens[i].kind by {
                    if i < before.len() {
                        assert(kinds(before)[i] == kinds(init)[i]);
                    }
                }
            }
        }
    }
}

/// Characters of the same kinds, none of which holds bytes of its own, are
/// written alike.
proof fn lemma_body_by_kinds(
    first: Seq<Token>,
    second: Seq<Token>,
    delimiter: DelimiterType,
    total: int,
)
    requires
        kinds(first) == kinds(second),
        forall|i: int|
            0 <= i < first.len() ==> !((#[trigger] first[i]).kind is MalformedEntity) && !(
            first[i].kind is DecodedNonAscii),
    ensures
        body(first, delimiter, total) == body(second, delimiter, total),
    decreases first.len(),
{
    assert(kinds(first).len() == first.len());
    assert(kinds(second).len() == second.len());
    if first.len() > 0 {
        assert(kinds(first.drop_last()) =~= kinds(second.drop_last())) by {
            assert forall|i: int| 0 <= i < first.len() - 1 implies first.drop_last()[i].kind
                == second.drop_last()[i].kind by {
                assert(kinds(first)[i] == first[i].kind);
                assert(kinds(second)[i] == second[i].kind);
            }
        }
        assert forall|i: int| 0 <= i < first.drop_last().len() implies !((
        #[trigger] first.drop_last()[i]).kind is MalformedEntity) && !(first.drop_last()[i].kind
            is DecodedNonAscii) by {
            assert(first.drop_last()[i] == first[i]);
        }
        lemma_body_by_kinds(first.drop_last(), second.drop_last(), delimiter, total);
        assert(kinds(first)[first.len() - 1] == first.last().kind);
        assert(kinds(second)[first.len() - 1] == second.last().kind);
        assert(first.last() == first[first.len() - 1]);
    }
}

/// What the characters that tokens denote are like, where a scan can find
/// the tokens: no fewer than the tokens, none a reference, with the same
/// quotes and whitespace in them, and alike at both ends.
proof fn lemma_denoted_shape(tokens: Seq<Token>)
    requires
        scannable(tokens),
    ensures
        denoted(tokens).len() >= tokens.len(),
        forall|i: int|
            0 <= i < denoted(tokens).len() ==> !((#[trigger] denoted(tokens)[i])
                is DecodedNonAscii),
        (forall|j: int| 0 <= j < tokens.len() ==> !((#[trigger] tokens[j]).kind is MalformedEntity))
            ==> forall|i: int|
            0 <= i < denoted(tokens).len() ==> !((#[trigger] denoted(tokens)[i])
                is MalformedEntity),
        double_quotes(denoted(tokens)) == double_quotes(kinds(tokens)),
        single_quotes(denoted(tokens)) == single_quotes(kinds(tokens)),
        whitespaces(denoted(tokens)) == whitespaces(kinds(tokens)),
        whitespace_encoded_len(denoted(tokens)) == whitespace_encoded_len(kinds(tokens)),
        tokens.len() > 0 ==> {
            &&& denoted(tokens).first().is_quote() == tokens.first().kind.is_quote()
            &&& (denoted(tokens).last() is RightChevron) == (tokens.last().kind is RightChevron)
            &&& (denoted(tokens).last() is Whitespace) == (tokens.last().kind is Whitespace)
        },
    decreases tokens.len(),
{
    assert(kinds(tokens).len() == tokens.len());
    if tokens.len() > 0 {
        let init = tokens.drop_last();
        let last = tokens.last();
        assert forall|i: int| 0 <= i < init.len() implies scannable_token(#[trigger] init[i]) by {
            assert(init[i] == tokens[i]);
        }
        lemma_denoted_shape(init);
        assert(scannable_token(tokens[tokens.len() - 1]));
        let before = denoted(init);
        let all = denoted(tokens);
        assert(kinds(tokens).drop_last() =~= kinds(init));
        assert(kinds(tokens).last() == last.kind);
        if last.kind is DecodedNonAscii {
            lemma_tallies_of_bytes(before, last.literal);
        } else {
            assert(all =~= before.push(last.kind));
            assert(all.drop_last() =~= before);
        }
        if init.len() > 0 {
            assert(all.first() == before.first());
            assert(init.first() == tokens.first());
        }
        if forall|j: int| 0 <= j < tokens.len() ==> !((#[trigger] tokens[j]).kind
            is MalformedEntity) {
            assert forall|j: int| 0 <= j < init.len() implies !((#[trigger] init[j]).kind
                is MalformedEntity) by {
                assert(init[j] == tokens[j]);
            }
            assert(!(tokens[tokens.len() - 1].kind is MalformedEntity));
        }
    }
}

/// The kinds of one plain character for each of `bytes`.
spec fn byte_kinds(bytes: Seq<u8>) -> Seq<CharType> {
    Seq::new(bytes.len(), |i: int| CharType::Normal(bytes[i]))
}

/// Plain bytes add nothing to the counts.
proof fn lemma_tallies_of_bytes(kinds: Seq<CharType>, bytes: Seq<u8>)
    ensures
        double_quotes(kinds + byte_kinds(bytes)) == double_quotes(kinds),
        single_quotes(kinds + byte_kinds(bytes)) == single_quotes(kinds),
        whitespaces(kinds + byte_kinds(bytes)) == whitespaces(kinds),
        whitespace_encoded_len(kinds + byte_kinds(bytes)) == whitespace_encoded_len(kinds),
    decreases bytes.len(),
{
    let all = kinds + byte_kinds(bytes);
    if bytes.len() == 0 {
        assert(all =~= kinds);
    } else {
        lemma_tallies_of_bytes(kinds, bytes.drop_last());
        assert(all.drop_last() =~= kinds + byte_kinds(bytes.drop_last()));
        assert(all.last() == CharType::Normal(bytes.last()));
    }
}

/// What tokens denote costs what the tokens cost, under each delimiter.
proof fn lemma_denoted_costs(tokens: Seq<Token>)
    requires
        scannable(tokens),
    ensures
        forall|delimiter: DelimiterType| #[trigger]
            cost(denoted(tokens), delimiter) == cost(kinds(tokens), delimiter),
        optimal_delimiter(denoted(tokens)) == optimal_delimiter(kinds(tokens)),
{
    lemma_denoted_shape(tokens);
    assert(kinds(tokens).len() == tokens.len());
    if tokens.len() > 0 {
        assert(kinds(tokens).first() == tokens.first().kind);
        assert(kinds(tokens).last() == tokens.last().kind);
    }
    assert(cost(denoted(tokens), DelimiterType::Double) == cost(
        kinds(tokens),
        DelimiterType::Double,
    ));
    assert(cost(denoted(tokens), DelimiterType::Single) == cost(
        kinds(tokens),
        DelimiterType::Single,
    ));
    assert(cost(denoted(tokens), DelimiterType::Unquoted) == cost(
        kinds(tokens),
        DelimiterType::Unquoted,
    ));
}

/// What collapsed tokens denote has whitespace only as single spaces
/// between other characters.
proof fn lemma_denoted_spaced_singly(tokens: Seq<Token>)
    requires
        scannable(tokens),
        spaced_singly(kinds(tokens)),
    ensures
        spaced_singly(denoted(tokens)),
    decreases tokens.len(),
{
    assert(kinds(tokens).len() == tokens.len());
    if tokens.len() > 0 {
        let init = tokens.drop_last();
        let last = tokens.last();
        assert forall|i: int| 0 <= i < init.len() implies scannable_token(#[trigger] init[i]) by {
            assert(init[i] == tokens[i]);
        }
        assert forall|i: int| 0 <= i < kinds(init).len() && (#[trigger] kinds(init)[i])
            is Whitespace implies kinds(init)[i] == CharType::Whitespace(0x20) && i > 0 && !(kinds(
            init,
        )[i - 1] is Whitespace) by {
            assert(kinds(init)[i] == kinds(tokens)[i]);
            if i > 0 {
                assert(kinds(init)[i - 1] == kinds(tokens)[i - 1]);
            }
        }
        lemma_denoted_spaced_singly(init);
        lemma_denoted_shape(init);
        let before = denoted(init);
        let all = denoted(tokens);
        assert(kinds(tokens)[tokens.len() - 1] == last.kind);
        if init.len() > 0 {
            assert(kinds(tokens)[init.len() - 1] == init.last().kind);
        }
        assert forall|i: int| 0 <= i < all.len() && (#[trigger] all[i]) is Whitespace implies all[i]
            == CharType::Whitespace(0x20) && i > 0 && !(all[i - 1] is Whitespace) by {
            if i < before.len() {
                assert(all[i] == before[i]);
                if i > 0 {
                    assert(all[i - 1] == before[i - 1]);
                }
            } else if i > 0 {
                if i == before.len() {
                    assert(all[i - 1] == before.last());
                }
            }
        }
    }
}

/// One token of each of `kinds`, none with bytes of its own.
spec fn plain_tokens(kinds: Seq<CharType>) -> Seq<Token> {
    Seq::new(kinds.len(), |i: int| Token { kind: kinds[i], width: 1, literal: Seq::empty() })
}

/// Plain bytes are written as they are.
proof fn lemma_body_of_bytes(
    tokens: Seq<Token>,
    bytes: Seq<u8>,
    delimiter: DelimiterType,
    total: int,
)
    ensures
        body(tokens + plain_tokens(byte_kinds(bytes)), delimiter, total) == body(
            tokens,
            delimiter,
            total,
        ) + bytes,
    decreases bytes.len(),
{
    let all = tokens + plain_tokens(byte_kinds(bytes));
    if bytes.len() == 0 {
        assert(all =~= tokens);
        assert(body(tokens, delimiter, total) + bytes =~= body(tokens, delimiter, total));
    } else {
        lemma_body_of_bytes(tokens, bytes.drop_last(), delimiter, total);
        assert(all.drop_last() =~= tokens + plain_tokens(byte_kinds(bytes.drop_last())));
        assert(all.last().kind == CharType::Normal(bytes.last()));
        assert(body(tokens, delimiter, total) + bytes.drop_last() + seq![bytes.last()] =~= body(
            tokens,
            delimiter,
            total,
        ) + bytes);
    }
}

/// What tokens denote is written as the tokens are, where none is a
/// malformed reference and, without quotes, none a right chevron.
proof fn lemma_body_of_denoted(
    tokens: Seq<Token>,
    delimiter: DelimiterType,
    total: int,
    denoted_total: int,
)
    requires
        scannable(tokens),
        forall|i: int|
            0 <= i < tokens.len() ==> !((#[trigger] tokens[i]).kind is MalformedEntity) && !(
            delimiter is Unquoted && tokens[i].kind is RightChevron),
    ensures
        body(plain_tokens(denoted(tokens)), delimiter, denoted_total) == body(
            tokens,
            delimiter,
            total,
        ),
    decreases tokens.len(),
{
    if tokens.len() == 0 {
        assert(plain_tokens(denoted(tokens)) =~= Seq::<Token>::empty());
    } else {
        let init = tokens.drop_last();
        let last = tokens.last();
        assert forall|i: int| 0 <= i < init.len() implies scannable_token(#[trigger] init[i]) && !(
        init[i].kind is MalformedEntity) && !(delimiter is Unquoted && init[i].kind
            is RightChevron) by {
            assert(init[i] == tokens[i]);
        }
        lemma_body_of_denoted(init, delimiter, total, denoted_total);
        lemma_denoted_shape(init);
        assert(scannable_token(tokens[tokens.len() - 1]));
        let before = plain_tokens(denoted(init));
        let all = plain_tokens(denoted(tokens));
        if last.kind is DecodedNonAscii {
            assert(all =~= before + plain_tokens(byte_kinds(last.literal)));
            lemma_body_of_bytes(before, last.literal, delimiter, denoted_total);
        } else {
            let plain = Token { kind: last.kind, width: 1, literal: Seq::empty() };
            assert(all =~= before.push(plain));
            assert(all.drop_last() =~= before);
            assert(emitted(plain, before.len() as int, denoted_total, delimiter) == emitted(
                last,
                init.len() as int,
                total,
                delimiter,
            ));
        }
    }
}

/// What tokens denote is written as the tokens are, where they read back.
proof fn lemma_body_of_denoted_whole(tokens: Seq<Token>, delimiter: DelimiterType)
    requires
        scannable(tokens),
        reads_back(tokens, delimiter),
    ensures
        body(plain_tokens(denoted(tokens)), delimiter, denoted(tokens).len() as int) == body(
            tokens,
            delimiter,
            tokens.len() as int,
        ),
{
    let total = tokens.len() as int;
    let denoted_total = denoted(tokens).len() as int;
    if delimiter is Unquoted && tokens.len() > 0 && tokens.last().kind is RightChevron {
        let init = tokens.drop_last();
        let last = tokens.last();
        assert forall|i: int| 0 <= i < init.len() implies scannable_token(#[trigger] init[i]) && !(
        init[i].kind is MalformedEntity) && !(delimiter is Unquoted && init[i].kind
            is RightChevron) by {
            assert(init[i] == tokens[i]);
        }
        lemma_body_of_denoted(init, delimiter, total, denoted_total);
        let before = plain_tokens(denoted(init));
        let all = plain_tokens(denoted(tokens));
        let plain = Token { kind: last.kind, width: 1, literal: Seq::empty() };
        assert(all =~= before.push(plain));
        assert(all.drop_last() =~= before);
    } else {
        assert forall|i: int| 0 <= i < tokens.len() implies !((#[trigger] tokens[i]).kind
            is MalformedEntity) && !(delimiter is Unquoted && tokens[i].kind is RightChevron) by {
            if delimiter is Unquoted && tokens[i].kind is RightChevron {
                assert(tokens.last() == tokens[tokens.len() - 1]);
            }
        }
        lemma_body_of_denoted(tokens, delimiter, total, denoted_total);
    }
}

/// Idempotence: where the value at the start of `source` is written in its
/// cheapest form and something that ends a value follows, writing the
/// output in its cheapest form, under the same choice of collapsing, gives
/// the same bytes again. This holds of a decoder that reads this library's
/// escaped forms, and of values whose characters all read back.
pub proof fn lemma_minified_idempotent<E: EntityDecoder>(
    decoder: &E,
    source: Seq<u8>,
    should_collapse_and_trim_ws: bool,
    tail: Seq<u8>,
)
    requires
        reads_escapes(decoder),
        value_tokens(decoder, source) matches Some(raw) && reads_back(
            logical(raw, should_collapse_and_trim_ws),
            chosen_delimiter(raw, should_collapse_and_trim_ws),
        ) && (chosen_delimiter(raw, should_collapse_and_trim_ws) is Unquoted ==> tail.len() > 0
            && ends_value(None, tail[0])),
    ensures
        value_tokens(
            decoder,
            minified(value_tokens(decoder, source)->0, should_collapse_and_trim_ws) + tail,
        ) matches Some(again) && minified(again, should_collapse_and_trim_ws) == minified(
            value_tokens(decoder, source)->0,
            should_collapse_and_trim_ws,
        ),
{
    let raw = value_tokens(decoder, source)->0;
    let chars = logical(raw, should_collapse_and_trim_ws);
    let delimiter = chosen_delimiter(raw, should_collapse_and_trim_ws);
    let out = minified(raw, should_collapse_and_trim_ws);
    lemma_minified_round_trip(decoder, source, should_collapse_and_trim_ws, tail);
    let again = value_tokens(decoder, out + tail)->0;
    let chars_again = logical(again, should_collapse_and_trim_ws);
    let src_len = if source_delimiter(source) is Some {
        1int
    } else {
        0int
    };
    lemma_scan_scannable(decoder, source.skip(src_len), source_delimiter(source));
    if should_collapse_and_trim_ws {
        lemma_collapse_scannable(raw);
    }
    lemma_denoted_shape(chars);
    lemma_denoted_costs(chars);
    assert(kinds(chars).len() == chars.len());
    assert(kinds(again).len() == again.len());
    // What is read again collapses to itself.
    if should_collapse_and_trim_ws {
        lemma_collapse_is_spaced_singly(raw);
        lemma_denoted_spaced_singly(chars);
        lemma_collapse_of_spaced_singly(again);
        if again.len() > 0 {
            assert(kinds(again)[again.len() - 1] == again.last().kind);
            assert(kinds(chars)[chars.len() - 1] == chars.last().kind);
        }
        assert(trim_end(again) == again);
    }
    assert(kinds(chars_again) == denoted(chars));
    assert(kinds(chars_again).len() == chars_again.len());
    // It is written as what the source denoted is.
    let plain = plain_tokens(denoted(chars));
    assert(kinds(plain) =~= denoted(chars));
    assert forall|i: int| 0 <= i < plain.len() implies !((#[trigger] plain[i]).kind
        is MalformedEntity) && !(plain[i].kind is DecodedNonAscii) by {
        assert(plain[i].kind == denoted(chars)[i]);
    }
    lemma_body_by_kinds(plain, chars_again, delimiter, chars_again.len() as int);
    lemma_body_of_denoted_whole(chars, delimiter);
}

/// Whether each of `tokens` took a byte or more, and holds no more bytes of
/// its own than it took, or than a character's encoding has.
spec fn sized(tokens: Seq<Token>) -> bool {
    forall|i: int|
        0 <= i < tokens.len() ==> {
            let token = #[trigger] tokens[i];
            &&& token.width >= 1
            &&& token.kind is MalformedEntity ==> token.literal.len() <= token.width
            &&& token.kind is DecodedNonAscii ==> token.literal.len() <= 4
        }
}

proof fn lemma_scan_sized<E: EntityDecoder>(decoder: &E, text: Seq<u8>, delimiter: Option<u8>)
    requires
        scan(decoder, text, delimiter) is Some,
    ensures
        sized(scan(decoder, text, delimiter)->0),
    decreases text.len(),
{
    if !ends_value(delimiter, text[0]) {
        let token = next_token(decoder, text);
        let rest = scan(decoder, text.skip(token.width), delimiter)->0;
        lemma_scan_sized(decoder, text.skip(token.width), delimiter);
        let all = seq![token] + rest;
        assert forall|i: int| 0 <= i < all.len() implies {
            let t = #[trigger] all[i];
            &&& t.width >= 1
            &&& t.kind is MalformedEntity ==> t.literal.len() <= t.width
            &&& t.kind is DecodedNonAscii ==> t.literal.len() <= 4
        } by {
            if i > 0 {
                assert(all[i] == rest[i - 1]);
            }
        }
    }
}

/// What is written for the first tokens of a value is at most five times
/// as long as what they took, less five where a run of whitespace waits.
proof fn lemma_body_bounded(
    raw: Seq<Token>,
    should_collapse_and_trim_ws: bool,
    delimiter: DelimiterType,
    total: int,
)
    requires
        sized(raw),
    ensures
        raw.len() <= widths(raw),
        body(logical(raw, should_collapse_and_trim_ws), delimiter, total).len() + (
        if should_collapse_and_trim_ws && raw.len() > 0 && raw.last().kind is Whitespace {
            5int
        } else {
            0int
        }) <= 5 * widths(raw),
    decreases raw.len(),
{
    if raw.len() > 0 {
        let init = raw.drop_last();
        let last = raw.last();
        assert forall|i: int| 0 <= i < init.len() implies {
            let t = #[trigger] init[i];
            &&& t.width >= 1
            &&& t.kind is MalformedEntity ==> t.literal.len() <= t.width
            &&& t.kind is DecodedNonAscii ==> t.literal.len() <= 4
        } by {
            assert(init[i] == raw[i]);
        }
        lemma_body_bounded(init, should_collapse_and_trim_ws, delimiter, total);
        assert(init.push(last) =~= raw);
        assert(last == raw[raw.len() - 1]);
        lemma_widths_push(init, last);
        lemma_body_next(init, last, should_collapse_and_trim_ws, delimiter, total);
    }
}

/// The first tokens of a value took no more than all of them.
proof fn lemma_widths_take(raw: Seq<Token>, k: int)
    requires
        sized(raw),
        0 <= k <= raw.len(),
    ensures
        0 <= widths(raw.take(k)) <= widths(raw),
    decreases raw.len() - k,
{
    if k == raw.len() {
        assert(raw.take(k) =~= raw);
        lemma_body_bounded(raw, false, DelimiterType::Double, 0);
    } else {
        lemma_widths_take(raw, k + 1);
        assert(raw.take(k + 1).drop_last() =~= raw.take(k));
        assert(raw.take(k + 1).last() == raw[k]);
        assert forall|i: int| 0 <= i < raw.take(k).len() implies {
            let t = #[trigger] raw.take(k)[i];
            &&& t.width >= 1
            &&& t.kind is MalformedEntity ==> t.literal.len() <= t.width
            &&& t.kind is DecodedNonAscii ==> t.literal.len() <= 4
        } by {
            assert(raw.take(k)[i] == raw[i]);
        }
        lemma_body_bounded(raw.take(k), false, DelimiterType::Double, 0);
    }
}

/// Room enough: a value can be written in place wherever the cursors lie
/// apart by four times the bytes still unread, and two.
pub proof fn lemma_value_fits<E: EntityDecoder>(
    decoder: &E,
    text: Seq<u8>,
    should_collapse_and_trim_ws: bool,
    slack: int,
)
    requires
        value_tokens(decoder, text) is Some,
        slack >= 4 * text.len() + 2,
    ensures
        value_fits(text, value_tokens(decoder, text)->0, should_collapse_and_trim_ws, slack),
{
    let raw = value_tokens(decoder, text)->0;
    let chars = logical(raw, should_collapse_and_trim_ws);
    let delimiter = chosen_delimiter(raw, should_collapse_and_trim_ws);
    let total = chars.len() as int;
    let opened = delimiter_len(source_delimiter(text));
    let inner = text.skip(opened);
    lemma_scan_sized(decoder, inner, source_delimiter(text));
    lemma_scan_ends(decoder, inner, source_delimiter(text));
    let room = slack + opened - delimiter_bytes(delimiter).len();
    assert forall|k: int| 0 <= k <= raw.len() implies (#[trigger] body(
        logical(raw.take(k), should_collapse_and_trim_ws),
        delimiter,
        total,
    )).len() <= room + widths(raw.take(k)) by {
        lemma_widths_take(raw, k);
        assert forall|i: int| 0 <= i < raw.take(k).len() implies {
            let t = #[trigger] raw.take(k)[i];
            &&& t.width >= 1
            &&& t.kind is MalformedEntity ==> t.literal.len() <= t.width
            &&& t.kind is DecodedNonAscii ==> t.literal.len() <= 4
        } by {
            assert(raw.take(k)[i] == raw[i]);
        }
        lemma_body_bounded(raw.take(k), should_collapse_and_trim_ws, delimiter, total);
    }
    lemma_body_bounded(raw, should_collapse_and_trim_ws, delimiter, total);
}

} // verus!
