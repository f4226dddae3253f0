//! What an attribute value is: its tokens as a scan finds them, its
//! characters after whitespace is collapsed, and the bytes that stand for
//! them in the output.

use vstd::prelude::*;
use vstd::utf8::encode_scalar;
use crate::proc::attr::quoted::{
    optimal_delimiter, spec_encoded, spec_is_attr_quote, spec_is_unquoted_delimiter, CharType,
    DelimiterType,
};
use crate::proc::entity::{EntityDecoder, EntityRef};

verus! {

/// One character of a value as a scan finds it.
pub ghost struct Token {
    pub kind: CharType,
    /// How many source bytes it took.
    pub width: int,
    /// For a reference that is malformed or denotes a character outside
    /// ASCII, the bytes that stand for it in the output whatever the
    /// delimiter: its own bytes, or the character's UTF-8 encoding.
    pub literal: Seq<u8>,
}

/// Whether `c` ends a value whose source delimiter is `delimiter`: the same
/// quote, or for a value without quotes whitespace or a right chevron.
pub open spec fn ends_value(delimiter: Option<u8>, c: u8) -> bool {
    match delimiter {
        Some(quote) => c == quote,
        None => spec_is_unquoted_delimiter(c),
    }
}

/// The token that a reference at the start of `text` makes.
pub open spec fn entity_token(found: EntityRef, text: Seq<u8>) -> Token {
    match found.value {
        Some(scalar) => if scalar <= 0x7f {
            Token {
                kind: CharType::spec_from_char(scalar as u8),
                width: found.len as int,
                literal: Seq::empty(),
            }
        } else {
            Token {
                kind: CharType::DecodedNonAscii,
                width: found.len as int,
                literal: encode_scalar(scalar),
            }
        },
        None => Token {
            kind: CharType::MalformedEntity,
            width: found.len as int,
            literal: text.subrange(0, found.len as int),
        },
    }
}

/// The token at the start of `text`, which is not empty: a reference where
/// it starts with an ampersand, else one byte.
pub open spec fn next_token<E: EntityDecoder>(decoder: &E, text: Seq<u8>) -> Token {
    if text[0] == 0x26 {
        entity_token(decoder.reference(text), text)
    } else {
        Token { kind: CharType::spec_from_char(text[0]), width: 1, literal: Seq::empty() }
    }
}

/// The tokens of the value at the start of `text`, up to the byte that ends
/// it; none where the text ends before the value does.
pub open spec fn scan<E: EntityDecoder>(decoder: &E, text: Seq<u8>, delimiter: Option<u8>) -> Option<
    Seq<Token>,
>
    decreases text.len(),
{
    if text.len() == 0 {
        None
    } else if ends_value(delimiter, text[0]) {
        Some(Seq::empty())
    } else {
        let token = next_token(decoder, text);
        if 1 <= token.width <= text.len() {
            match scan(decoder, text.skip(token.width), delimiter) {
                Some(rest) => Some(seq![token] + rest),
                None => None,
            }
        } else {
            None
        }
    }
}

/// The one space that stands for a run of whitespace inside a value.
pub open spec fn space_token() -> Token {
    Token { kind: CharType::Whitespace(0x20), width: 0, literal: Seq::empty() }
}

/// `raw` with whitespace trimmed from both ends and every run of whitespace
/// inside made one space.
pub open spec fn collapse(raw: Seq<Token>) -> Seq<Token>
    decreases raw.len(),
{
    if raw.len() == 0 {
        Seq::empty()
    } else {
        let before = collapse(raw.drop_last());
        let last = raw.last();
        if last.kind is Whitespace {
            before
        } else if before.len() > 0 && raw.len() >= 2 && raw[raw.len() - 2].kind is Whitespace {
            before.push(space_token()).push(last)
        } else {
            before.push(last)
        }
    }
}

/// The characters that `raw` amounts to.
pub open spec fn logical(raw: Seq<Token>, should_collapse_and_trim_ws: bool) -> Seq<Token> {
    if should_collapse_and_trim_ws {
        collapse(raw)
    } else {
        raw
    }
}

/// The kinds of `tokens`, in order.
pub open spec fn kinds(tokens: Seq<Token>) -> Seq<CharType> {
    Seq::new(tokens.len(), |i: int| tokens[i].kind)
}

/// How many source bytes `tokens` took.
pub open spec fn widths(tokens: Seq<Token>) -> int
    decreases tokens.len(),
{
    if tokens.len() == 0 {
        0
    } else {
        widths(tokens.drop_last()) + tokens.last().width
    }
}

/// The bytes that stand in the output for the character `token`, the
/// `index`th of `total`, under `delimiter`.
pub open spec fn emitted(token: Token, index: int, total: int, delimiter: DelimiterType) -> Seq<
    u8,
> {
    match token.kind {
        CharType::End => Seq::empty(),
        CharType::MalformedEntity => token.literal,
        CharType::DecodedNonAscii => token.literal,
        CharType::Normal(c) => seq![c],
        // Without quotes, whitespace is escaped wherever it stands.
        CharType::Whitespace(c) => if delimiter is Unquoted {
            spec_encoded(c)
        } else {
            seq![c]
        },
        // Between single quotes a single quote is escaped wherever it
        // stands; without quotes, where it comes first.
        CharType::SingleQuote => if delimiter is Single || (delimiter is Unquoted && index == 0) {
            spec_encoded(0x27)
        } else {
            seq![0x27u8]
        },
        CharType::DoubleQuote => if delimiter is Double || (delimiter is Unquoted && index == 0) {
            spec_encoded(0x22)
        } else {
            seq![0x22u8]
        },
        // Without quotes, a right chevron is escaped where it comes last.
        CharType::RightChevron => if delimiter is Unquoted && index == total - 1 {
            spec_encoded(0x3e)
        } else {
            seq![0x3eu8]
        },
    }
}

/// The bytes that stand in the output for `tokens`, the first characters of
/// a value of `total`, under `delimiter`.
pub open spec fn body(tokens: Seq<Token>, delimiter: DelimiterType, total: int) -> Seq<u8>
    decreases tokens.len(),
{
    if tokens.len() == 0 {
        Seq::empty()
    } else {
        body(tokens.drop_last(), delimiter, total) + emitted(
            tokens.last(),
            tokens.len() - 1,
            total,
            delimiter,
        )
    }
}

/// Whether the output of `raw` never overtakes its input where `slack`
/// bytes lie between the two cursors at the start: after each token read,
/// what has been written for the tokens so far is no longer than the slack
/// and what has been read.
pub open spec fn fits(
    raw: Seq<Token>,
    should_collapse_and_trim_ws: bool,
    delimiter: DelimiterType,
    total: int,
    slack: int,
) -> bool {
    forall|k: int|
        0 <= k <= raw.len() ==> (#[trigger] body(
            logical(raw.take(k), should_collapse_and_trim_ws),
            delimiter,
            total,
        )).len() <= slack + widths(raw.take(k))
}

/// What is written for a character and, where `spaced`, for the space that
/// stands before it for a run of whitespace.
pub open spec fn emitted_spaced(
    token: Token,
    spaced: bool,
    index: int,
    total: int,
    delimiter: DelimiterType,
) -> Seq<u8> {
    if spaced {
        emitted(space_token(), index, total, delimiter) + emitted(
            token,
            index + 1,
            total,
            delimiter,
        )
    } else {
        emitted(token, index, total, delimiter)
    }
}

/// One more token read lengthens what was read by its width.
pub proof fn lemma_widths_push(tokens: Seq<Token>, token: Token)
    ensures
        widths(tokens.push(token)) == widths(tokens) + token.width,
{
    assert(tokens.push(token).drop_last() =~= tokens);
}

/// One more character lengthens the output by what is written for it.
pub proof fn lemma_body_push(tokens: Seq<Token>, token: Token, delimiter: DelimiterType, total: int)
    ensures
        body(tokens.push(token), delimiter, total) == body(tokens, delimiter, total) + emitted(
            token,
            tokens.len() as int,
            total,
            delimiter,
        ),
{
    assert(tokens.push(token).drop_last() =~= tokens);
}

/// What one more token read adds to the characters of a value.
pub proof fn lemma_logical_push(raw: Seq<Token>, token: Token, should_collapse_and_trim_ws: bool)
    ensures
        logical(raw.push(token), should_collapse_and_trim_ws) == if should_collapse_and_trim_ws
            && token.kind is Whitespace {
            logical(raw, should_collapse_and_trim_ws)
        } else if should_collapse_and_trim_ws && raw.len() > 0 && raw.last().kind is Whitespace
            && logical(raw, should_collapse_and_trim_ws).len() > 0 {
            logical(raw, should_collapse_and_trim_ws).push(space_token()).push(token)
        } else {
            logical(raw, should_collapse_and_trim_ws).push(token)
        },
{
    let next = raw.push(token);
    assert(next.drop_last() =~= raw);
    if raw.len() > 0 {
        assert(next[next.len() - 2] == raw.last());
    }
}

/// What the characters of a value come to when one more token is read.
pub proof fn lemma_body_next(
    raw: Seq<Token>,
    token: Token,
    should_collapse_and_trim_ws: bool,
    delimiter: DelimiterType,
    total: int,
)
    ensures
        ({
            let chars = logical(raw, should_collapse_and_trim_ws);
            let chars_next = logical(raw.push(token), should_collapse_and_trim_ws);
            let spaced = should_collapse_and_trim_ws && raw.len() > 0 && raw.last().kind is Whitespace
                && chars.len() > 0;
            if should_collapse_and_trim_ws && token.kind is Whitespace {
                chars_next == chars
            } else {
                &&& chars_next.len() == chars.len() + if spaced {
                    2int
                } else {
                    1int
                }
                &&& body(chars_next, delimiter, total) == body(chars, delimiter, total)
                    + emitted_spaced(token, spaced, chars.len() as int, total, delimiter)
                &&& kinds(chars_next) == if spaced {
                    kinds(chars).push(CharType::Whitespace(0x20)).push(token.kind)
                } else {
                    kinds(chars).push(token.kind)
                }
            }
        }),
{
    let chars = logical(raw, should_collapse_and_trim_ws);
    let chars_next = logical(raw.push(token), should_collapse_and_trim_ws);
    let spaced = should_collapse_and_trim_ws && raw.len() > 0 && raw.last().kind is Whitespace
        && chars.len() > 0;
    lemma_logical_push(raw, token, should_collapse_and_trim_ws);
    if !(should_collapse_and_trim_ws && token.kind is Whitespace) {
        if spaced {
            lemma_body_push(chars, space_token(), delimiter, total);
            lemma_body_push(chars.push(space_token()), token, delimiter, total);
            assert(body(chars_next, delimiter, total) =~= body(chars, delimiter, total)
                + emitted_spaced(token, spaced, chars.len() as int, total, delimiter));
            assert(kinds(chars_next) =~= kinds(chars).push(CharType::Whitespace(0x20)).push(
                token.kind,
            ));
        } else {
            lemma_body_push(chars, token, delimiter, total);
            assert(kinds(chars_next) =~= kinds(chars).push(token.kind));
        }
    }
}

/// One more token read has room where the tokens before it had, and what
/// is written up to it is no longer than the slack and what has been read.
pub proof fn lemma_fits_push(
    raw: Seq<Token>,
    token: Token,
    should_collapse_and_trim_ws: bool,
    delimiter: DelimiterType,
    total: int,
    slack: int,
)
    ensures
        fits(raw.push(token), should_collapse_and_trim_ws, delimiter, total, slack) == (fits(
            raw,
            should_collapse_and_trim_ws,
            delimiter,
            total,
            slack,
        ) && body(
            logical(raw.push(token), should_collapse_and_trim_ws),
            delimiter,
            total,
        ).len() <= slack + widths(raw.push(token))),
{
    let next = raw.push(token);
    assert(next.take(next.len() as int) =~= next);
    assert forall|k: int| 0 <= k <= raw.len() implies next.take(k) == raw.take(k) by {
        assert(next.take(k) =~= raw.take(k));
    }
    if fits(next, should_collapse_and_trim_ws, delimiter, total, slack) {
        assert forall|k: int| 0 <= k <= raw.len() implies (#[trigger] body(
            logical(raw.take(k), should_collapse_and_trim_ws),
            delimiter,
            total,
        )).len() <= slack + widths(raw.take(k)) by {
            assert(body(
                logical(next.take(k), should_collapse_and_trim_ws),
                delimiter,
                total,
            ).len() <= slack + widths(next.take(k)));
        }
        assert(body(
            logical(next.take(next.len() as int), should_collapse_and_trim_ws),
            delimiter,
            total,
        ).len() <= slack + widths(next.take(next.len() as int)));
    }
    if fits(raw, should_collapse_and_trim_ws, delimiter, total, slack) && body(
        logical(next, should_collapse_and_trim_ws),
        delimiter,
        total,
    ).len() <= slack + widths(next) {
        assert forall|k: int| 0 <= k <= next.len() implies (#[trigger] body(
            logical(next.take(k), should_collapse_and_trim_ws),
            delimiter,
            total,
        )).len() <= slack + widths(next.take(k)) by {
            if k <= raw.len() {
                assert(body(
                    logical(raw.take(k), should_collapse_and_trim_ws),
                    delimiter,
                    total,
                ).len() <= slack + widths(raw.take(k)));
            }
        }
    }
}

/// Before any token is read, there is room where the slack is not
/// negative.
pub proof fn lemma_fits_none(
    should_collapse_and_trim_ws: bool,
    delimiter: DelimiterType,
    total: int,
    slack: int,
)
    ensures
        fits(Seq::empty(), should_collapse_and_trim_ws, delimiter, total, slack) == (0 <= slack),
{
    let none = Seq::<Token>::empty();
    assert(none.take(0) =~= none);
    if 0 <= slack {
        assert forall|k: int| 0 <= k <= none.len() implies (#[trigger] body(
            logical(none.take(k), should_collapse_and_trim_ws),
            delimiter,
            total,
        )).len() <= slack + widths(none.take(k)) by {
            assert(none.take(k) =~= none);
        }
    }
    if fits(none, should_collapse_and_trim_ws, delimiter, total, slack) {
        assert(body(
            logical(none.take(0), should_collapse_and_trim_ws),
            delimiter,
            total,
        ).len() <= slack + widths(none.take(0)));
    }
}

/// There is room only where the slack is not negative.
pub proof fn lemma_fits_slack(
    raw: Seq<Token>,
    should_collapse_and_trim_ws: bool,
    delimiter: DelimiterType,
    total: int,
    slack: int,
)
    ensures
        fits(raw, should_collapse_and_trim_ws, delimiter, total, slack) ==> 0 <= slack,
{
    if fits(raw, should_collapse_and_trim_ws, delimiter, total, slack) {
        assert(raw.take(0) =~= Seq::<Token>::empty());
        assert(body(
            logical(raw.take(0), should_collapse_and_trim_ws),
            delimiter,
            total,
        ).len() <= slack + widths(raw.take(0)));
    }
}

/// What `fits` grants after the tokens `done`, the first of `raw`.
pub proof fn lemma_room(
    raw: Seq<Token>,
    done: Seq<Token>,
    should_collapse_and_trim_ws: bool,
    delimiter: DelimiterType,
    total: int,
    slack: int,
)
    requires
        fits(raw, should_collapse_and_trim_ws, delimiter, total, slack),
        done.len() <= raw.len(),
        raw.take(done.len() as int) == done,
    ensures
        body(logical(done, should_collapse_and_trim_ws), delimiter, total).len() <= slack + widths(
            done,
        ),
{
    let k = done.len() as int;
    assert(body(logical(raw.take(k), should_collapse_and_trim_ws), delimiter, total).len() <= slack
        + widths(raw.take(k)));
}

/// The quote that opens the value at the start of `text`, if one does.
pub open spec fn source_delimiter(text: Seq<u8>) -> Option<u8> {
    if text.len() > 0 && spec_is_attr_quote(text[0]) {
        Some(text[0])
    } else {
        None
    }
}

/// How many bytes a delimiter takes at each end of a value.
pub open spec fn delimiter_len(delimiter: Option<u8>) -> int {
    if delimiter is Some {
        1
    } else {
        0
    }
}

/// The byte that delimits a value in the output.
pub open spec fn delimiter_char(delimiter: DelimiterType) -> Option<u8> {
    match delimiter {
        DelimiterType::Double => Some(0x22u8),
        DelimiterType::Single => Some(0x27u8),
        DelimiterType::Unquoted => None,
    }
}

/// What stands at each end of a value in the output.
pub open spec fn delimiter_bytes(delimiter: DelimiterType) -> Seq<u8> {
    match delimiter_char(delimiter) {
        Some(quote) => seq![quote],
        None => Seq::empty(),
    }
}

/// The tokens of the attribute value at the start of `text`, between its
/// delimiters; none where the text ends before the value does.
pub open spec fn value_tokens<E: EntityDecoder>(decoder: &E, text: Seq<u8>) -> Option<Seq<Token>> {
    scan(
        decoder,
        text.skip(delimiter_len(source_delimiter(text))),
        source_delimiter(text),
    )
}

/// The delimiter chosen for a value with the tokens `raw`.
pub open spec fn chosen_delimiter(raw: Seq<Token>, should_collapse_and_trim_ws: bool) -> DelimiterType {
    optimal_delimiter(kinds(logical(raw, should_collapse_and_trim_ws)))
}

/// The cheapest encoding of a value with the tokens `raw`: its characters
/// written as the chosen delimiter asks, between that delimiter.
pub open spec fn minified(raw: Seq<Token>, should_collapse_and_trim_ws: bool) -> Seq<u8> {
    let chars = logical(raw, should_collapse_and_trim_ws);
    let delimiter = chosen_delimiter(raw, should_collapse_and_trim_ws);
    delimiter_bytes(delimiter) + body(chars, delimiter, chars.len() as int) + delimiter_bytes(
        delimiter,
    )
}

/// How many source bytes the value with the tokens `raw` at the start of
/// `text` takes, delimiters included. A value without quotes has none, and
/// the byte that ends it is not part of it.
pub open spec fn source_len(text: Seq<u8>, raw: Seq<Token>) -> int {
    2 * delimiter_len(source_delimiter(text)) + widths(raw)
}

/// Whether the cheapest encoding of the value with the tokens `raw` at the
/// start of `text` can be written in place where `slack` bytes lie between
/// the cursors: at no time does the output overtake the input.
pub open spec fn value_fits(
    text: Seq<u8>,
    raw: Seq<Token>,
    should_collapse_and_trim_ws: bool,
    slack: int,
) -> bool {
    let chars = logical(raw, should_collapse_and_trim_ws);
    let delimiter = chosen_delimiter(raw, should_collapse_and_trim_ws);
    &&& fits(
        raw,
        should_collapse_and_trim_ws,
        delimiter,
        chars.len() as int,
        slack + delimiter_len(source_delimiter(text)) - delimiter_bytes(delimiter).len(),
    )
    &&& minified(raw, should_collapse_and_trim_ws).len() <= slack + source_len(text, raw)
}

/// A value that scans ends at a byte of the text.
pub proof fn lemma_scan_ends<E: EntityDecoder>(decoder: &E, text: Seq<u8>, delimiter: Option<u8>)
    requires
        scan(decoder, text, delimiter) is Some,
    ensures
        0 <= widths(scan(decoder, text, delimiter)->0) < text.len(),
        ends_value(delimiter, text[widths(scan(decoder, text, delimiter)->0)]),
    decreases text.len(),
{
    if !ends_value(delimiter, text[0]) {
        let token = next_token(decoder, text);
        let rest_text = text.skip(token.width);
        let rest = scan(decoder, rest_text, delimiter)->0;
        lemma_scan_ends(decoder, rest_text, delimiter);
        lemma_widths_prepend(token, rest);
    }
}

pub proof fn lemma_widths_prepend(token: Token, rest: Seq<Token>)
    ensures
        widths(seq![token] + rest) == token.width + widths(rest),
    decreases rest.len(),
{
    let all = seq![token] + rest;
    if rest.len() == 0 {
        assert(all.drop_last() =~= Seq::<Token>::empty());
        assert(all.last() == token);
        assert(widths(all.drop_last()) == 0);
        assert(widths(rest) == 0);
    } else {
        assert(all.drop_last() =~= seq![token] + rest.drop_last());
        assert(all.last() == rest.last());
        lemma_widths_prepend(token, rest.drop_last());
    }
}

} // verus!
