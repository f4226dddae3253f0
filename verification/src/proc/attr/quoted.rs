//! Writing an attribute value in its cheapest form: what each delimiter
//! costs, and the passes over a value that count, probe and write.

use vstd::prelude::*;
use vstd::utf8::{encode_scalar, is_scalar};
use crate::codepoint::{is_whitespace, spec_is_whitespace};
use crate::err::{ErrorType, ProcessingResult};
use crate::proc::attr::value::{
    body, chosen_delimiter, delimiter_bytes, delimiter_len, emitted, emitted_spaced, ends_value,
    fits, kinds, lemma_body_next, lemma_fits_none, lemma_fits_push, lemma_fits_slack, lemma_room,
    lemma_scan_ends,
    lemma_widths_push, logical,
    minified, next_token, scan, source_delimiter, source_len, space_token, value_fits,
    value_tokens, widths, Token,
};
use crate::proc::attr::AttrType;
use crate::proc::checkpoint::Checkpoint;
use crate::proc::entity::EntityDecoder;
use crate::proc::range::ProcessorRange;
use crate::proc::{lemma_appended_keeps, lemma_appended_twice, Processor, ProcessorView};

verus! {

pub open spec fn spec_is_double_quote(c: u8) -> bool {
    c == 0x22
}

#[verifier::when_used_as_spec(spec_is_double_quote)]
pub fn is_double_quote(c: u8) -> (r: bool)
    ensures
        r == spec_is_double_quote(c),
{
    c == 0x22
}

pub open spec fn spec_is_single_quote(c: u8) -> bool {
    c == 0x27
}

#[verifier::when_used_as_spec(spec_is_single_quote)]
pub fn is_single_quote(c: u8) -> (r: bool)
    ensures
        r == spec_is_single_quote(c),
{
    c == 0x27
}

pub open spec fn spec_is_attr_quote(c: u8) -> bool {
    spec_is_double_quote(c) || spec_is_single_quote(c)
}

/// Whether `c` may delimit an attribute value. The backtick may not.
#[verifier::when_used_as_spec(spec_is_attr_quote)]
pub fn is_attr_quote(c: u8) -> (r: bool)
    ensures
        r == spec_is_attr_quote(c),
{
    is_double_quote(c) || is_single_quote(c)
}

pub open spec fn spec_is_unquoted_delimiter(c: u8) -> bool {
    spec_is_whitespace(c) || c == 0x3e
}

/// Whether `c` ends a value that stands without quotes.
#[verifier::when_used_as_spec(spec_is_unquoted_delimiter)]
pub fn is_unquoted_delimiter(c: u8) -> (r: bool)
    ensures
        r == spec_is_unquoted_delimiter(c),
{
    is_whitespace(c) || c == 0x3e
}

/// Whether `c` has an escaped form: the quotes, the right chevron and the
/// whitespace bytes.
pub open spec fn has_encoding(c: u8) -> bool {
    c == 0x27 || c == 0x22 || c == 0x3e || spec_is_whitespace(c)
}

/// The escaped form of `c`, which has one: its decimal character reference.
pub open spec fn spec_encoded(c: u8) -> Seq<u8> {
    if c == 0x27 {
        // &#39;
        seq![0x26u8, 0x23, 0x33, 0x39, 0x3b]
    } else if c == 0x22 {
        // &#34;
        seq![0x26u8, 0x23, 0x33, 0x34, 0x3b]
    } else if c == 0x3e {
        // &#62;
        seq![0x26u8, 0x23, 0x36, 0x32, 0x3b]
    } else if c == 0x09 {
        // &#9;
        seq![0x26u8, 0x23, 0x39, 0x3b]
    } else if c == 0x0a {
        // &#10;
        seq![0x26u8, 0x23, 0x31, 0x30, 0x3b]
    } else if c == 0x0c {
        // &#12;
        seq![0x26u8, 0x23, 0x31, 0x32, 0x3b]
    } else if c == 0x0d {
        // &#13;
        seq![0x26u8, 0x23, 0x31, 0x33, 0x3b]
    } else {
        // &#32;
        seq![0x26u8, 0x23, 0x33, 0x32, 0x3b]
    }
}

/// How long the escaped form of `c` is.
pub open spec fn spec_encoded_len(c: u8) -> int {
    if c == 0x09 {
        4
    } else {
        5
    }
}

/// The escaped form of `c`.
pub fn encoded(c: u8) -> (bytes: &'static [u8])
    requires
        has_encoding(c),
    ensures
        bytes@ == spec_encoded(c),
        bytes@.len() == spec_encoded_len(c),
{
    let bytes: &'static [u8] = match c {
        0x27 => &[0x26u8, 0x23, 0x33, 0x39, 0x3b],
        0x22 => &[0x26u8, 0x23, 0x33, 0x34, 0x3b],
        0x3e => &[0x26u8, 0x23, 0x36, 0x32, 0x3b],
        0x09 => &[0x26u8, 0x23, 0x39, 0x3b],
        0x0a => &[0x26u8, 0x23, 0x31, 0x30, 0x3b],
        0x0c => &[0x26u8, 0x23, 0x31, 0x32, 0x3b],
        0x0d => &[0x26u8, 0x23, 0x31, 0x33, 0x3b],
        _ => &[0x26u8, 0x23, 0x33, 0x32, 0x3b],
    };
    assert(bytes@ =~= spec_encoded(c));
    bytes
}

/// What one character of a value is, as far as its encoding goes.
#[derive(Clone, Copy, Debug, PartialEq, Eq, Structural)]
pub enum CharType {
    /// The value has ended.
    End,
    /// A malformed reference, which stands for its own bytes.
    MalformedEntity,
    /// A reference to a character outside ASCII.
    DecodedNonAscii,
    /// A byte that needs no care, kept to be written.
    Normal(u8),
    /// A whitespace byte, kept because its escaped length depends on it.
    Whitespace(u8),
    SingleQuote,
    DoubleQuote,
    RightChevron,
}

impl CharType {
    pub open spec fn spec_from_char(c: u8) -> CharType {
        if c == 0x22 {
            CharType::DoubleQuote
        } else if c == 0x27 {
            CharType::SingleQuote
        } else if c == 0x3e {
            CharType::RightChevron
        } else if spec_is_whitespace(c) {
            CharType::Whitespace(c)
        } else {
            CharType::Normal(c)
        }
    }

    #[verifier::when_used_as_spec(spec_from_char)]
    pub fn from_char(c: u8) -> (kind: CharType)
        ensures
            kind == Self::spec_from_char(c),
    {
        match c {
            0x22 => CharType::DoubleQuote,
            0x27 => CharType::SingleQuote,
            0x3e => CharType::RightChevron,
            c => if is_whitespace(c) {
                CharType::Whitespace(c)
            } else {
                CharType::Normal(c)
            },
        }
    }

    /// A whitespace character holds a whitespace byte, and a plain one a
    /// byte that is neither whitespace nor a quote nor a right chevron.
    pub open spec fn wf(self) -> bool {
        match self {
            CharType::Whitespace(c) => spec_is_whitespace(c),
            CharType::Normal(c) => !has_encoding(c),
            _ => true,
        }
    }

    pub open spec fn is_quote(self) -> bool {
        self is SingleQuote || self is DoubleQuote
    }
}

/// How a value is delimited in the output.
#[derive(Clone, Copy, Debug, PartialEq, Eq, Structural)]
pub enum DelimiterType {
    Double,
    Single,
    Unquoted,
}

/// How many double quotes `chars` holds.
pub open spec fn double_quotes(chars: Seq<CharType>) -> int
    decreases chars.len(),
{
    if chars.len() == 0 {
        0
    } else {
        double_quotes(chars.drop_last()) + if chars.last() is DoubleQuote {
            1int
        } else {
            0int
        }
    }
}

/// How many single quotes `chars` holds.
pub open spec fn single_quotes(chars: Seq<CharType>) -> int
    decreases chars.len(),
{
    if chars.len() == 0 {
        0
    } else {
        single_quotes(chars.drop_last()) + if chars.last() is SingleQuote {
            1int
        } else {
            0int
        }
    }
}

/// How many whitespace characters `chars` holds.
pub open spec fn whitespaces(chars: Seq<CharType>) -> int
    decreases chars.len(),
{
    if chars.len() == 0 {
        0
    } else {
        whitespaces(chars.drop_last()) + if chars.last() is Whitespace {
            1int
        } else {
            0int
        }
    }
}

/// How long the whitespace of `chars` is with every character escaped.
pub open spec fn whitespace_encoded_len(chars: Seq<CharType>) -> int
    decreases chars.len(),
{
    if chars.len() == 0 {
        0
    } else {
        whitespace_encoded_len(chars.drop_last()) + match chars.last() {
            CharType::Whitespace(c) => spec_encoded_len(c),
            _ => 0int,
        }
    }
}

/// What the quotes and the whitespace of `chars` cost between double
/// quotes: every double quote is escaped.
pub open spec fn double_quoted_cost(chars: Seq<CharType>) -> int {
    double_quotes(chars) * spec_encoded_len(0x22) + single_quotes(chars) + whitespaces(chars)
}

/// What the quotes and the whitespace of `chars` cost between single
/// quotes: every single quote is escaped.
pub open spec fn single_quoted_cost(chars: Seq<CharType>) -> int {
    single_quotes(chars) * spec_encoded_len(0x27) + double_quotes(chars) + whitespaces(chars)
}

/// What escaping the first character costs a value without quotes, on top
/// of the byte that the character takes anyway: a quote there is escaped.
pub open spec fn first_char_surcharge(chars: Seq<CharType>) -> int {
    if chars.len() > 0 && chars.first().is_quote() {
        spec_encoded_len(0x22) - 1
    } else {
        0
    }
}

/// What escaping the last character costs a value without quotes: a right
/// chevron there is escaped.
pub open spec fn last_char_cost(chars: Seq<CharType>) -> int {
    if chars.len() > 0 && chars.last() is RightChevron {
        spec_encoded_len(0x3e)
    } else {
        0
    }
}

/// What the quotes, the whitespace and the last character of `chars` cost
/// without quotes: every whitespace character is escaped, a quote only where
/// it comes first, a right chevron only where it comes last.
pub open spec fn unquoted_cost(chars: Seq<CharType>) -> int {
    first_char_surcharge(chars) + double_quotes(chars) + single_quotes(chars)
        + whitespace_encoded_len(chars) + last_char_cost(chars)
}

pub open spec fn cost(chars: Seq<CharType>, delimiter: DelimiterType) -> int {
    match delimiter {
        DelimiterType::Double => double_quoted_cost(chars),
        DelimiterType::Single => single_quoted_cost(chars),
        DelimiterType::Unquoted => unquoted_cost(chars),
    }
}

/// The cheapest delimiter; of equals, double quotes before single quotes
/// before none.
pub open spec fn optimal_delimiter(chars: Seq<CharType>) -> DelimiterType {
    let double = double_quoted_cost(chars);
    let single = single_quoted_cost(chars);
    let unquoted = unquoted_cost(chars);
    if double <= single && double <= unquoted {
        DelimiterType::Double
    } else if single <= unquoted {
        DelimiterType::Single
    } else {
        DelimiterType::Unquoted
    }
}

/// The chosen delimiter costs no more than either of the others, and where
/// costs are equal double quotes win over single quotes, and these over none.
pub proof fn lemma_optimal_delimiter_is_cheapest(chars: Seq<CharType>)
    ensures
        forall|other: DelimiterType|
            cost(chars, optimal_delimiter(chars)) <= #[trigger] cost(chars, other),
        cost(chars, DelimiterType::Double) == cost(chars, optimal_delimiter(chars))
            ==> optimal_delimiter(chars) == DelimiterType::Double,
        cost(chars, DelimiterType::Single) == cost(chars, optimal_delimiter(chars))
            ==> optimal_delimiter(chars) != DelimiterType::Unquoted,
{
}

/// The counts are bounded by the number of characters.
pub proof fn lemma_counts_bounded(chars: Seq<CharType>)
    ensures
        0 <= double_quotes(chars),
        0 <= single_quotes(chars),
        0 <= whitespaces(chars),
        0 <= whitespace_encoded_len(chars),
        double_quotes(chars) + single_quotes(chars) + whitespaces(chars) <= chars.len(),
        whitespace_encoded_len(chars) <= 5 * whitespaces(chars),
        chars.len() > 0 && chars.first() is DoubleQuote ==> double_quotes(chars) >= 1,
        chars.len() > 0 && chars.first() is SingleQuote ==> single_quotes(chars) >= 1,
    decreases chars.len(),
{
    if chars.len() > 0 {
        lemma_counts_bounded(chars.drop_last());
        if chars.len() > 1 {
            assert(chars.drop_last().first() == chars.first());
        }
    }
}

/// What a scan has seen of a value: how many quotes of each kind, how much
/// whitespace and how long it would be escaped, and what came first and
/// last. Made anew for each value.
pub struct Metrics {
    count_double_quotation: usize,
    count_single_quotation: usize,
    // Counted after any trimming and collapsing of whitespace.
    count_whitespace: usize,
    // Whitespace characters differ in escaped length, so the length with
    // all of them escaped is kept too.
    total_whitespace_encoded_length: u128,
    // The first and last characters of the value, not its delimiters.
    first_char_type: Option<CharType>,
    last_char_type: Option<CharType>,
    // How many characters were collected.
    collected_count: usize,
    collected: Ghost<Seq<CharType>>,
}

impl View for Metrics {
    type V = Seq<CharType>;

    /// The characters collected, in order.
    closed spec fn view(&self) -> Seq<CharType> {
        self.collected@
    }
}

impl Metrics {
    /// The counts are those of the characters collected.
    pub closed spec fn wf(&self) -> bool {
        &&& self.count_double_quotation == double_quotes(self@)
        &&& self.count_single_quotation == single_quotes(self@)
        &&& self.count_whitespace == whitespaces(self@)
        &&& self.total_whitespace_encoded_length == whitespace_encoded_len(self@)
        &&& self.collected_count == self@.len()
        &&& self.first_char_type == if self@.len() > 0 {
            Some(self@.first())
        } else {
            None
        }
        &&& self.last_char_type == if self@.len() > 0 {
            Some(self@.last())
        } else {
            None
        }
    }

    pub fn new() -> (metrics: Metrics)
        ensures
            metrics@ == Seq::<CharType>::empty(),
            metrics.wf(),
    {
        Metrics {
            count_double_quotation: 0,
            count_single_quotation: 0,
            count_whitespace: 0,
            total_whitespace_encoded_length: 0,
            first_char_type: None,
            last_char_type: None,
            collected_count: 0,
            collected: Ghost(Seq::empty()),
        }
    }

    /// How many characters were collected.
    pub fn collected_count(&self) -> (count: usize)
        requires
            self.wf(),
        ensures
            count == self@.len(),
    {
        self.collected_count
    }

    /// Takes the next character of the value into the counts.
    pub fn collect_char_type(&mut self, char_type: CharType)
        requires
            old(self).wf(),
            old(self)@.len() < usize::MAX,
            char_type.wf(),
            !(char_type is End),
        ensures
            final(self)@ == old(self)@.push(char_type),
            final(self).wf(),
    {
        proof {
            lemma_counts_bounded(self@);
            assert(self@.push(char_type).drop_last() =~= self@);
            if self@.len() > 0 {
                assert(self@.push(char_type).first() == self@.first());
            }
        }
        match char_type {
            CharType::Whitespace(c) => {
                self.count_whitespace += 1;
                self.total_whitespace_encoded_length += encoded(c).len() as u128;
            },
            CharType::SingleQuote => self.count_single_quotation += 1,
            CharType::DoubleQuote => self.count_double_quotation += 1,
            _ => (),
        };
        if self.first_char_type.is_none() {
            self.first_char_type = Some(char_type);
        };
        self.last_char_type = Some(char_type);
        self.collected_count += 1;
        self.collected = Ghost(self.collected@.push(char_type));
    }

    pub fn unquoted_cost(&self) -> (cost: u128)
        requires
            self.wf(),
        ensures
            cost == unquoted_cost(self@),
    {
        proof {
            lemma_counts_bounded(self@);
        }
        // Whitespace needs no look here: all of it is escaped, and counted
        // in the escaped length.
        let first_char_encoding_cost: u128 = match self.first_char_type {
            Some(CharType::DoubleQuote) => encoded(0x22).len() as u128,
            Some(CharType::SingleQuote) => encoded(0x27).len() as u128,
            _ => 0,
        };
        let first_char_is_quote_encoded = first_char_encoding_cost > 0;
        let last_char_encoding_cost: u128 = match self.last_char_type {
            Some(CharType::RightChevron) => encoded(0x3e).len() as u128,
            _ => 0,
        };
        // A quote that comes first is among the quotes counted: it is
        // taken off once, last, so that nothing falls below zero.
        first_char_encoding_cost + (self.count_double_quotation as u128) + (
        self.count_single_quotation as u128) + self.total_whitespace_encoded_length
            + last_char_encoding_cost - if first_char_is_quote_encoded {
            1
        } else {
            0
        }
    }

    pub fn single_quoted_cost(&self) -> (cost: u128)
        requires
            self.wf(),
        ensures
            cost == single_quoted_cost(self@),
    {
        proof {
            lemma_counts_bounded(self@);
        }
        let quotes = self.count_single_quotation as u128;
        let escaped_len = encoded(0x27).len() as u128;
        assert(quotes * escaped_len == quotes * 5) by (nonlinear_arith)
            requires
                escaped_len == 5,
        ;
        quotes * escaped_len + (self.count_double_quotation as u128) + (
        self.count_whitespace as u128)
    }

    pub fn double_quoted_cost(&self) -> (cost: u128)
        requires
            self.wf(),
        ensures
            cost == double_quoted_cost(self@),
    {
        proof {
            lemma_counts_bounded(self@);
        }
        let quotes = self.count_double_quotation as u128;
        let escaped_len = encoded(0x22).len() as u128;
        assert(quotes * escaped_len == quotes * 5) by (nonlinear_arith)
            requires
                escaped_len == 5,
        ;
        quotes * escaped_len + (self.count_single_quotation as u128) + (
        self.count_whitespace as u128)
    }

    pub fn get_optimal_delimiter_type(&self) -> (delimiter: DelimiterType)
        requires
            self.wf(),
        ensures
            delimiter == optimal_delimiter(self@),
    {
        // Where all are equal, double quotes win over the others, and
        // single quotes over none.
        let mut min = (DelimiterType::Double, self.double_quoted_cost());
        let single = (DelimiterType::Single, self.single_quoted_cost());
        if single.1 < min.1 {
            min = single;
        };
        let unquoted = (DelimiterType::Unquoted, self.unquoted_cost());
        if unquoted.1 < min.1 {
            min = unquoted;
        };
        min.0
    }
}

/// What a pass over a value does with its characters.
#[derive(Clone, Copy, Debug, PartialEq, Eq, Structural)]
pub enum AttrPass {
    /// Takes each character into the metrics and writes nothing.
    Measure,
    /// Writes each character as `delimiter` asks, for a value of `total`
    /// characters.
    Emit { delimiter: DelimiterType, total: usize },
    /// Writes nothing, and gauges whether what `Emit` would write, from
    /// `write_next` on, ever overtakes what has been read.
    Probe { delimiter: DelimiterType, total: usize, write_next: usize },
}

/// What a pass that probes has found: how many bytes would have been
/// written, and whether they have had room so far. Once they do not, the
/// count stops.
#[derive(Clone, Copy, Debug, PartialEq, Eq, Structural)]
pub struct Gauge {
    pub written: u128,
    pub fits: bool,
}

impl Gauge {
    pub fn new() -> (gauge: Gauge)
        ensures
            gauge == (Gauge { written: 0, fits: true }),
    {
        Gauge { written: 0, fits: true }
    }
}

/// The view that a pass over the tokens `raw` leaves.
pub open spec fn after_pass(
    before: ProcessorView,
    pass: AttrPass,
    raw: Seq<Token>,
    should_collapse_and_trim_ws: bool,
) -> ProcessorView {
    match pass {
        AttrPass::Emit { delimiter, total } => before.appended(
            body(logical(raw, should_collapse_and_trim_ws), delimiter, total as int),
        ).skipped(widths(raw)),
        _ => before.skipped(widths(raw)),
    }
}

/// What a reference leaves to be written for it.
#[derive(Clone, Copy)]
enum Literal {
    Nothing,
    /// The source bytes of a malformed reference.
    Source(ProcessorRange),
    /// The scalar value, outside ASCII, that a reference denotes.
    Scalar(u32),
}

impl Literal {
    /// Whether this is what is left of `token`, which stood at `at`.
    spec fn of(self, token: Token, at: int) -> bool {
        match token.kind {
            CharType::MalformedEntity => self == Literal::Source(
                ProcessorRange { start: at as usize, end: (at + token.width) as usize },
            ),
            CharType::DecodedNonAscii => self matches Literal::Scalar(scalar) && is_scalar(scalar)
                && token.literal == encode_scalar(scalar),
            _ => true,
        }
    }
}

/// Reads the next token of a value, or finds the value ended.
fn read_token<E: EntityDecoder>(proc: &mut Processor, decoder: &E, src_delimiter: Option<u8>) -> (r:
    ProcessingResult<(CharType, Literal)>)
    requires
        old(proc).wf(),
    ensures
        final(proc).wf(),
        match r {
            Err(e) => {
                &&& e == ErrorType::UnexpectedEnd
                &&& old(proc)@.unread().len() == 0
                &&& final(proc)@ == old(proc)@
            },
            Ok((kind, literal)) => {
                let text = old(proc)@.unread();
                let token = next_token(decoder, text);
                &&& text.len() > 0
                &&& if ends_value(src_delimiter, text[0]) {
                    kind is End && final(proc)@ == old(proc)@
                } else {
                    &&& 1 <= token.width <= text.len()
                    &&& kind == token.kind
                    &&& kind.wf()
                    &&& !(kind is End)
                    &&& literal.of(token, old(proc)@.read_next)
                    &&& token.kind is MalformedEntity ==> token.literal == old(proc)@.code.subrange(
                        old(proc)@.read_next,
                        old(proc)@.read_next + token.width,
                    )
                    &&& !(token.kind is MalformedEntity || token.kind is DecodedNonAscii)
                        ==> token.literal.len() == 0
                    &&& final(proc)@ == old(proc)@.skipped(token.width)
                }
            },
        },
{
    let c = match proc.peek(0) {
        Some(c) => c,
        None => { return Err(ErrorType::UnexpectedEnd); },
    };
    let ghost text = proc@.unread();
    let ended = match src_delimiter {
        Some(quote) => c == quote,
        None => is_unquoted_delimiter(c),
    };
    if ended {
        // The end is not consumed: the caller has more to do on reaching it.
        Ok((CharType::End, Literal::Nothing))
    } else if c == 0x26 {
        let at = proc.read_len();
        let found = decoder.decode(proc.remaining());
        proof {
            decoder.reference_bounds(text);
        }
        proc.skip_amount_expect(found.len);
        match found.value {
            Some(scalar) => {
                if scalar <= 0x7f {
                    Ok((CharType::from_char(scalar as u8), Literal::Nothing))
                } else {
                    Ok((CharType::DecodedNonAscii, Literal::Scalar(scalar)))
                }
            },
            None => {
                assert(text.subrange(0, found.len as int) =~= old(proc)@.code.subrange(
                    at as int,
                    at + found.len,
                ));
                Ok(
                    (
                        CharType::MalformedEntity,
                        Literal::Source(ProcessorRange { start: at, end: at + found.len }),
                    ),
                )
            },
        }
    } else {
        proc.skip_expect();
        Ok((CharType::from_char(c), Literal::Nothing))
    }
}

/// Writes one character of a value, the `char_no`th of `total`, as
/// `delimiter` asks.
fn write_char(
    proc: &mut Processor,
    char_type: CharType,
    literal: Literal,
    char_no: usize,
    delimiter: DelimiterType,
    total: usize,
    Ghost(token): Ghost<Token>,
)
    requires
        old(proc).wf(),
        char_type.wf(),
        !(char_type is End),
        token.kind == char_type,
        char_type is MalformedEntity ==> (literal matches Literal::Source(range) && range.start
            <= range.end <= old(proc)@.code.len() && token.literal == old(proc)@.code.subrange(
            range.start as int,
            range.end as int,
        )),
        char_type is DecodedNonAscii ==> (literal matches Literal::Scalar(scalar) && is_scalar(
            scalar,
        ) && token.literal == encode_scalar(scalar)),
        old(proc)@.write_next + emitted(token, char_no as int, total as int, delimiter).len()
            <= old(proc)@.read_next,
    ensures
        final(proc)@ == old(proc)@.appended(
            emitted(token, char_no as int, total as int, delimiter),
        ),
        final(proc).wf(),
{
    let unquoted = match delimiter {
        DelimiterType::Unquoted => true,
        _ => false,
    };
    match char_type {
        CharType::End => {},
        CharType::MalformedEntity => match literal {
            Literal::Source(range) => {
                proc.write_range(range);
            },
            _ => {},
        },
        CharType::DecodedNonAscii => match literal {
            Literal::Scalar(scalar) => proc.write_scalar(scalar),
            _ => {},
        },
        CharType::Normal(c) => proc.write(c),
        CharType::Whitespace(c) => if unquoted {
            proc.write_slice(encoded(c))
        } else {
            proc.write(c)
        },
        CharType::SingleQuote => {
            let single = match delimiter {
                DelimiterType::Single => true,
                _ => false,
            };
            if single || (unquoted && char_no == 0) {
                proc.write_slice(encoded(0x27))
            } else {
                proc.write(0x27)
            }
        },
        CharType::DoubleQuote => {
            let double = match delimiter {
                DelimiterType::Double => true,
                _ => false,
            };
            if double || (unquoted && char_no == 0) {
                proc.write_slice(encoded(0x22))
            } else {
                proc.write(0x22)
            }
        },
        CharType::RightChevron => if unquoted && total > 0 && char_no == total - 1 {
            proc.write_slice(encoded(0x3e))
        } else {
            proc.write(0x3e)
        },
    }
}

/// What the metrics hold after a pass over the tokens `raw`.
pub open spec fn measured(
    collected: Seq<CharType>,
    pass: AttrPass,
    raw: Seq<Token>,
    should_collapse_and_trim_ws: bool,
) -> Seq<CharType> {
    match pass {
        AttrPass::Measure => collected + kinds(logical(raw, should_collapse_and_trim_ws)),
        _ => collected,
    }
}

/// What the gauge shows after a pass over the tokens `raw`, which started
/// with `slack` bytes between what was read and what would be written.
pub open spec fn gauged(
    gauge: Gauge,
    before: Gauge,
    pass: AttrPass,
    raw: Seq<Token>,
    should_collapse_and_trim_ws: bool,
    slack: int,
) -> bool {
    match pass {
        AttrPass::Probe { delimiter, total, .. } => {
            &&& gauge.fits == fits(raw, should_collapse_and_trim_ws, delimiter, total as int, slack)
            &&& gauge.fits ==> gauge.written == body(
                logical(raw, should_collapse_and_trim_ws),
                delimiter,
                total as int,
            ).len()
        },
        _ => gauge == before,
    }
}

/// The delimiter and the number of characters that a pass writes for, if it
/// writes or probes.
pub open spec fn pass_delimiter(pass: AttrPass) -> (DelimiterType, int) {
    match pass {
        AttrPass::Measure => (DelimiterType::Double, 0),
        AttrPass::Emit { delimiter, total } => (delimiter, total as int),
        AttrPass::Probe { delimiter, total, .. } => (delimiter, total as int),
    }
}

/// How many bytes the UTF-8 encoding of the scalar value `scalar` takes.
fn utf8_len(scalar: u32) -> (n: usize)
    requires
        is_scalar(scalar),
    ensures
        n == encode_scalar(scalar).len(),
{
    if scalar <= 0x7f {
        1
    } else if scalar <= 0x7ff {
        2
    } else if scalar <= 0xffff {
        3
    } else {
        4
    }
}

/// How many bytes `write_char` writes for a character.
fn emitted_len(
    char_type: CharType,
    literal: Literal,
    char_no: usize,
    delimiter: DelimiterType,
    total: usize,
    Ghost(token): Ghost<Token>,
) -> (n: usize)
    requires
        char_type.wf(),
        !(char_type is End),
        token.kind == char_type,
        char_type is MalformedEntity ==> (literal matches Literal::Source(range) && range.start
            <= range.end && token.literal.len() == range.end - range.start),
        char_type is DecodedNonAscii ==> (literal matches Literal::Scalar(scalar) && is_scalar(
            scalar,
        ) && token.literal == encode_scalar(scalar)),
    ensures
        n == emitted(token, char_no as int, total as int, delimiter).len(),
{
    let unquoted = match delimiter {
        DelimiterType::Unquoted => true,
        _ => false,
    };
    match char_type {
        CharType::End => 0,
        CharType::MalformedEntity => match literal {
            Literal::Source(range) => range.len(),
            _ => 0,
        },
        CharType::DecodedNonAscii => match literal {
            Literal::Scalar(scalar) => utf8_len(scalar),
            _ => 0,
        },
        CharType::Normal(_) => 1,
        CharType::Whitespace(c) => if unquoted {
            encoded(c).len()
        } else {
            1
        },
        CharType::SingleQuote => {
            let single = match delimiter {
                DelimiterType::Single => true,
                _ => false,
            };
            if single || (unquoted && char_no == 0) {
                encoded(0x27).len()
            } else {
                1
            }
        },
        CharType::DoubleQuote => {
            let double = match delimiter {
                DelimiterType::Double => true,
                _ => false,
            };
            if double || (unquoted && char_no == 0) {
                encoded(0x22).len()
            } else {
                1
            }
        },
        CharType::RightChevron => if unquoted && total > 0 && char_no == total - 1 {
            encoded(0x3e).len()
        } else {
            1
        },
    }
}

/// Does with one character of a value what the pass asks.
fn on_char(
    proc: &mut Processor,
    metrics: &mut Metrics,
    gauge: &mut Gauge,
    pass: AttrPass,
    char_type: CharType,
    literal: Literal,
    char_no: usize,
    Ghost(token): Ghost<Token>,
)
    requires
        old(proc).wf(),
        old(metrics).wf(),
        char_type.wf(),
        !(char_type is End),
        token.kind == char_type,
        char_type is MalformedEntity ==> (literal matches Literal::Source(range) && range.start
            <= range.end <= old(proc)@.code.len() && token.literal == old(proc)@.code.subrange(
            range.start as int,
            range.end as int,
        )),
        char_type is DecodedNonAscii ==> (literal matches Literal::Scalar(scalar) && is_scalar(
            scalar,
        ) && token.literal == encode_scalar(scalar)),
        pass is Measure ==> old(metrics)@.len() < usize::MAX,
        pass matches AttrPass::Emit { delimiter, total } ==> old(proc)@.write_next + emitted(
            token,
            char_no as int,
            total as int,
            delimiter,
        ).len() <= old(proc)@.read_next,
        pass matches AttrPass::Probe { write_next, .. } ==> (old(gauge).fits ==> write_next + old(
            gauge,
        ).written <= old(proc)@.read_next),
    ensures
        final(proc).wf(),
        final(metrics).wf(),
        final(proc)@ == match pass {
            AttrPass::Emit { delimiter, total } => old(proc)@.appended(
                emitted(token, char_no as int, total as int, delimiter),
            ),
            _ => old(proc)@,
        },
        final(metrics)@ == match pass {
            AttrPass::Measure => old(metrics)@.push(char_type),
            _ => old(metrics)@,
        },
        match pass {
            AttrPass::Probe { delimiter, total, write_next } => {
                let more = emitted(token, char_no as int, total as int, delimiter);
                &&& final(gauge).fits == (old(gauge).fits && write_next + old(gauge).written
                    + more.len() <= old(proc)@.read_next)
                &&& final(gauge).fits ==> final(gauge).written == old(gauge).written + more.len()
            },
            _ => *final(gauge) == *old(gauge),
        },
{
    match pass {
        AttrPass::Measure => metrics.collect_char_type(char_type),
        AttrPass::Emit { delimiter, total } => write_char(
            proc,
            char_type,
            literal,
            char_no,
            delimiter,
            total,
            Ghost(token),
        ),
        AttrPass::Probe { delimiter, total, write_next } => if gauge.fits {
            let more = emitted_len(char_type, literal, char_no, delimiter, total, Ghost(token));
            let written = gauge.written + (more as u128);
            if (write_next as u128) + written <= (proc.read_len() as u128) {
                gauge.written = written;
            } else {
                gauge.fits = false;
            }
        },
    }
}

/// Hands to the pass the character just read, after the one space that
/// stands for the whitespace before it where `spaced`.
fn on_token(
    proc: &mut Processor,
    metrics: &mut Metrics,
    gauge: &mut Gauge,
    pass: AttrPass,
    char_type: CharType,
    literal: Literal,
    char_no: usize,
    spaced: bool,
    Ghost(token): Ghost<Token>,
) -> (next_char_no: usize)
    requires
        old(proc).wf(),
        old(metrics).wf(),
        char_type.wf(),
        !(char_type is End),
        token.kind == char_type,
        char_no + (if spaced {
            2int
        } else {
            1int
        }) <= usize::MAX,
        char_type is MalformedEntity ==> (literal matches Literal::Source(range) && range.start
            <= range.end == old(proc)@.read_next && token.literal == old(proc)@.code.subrange(
            range.start as int,
            range.end as int,
        )),
        char_type is DecodedNonAscii ==> (literal matches Literal::Scalar(scalar) && is_scalar(
            scalar,
        ) && token.literal == encode_scalar(scalar)),
        pass is Measure ==> old(metrics)@.len() + (if spaced {
            2int
        } else {
            1int
        }) <= usize::MAX,
        pass matches AttrPass::Emit { delimiter, total } ==> old(proc)@.write_next
            + emitted_spaced(token, spaced, char_no as int, total as int, delimiter).len() <= old(
            proc,
        )@.read_next,
        pass matches AttrPass::Probe { write_next, .. } ==> (old(gauge).fits ==> write_next + old(
            gauge,
        ).written <= old(proc)@.read_next),
    ensures
        final(proc).wf(),
        final(metrics).wf(),
        next_char_no == char_no + if spaced {
            2int
        } else {
            1int
        },
        final(proc)@ == match pass {
            AttrPass::Emit { delimiter, total } => old(proc)@.appended(
                emitted_spaced(token, spaced, char_no as int, total as int, delimiter),
            ),
            _ => old(proc)@,
        },
        final(metrics)@ == match pass {
            AttrPass::Measure => if spaced {
                old(metrics)@.push(CharType::Whitespace(0x20)).push(char_type)
            } else {
                old(metrics)@.push(char_type)
            },
            _ => old(metrics)@,
        },
        match pass {
            AttrPass::Probe { delimiter, total, write_next } => {
                let more = emitted_spaced(token, spaced, char_no as int, total as int, delimiter);
                &&& final(gauge).fits == (old(gauge).fits && write_next + old(gauge).written
                    + more.len() <= old(proc)@.read_next)
                &&& final(gauge).fits ==> final(gauge).written == old(gauge).written + more.len()
            },
            _ => *final(gauge) == *old(gauge),
        },
{
    let mut char_no = char_no;
    if spaced {
        proof {
            if let AttrPass::Emit { delimiter, total } = pass {
                let space = emitted(space_token(), char_no as int, total as int, delimiter);
                lemma_appended_twice(
                    proc@,
                    space,
                    emitted(token, char_no + 1, total as int, delimiter),
                );
                if char_type is MalformedEntity {
                    lemma_appended_keeps(proc@, space, literal->Source_0.start as int);
                }
            }
        }
        on_char(
            proc,
            metrics,
            gauge,
            pass,
            CharType::Whitespace(0x20),
            Literal::Nothing,
            char_no,
            Ghost(space_token()),
        );
        char_no += 1;
    }
    on_char(proc, metrics, gauge, pass, char_type, literal, char_no, Ghost(token));
    char_no + 1
}

/// Appending to a view whose output was appended before, whatever was read
/// since, is appending both at once.
proof fn lemma_append_more(start: ProcessorView, out: Seq<u8>, read: int, more: Seq<u8>)
    requires
        start.wf(),
        start.write_next + out.len() + more.len() <= start.read_next + read <= start.code.len(),
    ensures
        start.appended(out).skipped(read).appended(more) == start.appended(out + more).skipped(
            read,
        ),
        start.appended(out + more).skipped(read).unread() == start.skipped(read).unread(),
{
    lemma_appended_twice(start, out, more);
    lemma_appended_keeps(start, out + more, start.read_next + read);
}

/// Whether `done` are the first tokens of the value at the start of `text`:
/// the whole text scans exactly where what follows them does, to `done` and
/// what that scans to.
#[verifier::opaque]
spec fn scanned<E: EntityDecoder>(
    decoder: &E,
    text: Seq<u8>,
    delimiter: Option<u8>,
    done: Seq<Token>,
) -> bool {
    &&& 0 <= widths(done) <= text.len()
    &&& done.len() <= widths(done)
    &&& match scan(decoder, text.skip(widths(done)), delimiter) {
        Some(rest) => scan(decoder, text, delimiter) == Some(done + rest),
        None => scan(decoder, text, delimiter) is None,
    }
}

proof fn lemma_scanned_none<E: EntityDecoder>(decoder: &E, text: Seq<u8>, delimiter: Option<u8>)
    ensures
        scanned(decoder, text, delimiter, Seq::empty()),
{
    reveal(scanned);
    assert(text.skip(0) =~= text);
    if let Some(raw) = scan(decoder, text, delimiter) {
        assert(Seq::<Token>::empty() + raw =~= raw);
    }
}

/// Where the text ends behind the tokens read, the value has no end.
proof fn lemma_scanned_out<E: EntityDecoder>(
    decoder: &E,
    text: Seq<u8>,
    delimiter: Option<u8>,
    done: Seq<Token>,
)
    requires
        scanned(decoder, text, delimiter, done),
        widths(done) == text.len(),
    ensures
        scan(decoder, text, delimiter) is None,
{
    reveal(scanned);
}

/// Where the byte behind the tokens read ends the value, they are its
/// tokens.
proof fn lemma_scanned_all<E: EntityDecoder>(
    decoder: &E,
    text: Seq<u8>,
    delimiter: Option<u8>,
    done: Seq<Token>,
)
    requires
        scanned(decoder, text, delimiter, done),
        widths(done) < text.len(),
        ends_value(delimiter, text[widths(done)]),
    ensures
        scan(decoder, text, delimiter) == Some(done),
{
    reveal(scanned);
    assert(done + Seq::<Token>::empty() =~= done);
}

/// Where the byte behind the tokens read does not end the value, the next
/// token joins them.
proof fn lemma_scanned_next<E: EntityDecoder>(
    decoder: &E,
    text: Seq<u8>,
    delimiter: Option<u8>,
    done: Seq<Token>,
)
    requires
        scanned(decoder, text, delimiter, done),
        widths(done) < text.len(),
        !ends_value(delimiter, text[widths(done)]),
        1 <= next_token(decoder, text.skip(widths(done))).width <= text.len() - widths(done),
    ensures
        ({
            let next = done.push(next_token(decoder, text.skip(widths(done))));
            &&& scanned(decoder, text, delimiter, next)
            &&& widths(next) == widths(done) + next_token(decoder, text.skip(widths(done))).width
            &&& text.skip(widths(next)) == text.skip(widths(done)).skip(
                next_token(decoder, text.skip(widths(done))).width,
            )
            &&& scan(decoder, text, delimiter) matches Some(raw) ==> next.len() <= raw.len()
                && raw.take(next.len() as int) == next
        }),
{
    reveal(scanned);
    let rest_text = text.skip(widths(done));
    let token = next_token(decoder, rest_text);
    let next = done.push(token);
    lemma_widths_push(done, token);
    assert(rest_text.skip(token.width) =~= text.skip(widths(next)));
    match scan(decoder, rest_text.skip(token.width), delimiter) {
        Some(rest) => {
            assert(done + (seq![token] + rest) =~= next + rest);
            assert((next + rest).take(next.len() as int) =~= next);
        },
        None => {},
    }
}

#[verifier::rlimit(60)]
/// Walks the value that the next bytes start with, up to the byte that ends
/// it, which is left unread. Each character, after whitespace has been
/// collapsed and trimmed where that is asked for, is handed to the pass.
/// Fails where the source ends before the value does.
pub fn consume_attr_value<E: EntityDecoder>(
    proc: &mut Processor,
    decoder: &E,
    should_collapse_and_trim_ws: bool,
    src_delimiter: Option<u8>,
    pass: AttrPass,
    metrics: &mut Metrics,
    gauge: &mut Gauge,
) -> (r: ProcessingResult<()>)
    requires
        old(proc).wf(),
        old(metrics).wf(),
        pass is Measure ==> old(metrics)@.len() + old(proc)@.unread().len() <= usize::MAX,
        pass matches AttrPass::Emit { delimiter, total } ==> (scan(
            decoder,
            old(proc)@.unread(),
            src_delimiter,
        ) matches Some(raw) && fits(
            raw,
            should_collapse_and_trim_ws,
            delimiter,
            total as int,
            old(proc)@.read_next - old(proc)@.write_next,
        )),
        pass matches AttrPass::Probe { write_next, .. } ==> write_next <= old(proc)@.read_next
            && *old(gauge) == (Gauge { written: 0, fits: true }),
    ensures
        final(proc).wf(),
        final(metrics).wf(),
        match r {
            Ok(()) => {
                &&& scan(decoder, old(proc)@.unread(), src_delimiter) matches Some(raw)
                &&& final(proc)@ == after_pass(old(proc)@, pass, raw, should_collapse_and_trim_ws)
                &&& final(metrics)@ == measured(
                    old(metrics)@,
                    pass,
                    raw,
                    should_collapse_and_trim_ws,
                )
                &&& gauged(
                    *final(gauge),
                    *old(gauge),
                    pass,
                    raw,
                    should_collapse_and_trim_ws,
                    old(proc)@.read_next - pass->Probe_write_next,
                )
            },
            Err(e) => {
                &&& e == ErrorType::UnexpectedEnd
                &&& scan(decoder, old(proc)@.unread(), src_delimiter) is None
                &&& !(pass is Emit)
                &&& final(proc)@ == old(proc)@.skipped(old(proc)@.unread().len() as int)
            },
        },
{
    let ghost start = proc@;
    let ghost text0 = proc@.unread();
    let ghost collected0 = metrics@;
    let ghost gauge0 = *gauge;
    let ghost (delimiter, total) = pass_delimiter(pass);
    let ghost slack = start.read_next - pass->Probe_write_next;
    let ghost mut done: Seq<Token> = Seq::empty();
    // Whether the characters just before were whitespace whose handling
    // waits for the end of the run. Only used when collapsing.
    let mut currently_in_whitespace = false;
    let mut char_no: usize = 0;
    proof {
        lemma_scanned_none(decoder, text0, src_delimiter);
        assert(start.appended(Seq::empty()).code =~= start.code);
        assert(collected0 + kinds(Seq::<Token>::empty()) =~= collected0);
        assert(text0.skip(0) =~= text0);
        lemma_fits_none(should_collapse_and_trim_ws, delimiter, total, slack);
    }
    loop
        invariant
            proc.wf(),
            metrics.wf(),
            start.wf(),
            start == old(proc)@,
            collected0 == old(metrics)@,
            gauge0 == *old(gauge),
            (delimiter, total) == pass_delimiter(pass),
            slack == start.read_next - pass->Probe_write_next,
            text0 == start.unread(),
            scanned(decoder, text0, src_delimiter, done),
            0 <= widths(done) <= text0.len(),
            done.len() <= widths(done),
            proc@ == after_pass(start, pass, done, should_collapse_and_trim_ws),
            proc@.unread() == text0.skip(widths(done)),
            char_no == logical(done, should_collapse_and_trim_ws).len(),
            char_no + (if currently_in_whitespace {
                1int
            } else {
                0int
            }) <= done.len(),
            currently_in_whitespace == (should_collapse_and_trim_ws && done.len() > 0
                && done.last().kind is Whitespace),
            metrics@ == measured(collected0, pass, done, should_collapse_and_trim_ws),
            gauged(*gauge, gauge0, pass, done, should_collapse_and_trim_ws, slack),
            pass is Measure ==> collected0.len() + text0.len() <= usize::MAX,
            pass is Emit ==> (scan(decoder, text0, src_delimiter) matches Some(raw) && fits(
                raw,
                should_collapse_and_trim_ws,
                delimiter,
                total,
                start.read_next - start.write_next,
            )),
        decreases text0.len() - widths(done),
    {
        let ghost text = proc@.unread();
        let ghost chars = logical(done, should_collapse_and_trim_ws);
        let (char_type, literal) = match read_token(proc, decoder, src_delimiter) {
            Ok(found) => found,
            Err(e) => {
                proof {
                    lemma_scanned_out(decoder, text0, src_delimiter, done);
                }
                return Err(e);
            },
        };
        if let CharType::End = char_type {
            proof {
                lemma_scanned_all(decoder, text0, src_delimiter, done);
            }
            return Ok(());
        }
        let ghost token = next_token(decoder, text);
        let ghost spaced = currently_in_whitespace && char_no > 0;
        proof {
            lemma_scanned_next(decoder, text0, src_delimiter, done);
            lemma_body_next(done, token, should_collapse_and_trim_ws, delimiter, total);
            assert(kinds(chars).len() == chars.len());
            if pass is Emit {
                lemma_room(
                    scan(decoder, text0, src_delimiter)->0,
                    done.push(token),
                    should_collapse_and_trim_ws,
                    delimiter,
                    total,
                    start.read_next - start.write_next,
                );
                if !(should_collapse_and_trim_ws && token.kind is Whitespace) {
                    lemma_append_more(
                        start,
                        body(chars, delimiter, total),
                        widths(done.push(token)),
                        emitted_spaced(token, spaced, char_no as int, total, delimiter),
                    );
                }
            }
            if pass is Probe {
                lemma_fits_push(done, token, should_collapse_and_trim_ws, delimiter, total, slack);
                if gauge.fits {
                    assert(done.take(done.len() as int) =~= done);
                    lemma_room(done, done, should_collapse_and_trim_ws, delimiter, total, slack);
                }
            }
            done = done.push(token);
        }
        let is_whitespace = match char_type {
            CharType::Whitespace(_) => true,
            _ => false,
        };
        if should_collapse_and_trim_ws && is_whitespace {
            // This character waits: whether it counts is known when the
            // run of whitespace ends.
            currently_in_whitespace = true;
        } else {
            // Past any whitespace. A run that came first in the value is
            // dropped; a run inside it counts as one space.
            char_no = on_token(
                proc,
                metrics,
                gauge,
                pass,
                char_type,
                literal,
                char_no,
                currently_in_whitespace && char_no > 0,
                Ghost(token),
            );
            currently_in_whitespace = false;
        }
    }
}

/// Writing a value in three steps, with the reading in between, leaves what
/// writing and reading it at once leaves.
proof fn lemma_written_in_place(
    start: ProcessorView,
    open_len: int,
    quote: Seq<u8>,
    inner: Seq<u8>,
    read: int,
)
    requires
        start.wf(),
        0 <= open_len,
        0 <= read,
        start.read_next + open_len + read + open_len <= start.code.len(),
        start.write_next + quote.len() + inner.len() + quote.len() <= start.read_next + open_len
            + read + open_len,
    ensures
        start.skipped(open_len).appended(quote).appended(inner).skipped(read).skipped(
            open_len,
        ).appended(quote) == start.appended(quote + inner + quote).skipped(2 * open_len + read),
{
    lemma_appended_twice(start, quote, inner);
    lemma_appended_twice(start, quote + inner, quote);
}

/// What writing the value at the unread bytes of `before` in its cheapest
/// form gives and leaves. Where the value has an end, it is written, what
/// it took is read, and the result says whether it now stands in quotes.
/// Where it has none, all is read and nothing written.
pub open spec fn processed<E: EntityDecoder>(
    decoder: &E,
    before: ProcessorView,
    after: ProcessorView,
    should_collapse_and_trim_ws: bool,
    result: ProcessingResult<AttrType>,
) -> bool {
    match result {
        Ok(attr_type) => {
            &&& value_tokens(decoder, before.unread()) matches Some(raw)
            &&& after == before.appended(minified(raw, should_collapse_and_trim_ws)).skipped(
                source_len(before.unread(), raw),
            )
            &&& attr_type == if chosen_delimiter(raw, should_collapse_and_trim_ws) is Unquoted {
                AttrType::Unquoted
            } else {
                AttrType::Quoted
            }
        },
        Err(e) => {
            &&& e == ErrorType::UnexpectedEnd
            &&& value_tokens(decoder, before.unread()) is None
            &&& after == before.skipped(before.unread().len() as int)
        },
    }
}

#[verifier::rlimit(60)]
/// Writes the attribute value that the next bytes start with in its
/// cheapest form, in place, and says whether it now stands in quotes. The
/// value is read twice: once to count what each delimiter would cost, as
/// that is known only when references are decoded and whitespace collapsed,
/// and once more, from the same place, to write it under the delimiter
/// chosen. Fails, with nothing written, where the source ends before the
/// value does.
pub fn process_quoted_val<E: EntityDecoder>(
    proc: &mut Processor,
    decoder: &E,
    should_collapse_and_trim_ws: bool,
) -> (r: ProcessingResult<AttrType>)
    requires
        old(proc).wf(),
        value_tokens(decoder, old(proc)@.unread()) matches Some(raw) ==> value_fits(
            old(proc)@.unread(),
            raw,
            should_collapse_and_trim_ws,
            old(proc)@.read_next - old(proc)@.write_next,
        ),
    ensures
        final(proc).wf(),
        processed(decoder, old(proc)@, final(proc)@, should_collapse_and_trim_ws, r),
{
    let ghost start = proc@;
    let ghost text = proc@.unread();
    let src_delimiter = match proc.peek(0) {
        Some(c) => if is_attr_quote(c) {
            proc.skip_expect();
            Some(c)
        } else {
            None
        },
        None => None,
    };
    let ghost open_len = delimiter_len(src_delimiter);
    assert(src_delimiter == source_delimiter(text));
    assert(proc@.unread() =~= text.skip(open_len));

    // First pass: read the value and count what its characters are.
    let value_start_checkpoint = Checkpoint::new(proc);
    let mut metrics = Metrics::new();
    let mut gauge = Gauge::new();
    match consume_attr_value(
        proc,
        decoder,
        should_collapse_and_trim_ws,
        src_delimiter,
        AttrPass::Measure,
        &mut metrics,
        &mut gauge,
    ) {
        Ok(()) => {},
        Err(e) => {
            return Err(e);
        },
    }
    let ghost raw = value_tokens(decoder, text)->0;
    let ghost chars = logical(raw, should_collapse_and_trim_ws);
    assert(metrics@ =~= kinds(chars));

    // Second pass: write the value under the cheapest delimiter.
    value_start_checkpoint.restore(proc);
    let optimal_delimiter = metrics.get_optimal_delimiter_type();
    let optimal_delimiter_char = match optimal_delimiter {
        DelimiterType::Double => Some(0x22u8),
        DelimiterType::Single => Some(0x27u8),
        DelimiterType::Unquoted => None,
    };
    let total = metrics.collected_count();
    let ghost quote = delimiter_bytes(optimal_delimiter);
    let ghost inner = body(chars, optimal_delimiter, chars.len() as int);
    proof {
        assert(kinds(chars).len() == chars.len());
        lemma_scan_ends(decoder, text.skip(open_len), src_delimiter);
        // Before the first token, nothing but the delimiter is written.
        assert(raw.take(0) =~= Seq::<Token>::empty());
        assert(body(
            logical(raw.take(0), should_collapse_and_trim_ws),
            optimal_delimiter,
            chars.len() as int,
        ).len() == 0);
        assert(raw.take(raw.len() as int) =~= raw);
        lemma_room(
            raw,
            raw,
            should_collapse_and_trim_ws,
            optimal_delimiter,
            chars.len() as int,
            start.read_next - start.write_next + open_len - quote.len(),
        );
        lemma_appended_keeps(proc@, quote, proc@.read_next);
        assert(proc@.appended(Seq::empty()).code =~= proc@.code);
        lemma_written_in_place(start, open_len, quote, inner, widths(raw));
    }
    // The opening delimiter, if any.
    if let Some(c) = optimal_delimiter_char {
        proc.write(c);
    }
    assert(proc@ == start.skipped(open_len).appended(quote));
    match consume_attr_value(
        proc,
        decoder,
        should_collapse_and_trim_ws,
        src_delimiter,
        AttrPass::Emit { delimiter: optimal_delimiter, total },
        &mut metrics,
        &mut gauge,
    ) {
        Ok(()) => {},
        Err(e) => {
            return Err(e);
        },
    }
    // The closing delimiter of the source, if any, is read and dropped.
    if src_delimiter.is_some() {
        proc.skip_expect();
    }
    // The closing delimiter, if any.
    if let Some(c) = optimal_delimiter_char {
        proc.write(c);
    }
    proof {
        assert(proc@.appended(Seq::empty()).code =~= proc@.code);
    }
    match optimal_delimiter {
        DelimiterType::Unquoted => Ok(AttrType::Unquoted),
        _ => Ok(AttrType::Quoted),
    }
}

/// Whether the attribute value that the next bytes start with can be
/// written in place in its cheapest form, the output never overtaking the
/// input. The value is read, and the engine left as it was.
pub fn quoted_val_fits<E: EntityDecoder>(
    proc: &mut Processor,
    decoder: &E,
    should_collapse_and_trim_ws: bool,
) -> (fitting: bool)
    requires
        old(proc).wf(),
    ensures
        final(proc)@ == old(proc)@,
        fitting == (value_tokens(decoder, old(proc)@.unread()) matches Some(raw) ==> value_fits(
            old(proc)@.unread(),
            raw,
            should_collapse_and_trim_ws,
            old(proc)@.read_next - old(proc)@.write_next,
        )),
{
    let ghost text = proc@.unread();
    let start = Checkpoint::new(proc);
    let write_next = proc.written_len();
    let src_delimiter = match proc.peek(0) {
        Some(c) => if is_attr_quote(c) {
            proc.skip_expect();
            Some(c)
        } else {
            None
        },
        None => None,
    };
    let opened: usize = if src_delimiter.is_some() {
        1
    } else {
        0
    };
    assert(src_delimiter == source_delimiter(text));
    assert(proc@.unread() =~= text.skip(opened as int));
    let value_start = Checkpoint::new(proc);
    let value_read = proc.read_len();
    let mut metrics = Metrics::new();
    let mut gauge = Gauge::new();
    if consume_attr_value(
        proc,
        decoder,
        should_collapse_and_trim_ws,
        src_delimiter,
        AttrPass::Measure,
        &mut metrics,
        &mut gauge,
    ).is_err() {
        start.restore(proc);
        return true;
    }
    let ghost raw = value_tokens(decoder, text)->0;
    let ghost chars = logical(raw, should_collapse_and_trim_ws);
    assert(metrics@ =~= kinds(chars));
    assert(kinds(chars).len() == chars.len());
    value_start.restore(proc);
    let delimiter = metrics.get_optimal_delimiter_type();
    let total = metrics.collected_count();
    let quoted: usize = match delimiter {
        DelimiterType::Unquoted => 0,
        _ => 1,
    };
    let ghost slack = value_read - write_next - quoted;
    proof {
        lemma_fits_slack(raw, should_collapse_and_trim_ws, delimiter, total as int, slack);
    }
    // The opening delimiter needs a byte that has been read.
    if write_next + quoted > value_read {
        start.restore(proc);
        return false;
    }
    if consume_attr_value(
        proc,
        decoder,
        should_collapse_and_trim_ws,
        src_delimiter,
        AttrPass::Probe { delimiter, total, write_next: write_next + quoted },
        &mut metrics,
        &mut gauge,
    ).is_err() {
        start.restore(proc);
        return true;
    }
    proof {
        if gauge.fits {
            assert(raw.take(raw.len() as int) =~= raw);
            lemma_room(raw, raw, should_collapse_and_trim_ws, delimiter, total as int, slack);
        }
    }
    // The closing delimiter is written when that of the source is read.
    let fitting = gauge.fits && (write_next as u128) + 2 * (quoted as u128) + gauge.written <= (
    proc.read_len() as u128) + (opened as u128);
    start.restore(proc);
    fitting
}

/// Writes the attribute value that the next bytes start with in its
/// cheapest form, as `process_quoted_val` does, where it can be written in
/// place; where it cannot, does nothing and gives nothing.
pub fn try_process_quoted_val<E: EntityDecoder>(
    proc: &mut Processor,
    decoder: &E,
    should_collapse_and_trim_ws: bool,
) -> (r: Option<ProcessingResult<AttrType>>)
    requires
        old(proc).wf(),
    ensures
        final(proc).wf(),
        r is Some <==> (value_tokens(decoder, old(proc)@.unread()) matches Some(raw) ==> value_fits(
            old(proc)@.unread(),
            raw,
            should_collapse_and_trim_ws,
            old(proc)@.read_next - old(proc)@.write_next,
        )),
        match r {
            Some(result) => processed(
                decoder,
                old(proc)@,
                final(proc)@,
                should_collapse_and_trim_ws,
                result,
            ),
            None => final(proc)@ == old(proc)@,
        },
{
    if quoted_val_fits(proc, decoder, should_collapse_and_trim_ws) {
        Some(process_quoted_val(proc, decoder, should_collapse_and_trim_ws))
    } else {
        None
    }
}

} // verus!
