//! Readers of character references, and the one for decimal references.

use vstd::prelude::*;
use vstd::utf8::is_scalar;

verus! {

/// What stands at an ampersand: how many bytes the reference takes, the
/// ampersand included, and the scalar value of the character it denotes, or
/// none where it is malformed and stands for itself.
#[derive(Clone, Copy, Debug, PartialEq, Eq, Structural)]
pub struct EntityRef {
    pub len: usize,
    pub value: Option<u32>,
}

/// A reader of character references. What it makes of a text is a function
/// of the text alone.
pub trait EntityDecoder {
    /// What the decoder makes of `text`, which starts with an ampersand.
    spec fn reference(&self, text: Seq<u8>) -> EntityRef;

    /// A reference takes at least its ampersand and no more than the text,
    /// and what it denotes is a scalar value.
    proof fn reference_bounds(&self, text: Seq<u8>)
        requires
            text.len() > 0,
            text[0] == 0x26,
        ensures
            1 <= self.reference(text).len <= text.len(),
            self.reference(text).value matches Some(scalar) ==> is_scalar(scalar),
    ;

    fn decode(&self, text: &[u8]) -> (found: EntityRef)
        requires
            text@.len() > 0,
            text@[0] == 0x26,
        ensures
            found == self.reference(text@),
    ;
}

pub open spec fn is_digit(b: u8) -> bool {
    0x30 <= b <= 0x39
}

/// The number that a run of decimal digits writes.
pub open spec fn decimal(digits: Seq<u8>) -> nat
    decreases digits.len(),
{
    if digits.len() == 0 {
        0
    } else {
        decimal(digits.drop_last()) * 10 + (digits.last() - 0x30) as nat
    }
}

/// How many digits `text` starts with.
pub open spec fn digit_run(text: Seq<u8>) -> nat
    decreases text.len(),
{
    if text.len() > 0 && is_digit(text[0]) {
        1 + digit_run(text.drop_first())
    } else {
        0
    }
}

/// The decimal character reference at the start of `text`: an ampersand, a
/// hash, one or more digits that write a scalar value, and a semicolon.
/// Anything else is malformed, and only the ampersand is taken.
pub open spec fn numeric_reference(text: Seq<u8>) -> EntityRef {
    let n = digit_run(text.skip(2)) as int;
    let v = decimal(text.subrange(2, 2 + n));
    if text.len() > 2 && text[1] == 0x23 && n > 0 && 2 + n < text.len() && text[2 + n] == 0x3b && v
        <= 0x10FFFF && is_scalar(v as u32) && n + 3 <= usize::MAX {
        EntityRef { len: (n + 3) as usize, value: Some(v as u32) }
    } else {
        EntityRef { len: 1, value: None }
    }
}

pub proof fn lemma_digit_run_bound(text: Seq<u8>)
    ensures
        digit_run(text) <= text.len(),
    decreases text.len(),
{
    if text.len() > 0 && is_digit(text[0]) {
        lemma_digit_run_bound(text.drop_first());
    }
}

/// A run of digits goes on from any place inside it.
pub proof fn lemma_digit_run_split(text: Seq<u8>, k: int)
    requires
        0 <= k <= text.len(),
        forall|i: int| 0 <= i < k ==> is_digit(#[trigger] text[i]),
    ensures
        digit_run(text) == k + digit_run(text.skip(k)),
    decreases k,
{
    if k == 0 {
        assert(text.skip(0) =~= text);
    } else {
        let rest = text.drop_first();
        assert forall|i: int| 0 <= i < k - 1 implies is_digit(#[trigger] rest[i]) by {
            assert(rest[i] == text[i + 1]);
        }
        lemma_digit_run_split(rest, k - 1);
        assert(rest.skip(k - 1) =~= text.skip(k));
    }
}

/// More digits write no smaller a number.
proof fn lemma_decimal_grows(digits: Seq<u8>, k: int)
    requires
        0 <= k <= digits.len(),
    ensures
        decimal(digits.take(k)) <= decimal(digits),
    decreases digits.len() - k,
{
    if k == digits.len() {
        assert(digits.take(k) =~= digits);
    } else {
        lemma_decimal_grows(digits.drop_last(), k);
        assert(digits.drop_last().take(k) =~= digits.take(k));
    }
}

/// The decoder of decimal character references, the form in which this
/// library writes its own escapes.
pub struct NumericEntities {}

impl EntityDecoder for NumericEntities {
    open spec fn reference(&self, text: Seq<u8>) -> EntityRef {
        numeric_reference(text)
    }

    proof fn reference_bounds(&self, text: Seq<u8>) {
        lemma_digit_run_bound(text.skip(2));
    }

    fn decode(&self, text: &[u8]) -> (found: EntityRef) {
        let malformed = EntityRef { len: 1, value: None };
        let len = text.len();
        if len <= 2 || text[1] != 0x23 {
            return malformed;
        }
        let ghost digits = text@.skip(2);
        let mut at: usize = 2;
        let mut value: u32 = 0;
        while at < len && 0x30 <= text[at] && text[at] <= 0x39
            invariant
                len == text@.len(),
                digits == text@.skip(2),
                malformed == (EntityRef { len: 1, value: None }),
                2 <= at <= len,
                forall|i: int| 0 <= i < at - 2 ==> is_digit(#[trigger] digits[i]),
                value == decimal(text@.subrange(2, at as int)),
                value <= 0x10FFFF,
            decreases len - at,
        {
            let digit = text[at] - 0x30;
            proof {
                let upto = text@.subrange(2, at + 1);
                assert(upto.drop_last() =~= text@.subrange(2, at as int));
                assert(upto.last() == text@[at as int]);
            }
            let next = value * 10 + (digit as u32);
            assert(next == decimal(text@.subrange(2, at + 1)));
            if next > 0x10FFFF {
                proof {
                    // The whole run writes a number that is larger still.
                    let n = digit_run(digits) as int;
                    lemma_digit_run_bound(digits);
                    assert(digits[at - 2] == text@[at as int]);
                    lemma_digit_run_split(digits, at - 1);
                    let whole = text@.subrange(2, 2 + n);
                    assert(at - 1 <= n);
                    lemma_decimal_grows(whole, at - 1);
                    assert(whole.take(at - 1) =~= text@.subrange(2, at + 1));
                    assert(decimal(whole) > 0x10FFFF);

                }
                return malformed;
            }
            value = next;
            at += 1;
        }
        proof {
            lemma_digit_run_split(digits, at - 2);
            let rest = digits.skip(at - 2);
            if at < len {
                assert(rest[0] == text@[at as int]);
            }
            assert(digit_run(rest) == 0);
        }
        if at == 2 || at >= len || text[at] != 0x3b {
            return malformed;
        }
        // The surrogates are no scalar values.
        if 0xd800 <= value && value <= 0xdfff {
            return malformed;
        }
        EntityRef { len: at + 1, value: Some(value) }
    }
}

} // verus!
