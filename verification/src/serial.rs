//! Canonical serialization of words and lines, the inverse direction of
//! the tokenizer: the round-trip law in `roundtrip` proves that
//! tokenizing a serialized line reproduces the word list exactly.

use vstd::prelude::*;
use crate::num::push_dec_u64;
use crate::num::push_frac;
use crate::num::spec_digits;
use crate::num::spec_frac_digits;
use crate::token::Line;
use crate::token::Word;
use crate::tokenizer::DOT;
use crate::tokenizer::LETTER_N;
use crate::tokenizer::LF;
use crate::tokenizer::MINUS;
use crate::tokenizer::SP;

verus! {

/// The largest mantissa the tokenizer can produce: twelve integer digits
/// and four fractional ones.
pub const MAX_MANTISSA: i64 = 9_999_999_999_999_999;

/// Digit text of a mantissa: sign, integer digits, then a dot and the
/// fractional digits with trailing zeros dropped, if any remain.
pub open spec fn spec_ser_number(m: i64) -> Seq<u8> {
    let a = if m < 0 {
        -(m as int)
    } else {
        m as int
    };
    let sign: Seq<u8> = if m < 0 {
        seq![MINUS]
    } else {
        Seq::<u8>::empty()
    };
    let frac: Seq<u8> = if a % 10000 == 0 {
        Seq::<u8>::empty()
    } else {
        seq![DOT] + spec_frac_digits((a % 10000) as nat)
    };
    sign + spec_digits((a / 10000) as nat) + frac
}

/// One serialized word: its letter, its number, one separating space.
pub open spec fn spec_ser_word(w: (u8, i64)) -> Seq<u8> {
    seq![w.0] + spec_ser_number(w.1) + seq![SP]
}

/// The serialized words of a line, in order.
pub open spec fn spec_ser_words(words: Seq<(u8, i64)>) -> Seq<u8>
    decreases words.len(),
{
    if words.len() == 0 {
        Seq::<u8>::empty()
    } else {
        spec_ser_words(words.drop_last()) + spec_ser_word(words.last())
    }
}

/// A whole serialized line: the `N` word when numbered, the words, and
/// the terminating line feed.
pub open spec fn spec_ser_line(number: Option<u32>, words: Seq<(u8, i64)>) -> Seq<u8> {
    (match number {
        Some(n) => seq![LETTER_N] + spec_digits(n as nat) + seq![SP],
        None => Seq::<u8>::empty(),
    }) + spec_ser_words(words) + seq![LF]
}

/// Appends the digit text of mantissa `m` to `out`.
fn push_number(out: &mut Vec<u8>, m: i64)
    requires
        -MAX_MANTISSA <= m <= MAX_MANTISSA,
    ensures
        final(out)@ == old(out)@ + spec_ser_number(m),
{
    let a: u64 = if m < 0 {
        (-m) as u64
    } else {
        m as u64
    };
    if m < 0 {
        out.push(MINUS);
    }
    push_dec_u64(out, a / 10000);
    let f = a % 10000;
    if f != 0 {
        out.push(DOT);
        push_frac(out, f);
    }
    proof {
        assert(out@ =~= old(out)@ + spec_ser_number(m));
    }
}

/// Serializes a line in canonical form.
pub fn serialize_line(line: &Line) -> (r: Vec<u8>)
    requires
        forall|i: int|
            0 <= i < line.words@.len() ==> -MAX_MANTISSA <= (
            #[trigger] line.words@[i]).mantissa <= MAX_MANTISSA,
    ensures
        r@ == spec_ser_line(
            line.number,
            line.words@.map_values(|w: Word| (w.letter, w.mantissa)),
        ),
{
    let ghost gwords = line.words@.map_values(|w: Word| (w.letter, w.mantissa));
    let mut v: Vec<u8> = Vec::new();
    match line.number {
        Some(n) => {
            v.push(LETTER_N);
            push_dec_u64(&mut v, n as u64);
            v.push(SP);
        },
        None => {},
    }
    let ghost head = v@;
    let mut i: usize = 0;
    while i < line.words.len()
        invariant
            i <= line.words@.len(),
            gwords == line.words@.map_values(|w: Word| (w.letter, w.mantissa)),
            forall|j: int|
                0 <= j < line.words@.len() ==> -MAX_MANTISSA <= (
                #[trigger] line.words@[j]).mantissa <= MAX_MANTISSA,
            v@ == head + spec_ser_words(gwords.take(i as int)),
        decreases line.words@.len() - i,
    {
        let w = &line.words[i];
        v.push(w.letter);
        push_number(&mut v, w.mantissa);
        v.push(SP);
        proof {
            assert(gwords.take(i as int + 1).drop_last() =~= gwords.take(i as int));
            assert(gwords.take(i as int + 1).last() == (w.letter, w.mantissa));
            assert(v@ =~= head + spec_ser_words(gwords.take(i as int + 1)));
        }
        i = i + 1;
    }
    v.push(LF);
    proof {
        assert(gwords.take(gwords.len() as int) =~= gwords);
        assert(v@ =~= spec_ser_line(line.number, gwords));
    }
    v
}

} // verus!
