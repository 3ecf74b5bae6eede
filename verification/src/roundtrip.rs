//! The round-trip law: tokenizing a serialized line reproduces exactly
//! the original word list, with no error and one `Execute`.

use vstd::prelude::*;
use crate::num::lemma_pow10_small;
use crate::num::pow10;
use crate::num::spec_digits;
use crate::num::spec_frac4;
use crate::num::spec_frac_digits;
use crate::num::trim_zeros;
use crate::assembler::asm_step;
use crate::assembler::AsmView;
use crate::assembler::FeedV;
use crate::processor::core_run;
use crate::processor::core_step;
use crate::processor::events_of_feed;
use crate::processor::CoreV;
use crate::processor::EventV;
use crate::serial::spec_ser_line;
use crate::serial::spec_ser_number;
use crate::serial::spec_ser_word;
use crate::serial::spec_ser_words;
use crate::serial::MAX_MANTISSA;
use crate::token::ParseError;
use crate::token::Token;
use crate::tokenizer::is_digit;
use crate::tokenizer::spec_step;
use crate::tokenizer::TokStep;
use crate::tokenizer::Tokenizer;
use crate::tokenizer::D0;
use crate::tokenizer::LETTER_N;
use crate::tokenizer::MAX_INT_PART;
use crate::tokenizer::UA;
use crate::tokenizer::UZ;

verus! {

/// The tokenizer state after consuming `bs` from `t`.
pub open spec fn tok_run(t: Tokenizer, bs: Seq<u8>) -> Tokenizer
    decreases bs.len(),
{
    if bs.len() == 0 {
        t
    } else {
        spec_step(tok_run(t, bs.drop_last()), bs.last()).0
    }
}

/// The tokens one step emits.
pub open spec fn step_tokens(s: TokStep) -> Seq<Token> {
    match s {
        TokStep::Quiet => Seq::<Token>::empty(),
        TokStep::One(t) => seq![t],
        TokStep::Two(a, b) => seq![a, b],
        TokStep::Fail(_) => Seq::<Token>::empty(),
        TokStep::FailEol(_) => Seq::<Token>::empty(),
    }
}

/// Whether one step reported no lexical error.
pub open spec fn step_clean(s: TokStep) -> bool {
    !(s is Fail) && !(s is FailEol)
}

/// All tokens the tokenizer emits while consuming `bs` from `t`.
pub open spec fn tok_tokens(t: Tokenizer, bs: Seq<u8>) -> Seq<Token>
    decreases bs.len(),
{
    if bs.len() == 0 {
        Seq::<Token>::empty()
    } else {
        tok_tokens(t, bs.drop_last()) + step_tokens(
            spec_step(tok_run(t, bs.drop_last()), bs.last()).1,
        )
    }
}

/// Whether consuming `bs` from `t` raises no lexical error.
pub open spec fn tok_clean(t: Tokenizer, bs: Seq<u8>) -> bool
    decreases bs.len(),
{
    if bs.len() == 0 {
        true
    } else {
        tok_clean(t, bs.drop_last()) && step_clean(
            spec_step(tok_run(t, bs.drop_last()), bs.last()).1,
        )
    }
}

/// Runs compose over concatenation.
pub proof fn lemma_tok_app(t: Tokenizer, s1: Seq<u8>, s2: Seq<u8>)
    ensures
        tok_run(t, s1 + s2) == tok_run(tok_run(t, s1), s2),
        tok_tokens(t, s1 + s2) == tok_tokens(t, s1) + tok_tokens(tok_run(t, s1), s2),
        tok_clean(t, s1 + s2) == (tok_clean(t, s1) && tok_clean(tok_run(t, s1), s2)),
    decreases s2.len(),
{
    if s2.len() == 0 {
        assert(s1 + s2 =~= s1);
        assert(tok_tokens(t, s1) + tok_tokens(tok_run(t, s1), s2) =~= tok_tokens(t, s1));
    } else {
        assert((s1 + s2).drop_last() =~= s1 + s2.drop_last());
        assert((s1 + s2).last() == s2.last());
        lemma_tok_app(t, s1, s2.drop_last());
        assert(tok_tokens(t, s1 + s2) =~= tok_tokens(t, s1) + tok_tokens(tok_run(t, s1), s2));
    }
}

/// Whether every byte of `s` is a decimal digit.
pub open spec fn digit_seq(s: Seq<u8>) -> bool {
    forall|i: int| 0 <= i < s.len() ==> is_digit(#[trigger] s[i])
}

/// The value of a digit string, most significant first.
pub open spec fn digits_value(s: Seq<u8>) -> nat
    decreases s.len(),
{
    if s.len() == 0 {
        0
    } else {
        digits_value(s.drop_last()) * 10 + (s.last() - D0) as nat
    }
}

/// `spec_digits` prints what `digits_value` reads back.
pub proof fn lemma_spec_digits_value(n: nat)
    ensures
        digit_seq(spec_digits(n)),
        digits_value(spec_digits(n)) == n,
        spec_digits(n).len() >= 1,
    decreases n,
{
    if n < 10 {
        let s = spec_digits(n);
        assert(s =~= seq![(0x30 + n) as u8]);
        assert(s.drop_last() =~= Seq::<u8>::empty());
        assert(digits_value(Seq::<u8>::empty()) == 0);
        assert(digits_value(s) == digits_value(s.drop_last()) * 10 + (s.last() - D0) as nat);
    } else {
        lemma_spec_digits_value(n / 10);
        let s = spec_digits(n);
        assert(s == spec_digits(n / 10).push((0x30 + n % 10) as u8));
        assert(s.drop_last() =~= spec_digits(n / 10));
        assert(s.last() == (0x30 + n % 10) as u8);
        assert(digit_seq(s)) by {
            assert forall|i: int| 0 <= i < s.len() implies is_digit(#[trigger] s[i]) by {
                if i < s.len() - 1 {
                    assert(s[i] == spec_digits(n / 10)[i]);
                }
            }
        }
    }
}

/// Padding to four digits keeps the value (`f` below 10 000).
pub proof fn lemma_frac4_value(f: nat)
    requires
        f < 10000,
    ensures
        digit_seq(spec_frac4(f)),
        digits_value(spec_frac4(f)) == f,
        spec_frac4(f).len() == 4,
{
    let s = spec_frac4(f);
    assert(s.drop_last() =~= seq![
        (0x30 + f / 1000 % 10) as u8,
        (0x30 + f / 100 % 10) as u8,
        (0x30 + f / 10 % 10) as u8,
    ]);
    assert(s.drop_last().drop_last() =~= seq![
        (0x30 + f / 1000 % 10) as u8,
        (0x30 + f / 100 % 10) as u8,
    ]);
    assert(s.drop_last().drop_last().drop_last() =~= seq![(0x30 + f / 1000 % 10) as u8]);
    assert(s.drop_last().drop_last().drop_last().drop_last() =~= Seq::<u8>::empty());
    assert(digits_value(s.drop_last().drop_last().drop_last().drop_last()) == 0);
    assert(digits_value(s.drop_last().drop_last().drop_last()) == f / 1000 % 10);
    assert(digits_value(s.drop_last().drop_last()) == f / 1000 % 10 * 10 + f / 100 % 10);
    assert(digits_value(s.drop_last()) == (f / 1000 % 10 * 10 + f / 100 % 10) * 10 + f / 10
        % 10);
    assert(digits_value(s) == ((f / 1000 % 10 * 10 + f / 100 % 10) * 10 + f / 10 % 10) * 10 + f
        % 10);
    assert(f / 1000 % 10 == f / 1000);
    assert(((f / 1000 * 10 + f / 100 % 10) * 10 + f / 10 % 10) * 10 + f % 10 == f);
}

/// Dropping trailing zeros divides the value by the matching power of
/// ten, exactly.
pub proof fn lemma_trim_zeros_value(s: Seq<u8>)
    requires
        digit_seq(s),
    ensures
        trim_zeros(s).len() <= s.len(),
        digit_seq(trim_zeros(s)),
        digits_value(trim_zeros(s)) * pow10((s.len() - trim_zeros(s).len()) as nat)
            == digits_value(s),
        digits_value(s) > 0 ==> trim_zeros(s).len() >= 1,
    decreases s.len(),
{
    if s.len() > 0 && s.last() == 0x30u8 {
        assert(digit_seq(s.drop_last()));
        lemma_trim_zeros_value(s.drop_last());
        let t = trim_zeros(s);
        assert(t == trim_zeros(s.drop_last()));
        let k = (s.len() - 1 - t.len()) as nat;
        assert(digits_value(s) == digits_value(s.drop_last()) * 10);
        assert(pow10(k + 1) == 10 * pow10(k)) by {
            assert(pow10(k + 1) == 10 * pow10((k + 1 - 1) as nat));
        }
        assert(digits_value(t) * pow10(k) == digits_value(s.drop_last()));
        assert((s.len() - t.len()) as nat == k + 1);
        assert(digits_value(t) * pow10(k + 1) == (digits_value(t) * pow10(k)) * 10)
            by (nonlinear_arith)
            requires
                pow10(k + 1) == 10 * pow10(k),
        ;
        assert(digits_value(t) * pow10((s.len() - trim_zeros(s).len()) as nat) == digits_value(
            s,
        ));
    } else {
        assert(trim_zeros(s) == s);
        assert(pow10(0) == 1);
        assert(digits_value(s) * pow10(0) == digits_value(s)) by (nonlinear_arith)
            requires
                pow10(0) == 1,
        ;
        assert((s.len() - trim_zeros(s).len()) as nat == 0);
    }
}

/// A digit string's value stays below the matching power of ten.
pub proof fn lemma_digits_value_bound(s: Seq<u8>)
    requires
        digit_seq(s),
    ensures
        digits_value(s) < pow10(s.len() as nat),
    decreases s.len(),
{
    if s.len() == 0 {
        assert(pow10(0) == 1);
    } else {
        assert(digit_seq(s.drop_last()));
        lemma_digits_value_bound(s.drop_last());
        let v = digits_value(s.drop_last());
        let p = pow10(s.drop_last().len() as nat);
        assert(pow10(s.len() as nat) == 10 * p);
        assert(is_digit(s[s.len() - 1]));
        let d = (s.last() - D0) as nat;
        assert(v * 10 + d < 10 * p) by (nonlinear_arith)
            requires
                v < p,
                d < 10,
        ;
    }
}

/// The fields of the tokenizer that feeding digits must not touch.
pub open spec fn same_word_identity(t2: Tokenizer, t: Tokenizer) -> bool {
    &&& t2.state == t.state
    &&& t2.letter == t.letter
    &&& t2.neg == t.neg
    &&& t2.has_sign == t.has_sign
    &&& t2.star_seen == t.star_seen
    &&& t2.star_xor == t.star_xor
}

/// Feeding a digit string mid-word, before any decimal point: the digits
/// accumulate into the integer part, quietly.
pub proof fn lemma_tok_int_digits(t: Tokenizer, s: Seq<u8>)
    requires
        t.state is InWord,
        !t.frac,
        t.wf(),
        digit_seq(s),
        t.int_part * pow10(s.len() as nat) + digits_value(s) <= MAX_INT_PART,
    ensures
        ({
            let t2 = tok_run(t, s);
            &&& same_word_identity(t2, t)
            &&& t2.has_int == (t.has_int || s.len() > 0)
            &&& t2.int_part == t.int_part * pow10(s.len() as nat) + digits_value(s)
            &&& !t2.frac && t2.frac_part == 0 && t2.frac_digits == 0
            &&& t2.prev_eol == (s.len() == 0 && t.prev_eol)
            &&& t2.wf()
            &&& tok_tokens(t, s) == Seq::<Token>::empty()
            &&& tok_clean(t, s)
        }),
    decreases s.len(),
{
    lemma_pow10_small();
    if s.len() == 0 {
        assert(t.int_part * pow10(0) == t.int_part) by (nonlinear_arith)
            requires
                pow10(0) == 1,
        ;
    } else {
        let sdl = s.drop_last();
        assert(digit_seq(sdl));
        assert(is_digit(s[s.len() - 1]));
        let d = (s.last() - D0) as nat;
        let a = t.int_part as nat;
        let p = pow10(sdl.len() as nat);
        let v = digits_value(sdl);
        assert(pow10(s.len() as nat) == 10 * p);
        assert(a * (10 * p) + (v * 10 + d) == (a * p + v) * 10 + d) by (nonlinear_arith);
        assert((a * p + v) * 10 + d <= MAX_INT_PART);
        assert(a * p + v <= MAX_INT_PART / 10);
        lemma_tok_int_digits(t, sdl);
        let t1 = tok_run(t, sdl);
        assert(!crate::tokenizer::is_eol(s.last()));
        assert(tok_tokens(t, s) =~= Seq::<Token>::empty());
    }
}

/// Feeding a digit string after the decimal point, staying within four
/// digits: the digits accumulate into the fractional part, quietly.
pub proof fn lemma_tok_frac_digits(t: Tokenizer, s: Seq<u8>)
    requires
        t.state is InWord,
        t.frac,
        t.wf(),
        digit_seq(s),
        t.frac_digits + s.len() <= 4,
    ensures
        ({
            let t2 = tok_run(t, s);
            &&& same_word_identity(t2, t)
            &&& t2.has_int == t.has_int
            &&& t2.int_part == t.int_part
            &&& t2.frac
            &&& t2.frac_part == t.frac_part * pow10(s.len() as nat) + digits_value(s)
            &&& t2.frac_digits == t.frac_digits + s.len()
            &&& t2.prev_eol == (s.len() == 0 && t.prev_eol)
            &&& t2.wf()
            &&& tok_tokens(t, s) == Seq::<Token>::empty()
            &&& tok_clean(t, s)
        }),
    decreases s.len(),
{
    lemma_pow10_small();
    if s.len() == 0 {
        assert(t.frac_part * pow10(0) == t.frac_part) by (nonlinear_arith)
            requires
                pow10(0) == 1,
        ;
    } else {
        let sdl = s.drop_last();
        assert(digit_seq(sdl));
        assert(is_digit(s[s.len() - 1]));
        let d = (s.last() - D0) as nat;
        let a = t.frac_part as nat;
        let p = pow10(sdl.len() as nat);
        let v = digits_value(sdl);
        assert(pow10(s.len() as nat) == 10 * p);
        assert(a * (10 * p) + (v * 10 + d) == (a * p + v) * 10 + d) by (nonlinear_arith);
        lemma_tok_frac_digits(t, sdl);
        let t1 = tok_run(t, sdl);
        // The accumulated fraction stays below its power of ten, so the
        // new digit still fits.
        lemma_digits_value_bound(sdl);
        crate::num::lemma_pow10_adds(t.frac_digits as nat, sdl.len() as nat);
        crate::num::lemma_pow10_pos(sdl.len() as nat);
        assert(a * p + v < pow10((t.frac_digits + sdl.len()) as nat)) by (nonlinear_arith)
            requires
                a < pow10(t.frac_digits as nat),
                v < p,
                pow10((t.frac_digits + sdl.len()) as nat) == pow10(t.frac_digits as nat) * p,
                p >= 1,
        ;
        assert(pow10((t.frac_digits + sdl.len()) as nat) <= pow10(3)) by {
            if t.frac_digits + sdl.len() == 0 {
            } else if t.frac_digits + sdl.len() == 1 {
            } else if t.frac_digits + sdl.len() == 2 {
            } else {
            }
        }
        assert(!crate::tokenizer::is_eol(s.last()));
        assert(tok_tokens(t, s) =~= Seq::<Token>::empty());
    }
}

/// A tokenizer sitting at the start of a line position: state `Start`
/// with the word scratch empty.
pub open spec fn at_line_start(t: Tokenizer) -> bool {
    &&& t.state is Start
    &&& !t.neg && !t.has_sign && !t.has_int && t.int_part == 0
    &&& !t.frac && t.frac_part == 0 && t.frac_digits == 0
}

/// A word the serializer can emit and the tokenizer read back: an
/// ordinary upper-case letter and a mantissa within the held range.
pub open spec fn word_wf(w: (u8, i64)) -> bool {
    &&& UA <= w.0 && w.0 <= UZ
    &&& w.0 != LETTER_N
    &&& -MAX_MANTISSA <= w.1 <= MAX_MANTISSA
}

/// Feeding the digit text of mantissa `m` mid-word leaves scratch from
/// which closing the word yields exactly `m` back.
#[verifier::rlimit(50)]
pub proof fn lemma_tok_number(t: Tokenizer, m: i64)
    requires
        t.state is InWord,
        !t.neg && !t.has_sign && !t.has_int && t.int_part == 0,
        !t.frac && t.frac_part == 0 && t.frac_digits == 0,
        t.wf(),
        -MAX_MANTISSA <= m <= MAX_MANTISSA,
    ensures
        ({
            let bs = spec_ser_number(m);
            let t2 = tok_run(t, bs);
            &&& tok_tokens(t, bs) == Seq::<Token>::empty()
            &&& tok_clean(t, bs)
            &&& t2.state is InWord
            &&& t2.letter == t.letter
            &&& t2.star_seen == t.star_seen && t2.star_xor == t.star_xor
            &&& t2.has_int
            &&& !(t2.frac && t2.frac_digits == 0)
            &&& t2.neg == (m < 0) && t2.has_sign == (m < 0)
            &&& t2.int_part <= MAX_INT_PART
            &&& crate::tokenizer::spec_word_mantissa(t2) == m
            &&& !t2.prev_eol
            &&& t2.wf()
            &&& bs.len() > 0
        }),
{
    reveal_with_fuel(tok_run, 2);
    reveal_with_fuel(tok_tokens, 2);
    reveal_with_fuel(tok_clean, 2);
    lemma_pow10_small();
    let a = if m < 0 {
        (-(m as int)) as nat
    } else {
        m as nat
    };
    let sign: Seq<u8> = if m < 0 {
        seq![crate::tokenizer::MINUS]
    } else {
        Seq::<u8>::empty()
    };
    let ip = (a / 10000) as nat;
    let f = (a % 10000) as nat;
    let ints = spec_digits(ip);
    let fracs: Seq<u8> = if f == 0 {
        Seq::<u8>::empty()
    } else {
        seq![crate::tokenizer::DOT] + spec_frac_digits(f)
    };
    let bs = spec_ser_number(m);
    assert(bs =~= (sign + ints) + fracs);
    // Sign segment.
    let t_sign = tok_run(t, sign);
    if m < 0 {
        assert(sign.drop_last() =~= Seq::<u8>::empty());
        assert(t_sign == spec_step(t, crate::tokenizer::MINUS).0);
        assert(tok_tokens(t, sign) =~= Seq::<Token>::empty());
    } else {
        assert(tok_tokens(t, sign) =~= Seq::<Token>::empty());
    }
    // Integer digits.
    lemma_spec_digits_value(ip);
    assert(ip <= MAX_INT_PART);
    assert(t_sign.int_part * pow10(ints.len() as nat) == 0) by (nonlinear_arith)
        requires
            t_sign.int_part == 0,
    ;
    lemma_tok_int_digits(t_sign, ints);
    lemma_tok_app(t, sign, ints);
    let t_int = tok_run(t_sign, ints);
    assert(t_int.int_part == ip);
    // Fractional digits.
    let t2 = tok_run(t_int, fracs);
    if f != 0 {
        lemma_frac4_value(f);
        lemma_trim_zeros_value(spec_frac4(f));
        let fd = spec_frac_digits(f);
        assert(fd.len() >= 1 && fd.len() <= 4);
        assert(fracs.drop_last() =~= seq![crate::tokenizer::DOT] + fd.drop_last());
        // The dot step.
        let t_dot = spec_step(t_int, crate::tokenizer::DOT).0;
        assert(seq![crate::tokenizer::DOT].drop_last() =~= Seq::<u8>::empty());
        assert(tok_run(t_int, seq![crate::tokenizer::DOT]) == t_dot);
        assert(tok_tokens(t_int, seq![crate::tokenizer::DOT]) =~= Seq::<Token>::empty());
        assert(t_dot.frac_part * pow10(fd.len() as nat) == 0) by (nonlinear_arith)
            requires
                t_dot.frac_part == 0,
        ;
        lemma_tok_frac_digits(t_dot, fd);
        lemma_tok_app(t_int, seq![crate::tokenizer::DOT], fd);
        assert(fracs =~= seq![crate::tokenizer::DOT] + fd);
        assert(t2.frac_part == digits_value(fd));
        assert(t2.frac_digits == fd.len());
        // The scaled fraction reproduces f.
        assert((t2.frac_part as nat) * pow10((4 - t2.frac_digits) as nat) == f);
    } else {
        assert(fracs.len() == 0);
        assert(tok_tokens(t_int, fracs) =~= Seq::<Token>::empty());
    }
    lemma_tok_app(t, sign + ints, fracs);
    assert(tok_tokens(t, bs) =~= Seq::<Token>::empty());
    // The mantissa computed at word close.
    assert(crate::tokenizer::spec_word_mantissa(t2) == m) by {
        if f == 0 {
            assert(t2.frac_part == 0);
            assert((t2.frac_part as nat) * pow10((4 - t2.frac_digits) as nat) == 0)
                by (nonlinear_arith)
                requires
                    t2.frac_part == 0,
            ;
        }
        assert(ip * 10000 + f == a);
        assert(t2.int_part * 10000 + (t2.frac_part as nat) * pow10((4 - t2.frac_digits) as nat)
            == a);
    }
}

/// One serialized word, fed from a line-start position, yields exactly
/// its token and leaves the tokenizer back at a line-start position.
#[verifier::rlimit(50)]
pub proof fn lemma_tok_word(t: Tokenizer, w: (u8, i64))
    requires
        at_line_start(t),
        t.wf(),
        word_wf(w),
    ensures
        ({
            let bs = spec_ser_word(w);
            let t2 = tok_run(t, bs);
            &&& tok_tokens(t, bs) == seq![Token::Word { letter: w.0, mantissa: w.1 }]
            &&& tok_clean(t, bs)
            &&& at_line_start(t2)
            &&& !t2.prev_eol
            &&& t2.wf()
            &&& bs.len() > 0
        }),
{
    reveal_with_fuel(tok_run, 2);
    reveal_with_fuel(tok_tokens, 2);
    reveal_with_fuel(tok_clean, 2);
    lemma_pow10_small();
    let bs = spec_ser_word(w);
    let letter: Seq<u8> = seq![w.0];
    let num = spec_ser_number(w.1);
    let sp: Seq<u8> = seq![crate::tokenizer::SP];
    assert(bs =~= (letter + num) + sp);
    // The letter opens the word.
    assert(letter.drop_last() =~= Seq::<u8>::empty());
    let t_l = tok_run(t, letter);
    assert(t_l == spec_step(t, w.0).0);
    assert(crate::tokenizer::is_alpha(w.0));
    assert(crate::tokenizer::to_upper(w.0) == w.0);
    assert(tok_tokens(t, letter) =~= Seq::<Token>::empty());
    assert(t_l.state is InWord && t_l.letter == w.0);
    // The number fills the scratch.
    lemma_tok_number(t_l, w.1);
    lemma_tok_app(t, letter, num);
    let t_n = tok_run(t_l, num);
    // The space closes the word.
    let t2 = spec_step(t_n, crate::tokenizer::SP).0;
    assert(sp.drop_last() =~= Seq::<u8>::empty());
    assert(tok_run(t_n, sp) == t2);
    assert(crate::tokenizer::spec_finalize(
        crate::tokenizer::spec_bump(t_n, crate::tokenizer::SP),
        crate::tokenizer::SP,
    ) == Ok::<Token, ParseError>(Token::Word { letter: w.0, mantissa: w.1 }));
    assert(tok_tokens(t_n, sp) =~= seq![Token::Word { letter: w.0, mantissa: w.1 }]);
    lemma_tok_app(t, letter + num, sp);
    assert(tok_tokens(t, bs) =~= seq![Token::Word { letter: w.0, mantissa: w.1 }]);
}

/// A serialized `N` word yields exactly its line-number token.
#[verifier::rlimit(50)]
pub proof fn lemma_tok_line_number(t: Tokenizer, n: u32)
    requires
        at_line_start(t),
        t.wf(),
        n < 100000,
    ensures
        ({
            let bs = seq![LETTER_N] + spec_digits(n as nat) + seq![crate::tokenizer::SP];
            let t2 = tok_run(t, bs);
            &&& tok_tokens(t, bs) == seq![Token::LineNumber { n }]
            &&& tok_clean(t, bs)
            &&& at_line_start(t2)
            &&& !t2.prev_eol
            &&& t2.wf()
        }),
{
    reveal_with_fuel(tok_run, 2);
    reveal_with_fuel(tok_tokens, 2);
    reveal_with_fuel(tok_clean, 2);
    lemma_pow10_small();
    let letter: Seq<u8> = seq![LETTER_N];
    let num = spec_digits(n as nat);
    let sp: Seq<u8> = seq![crate::tokenizer::SP];
    let bs = letter + num + sp;
    assert(bs =~= (letter + num) + sp);
    assert(letter.drop_last() =~= Seq::<u8>::empty());
    let t_l = tok_run(t, letter);
    assert(t_l == spec_step(t, LETTER_N).0);
    assert(crate::tokenizer::is_alpha(LETTER_N));
    assert(crate::tokenizer::to_upper(LETTER_N) == LETTER_N);
    assert(tok_tokens(t, letter) =~= Seq::<Token>::empty());
    lemma_spec_digits_value(n as nat);
    assert(t_l.int_part * pow10(num.len() as nat) == 0) by (nonlinear_arith)
        requires
            t_l.int_part == 0,
    ;
    lemma_tok_int_digits(t_l, num);
    lemma_tok_app(t, letter, num);
    let t_n = tok_run(t_l, num);
    assert(t_n.int_part == n);
    let t2 = spec_step(t_n, crate::tokenizer::SP).0;
    assert(sp.drop_last() =~= Seq::<u8>::empty());
    assert(tok_run(t_n, sp) == t2);
    assert(crate::tokenizer::spec_finalize(
        crate::tokenizer::spec_bump(t_n, crate::tokenizer::SP),
        crate::tokenizer::SP,
    ) == Ok::<Token, ParseError>(Token::LineNumber { n }));
    assert(tok_tokens(t_n, sp) =~= seq![Token::LineNumber { n }]);
    lemma_tok_app(t, letter + num, sp);
    assert(tok_tokens(t, bs) =~= seq![Token::LineNumber { n }]);
}

/// The token a word maps to.
pub open spec fn word_token(w: (u8, i64)) -> Token {
    Token::Word { letter: w.0, mantissa: w.1 }
}

/// The serialized words of a line, fed in order, yield exactly their
/// tokens.
pub proof fn lemma_tok_words(t: Tokenizer, ws: Seq<(u8, i64)>)
    requires
        at_line_start(t),
        t.wf(),
        forall|i: int| 0 <= i < ws.len() ==> word_wf(#[trigger] ws[i]),
    ensures
        ({
            let bs = spec_ser_words(ws);
            let t2 = tok_run(t, bs);
            &&& tok_tokens(t, bs) == ws.map_values(|w: (u8, i64)| word_token(w))
            &&& tok_clean(t, bs)
            &&& at_line_start(t2)
            &&& t2.prev_eol == (ws.len() == 0 && t.prev_eol)
            &&& t2.wf()
        }),
    decreases ws.len(),
{
    if ws.len() == 0 {
        assert(tok_tokens(t, spec_ser_words(ws)) =~= ws.map_values(
            |w: (u8, i64)| word_token(w),
        ));
    } else {
        let wdl = ws.drop_last();
        let w = ws.last();
        assert(word_wf(w));
        assert(forall|i: int| 0 <= i < wdl.len() ==> word_wf(#[trigger] wdl[i])) by {
            assert forall|i: int| 0 <= i < wdl.len() implies word_wf(#[trigger] wdl[i]) by {
                assert(wdl[i] == ws[i]);
            }
        }
        lemma_tok_words(t, wdl);
        let t1 = tok_run(t, spec_ser_words(wdl));
        lemma_tok_word(t1, w);
        lemma_tok_app(t, spec_ser_words(wdl), spec_ser_word(w));
        assert(tok_tokens(t, spec_ser_words(ws)) =~= ws.map_values(
            |w2: (u8, i64)| word_token(w2),
        )) by {
            assert(ws.map_values(|w2: (u8, i64)| word_token(w2)).drop_last() =~= wdl.map_values(
                |w2: (u8, i64)| word_token(w2),
            ));
        }
    }
}

/// The tokens a whole line carries: the line number when present, the
/// words, and one `Execute`.
pub open spec fn line_tokens(number: Option<u32>, words: Seq<(u8, i64)>) -> Seq<Token> {
    (match number {
        Some(n) => seq![Token::LineNumber { n }],
        None => Seq::<Token>::empty(),
    }) + words.map_values(|w: (u8, i64)| word_token(w)) + seq![Token::Execute]
}

/// Round trip: tokenizing a serialized, well-formed line reproduces
/// exactly its word list — the line number, every word with its letter
/// and mantissa in order, and a single `Execute` — with no lexical error,
/// and returns the tokenizer to the start of a fresh line.
#[verifier::rlimit(50)]
pub proof fn lemma_round_trip(t: Tokenizer, number: Option<u32>, words: Seq<(u8, i64)>)
    requires
        at_line_start(t),
        t.wf(),
        forall|i: int| 0 <= i < words.len() ==> word_wf(#[trigger] words[i]),
        number is Some ==> number->0 < 100000,
        number is Some || words.len() > 0,
    ensures
        ({
            let bs = spec_ser_line(number, words);
            let t2 = tok_run(t, bs);
            &&& tok_tokens(t, bs) == line_tokens(number, words)
            &&& tok_clean(t, bs)
            &&& t2 == crate::tokenizer::spec_line_reset(t)
        }),
{
    reveal_with_fuel(tok_run, 2);
    reveal_with_fuel(tok_tokens, 2);
    reveal_with_fuel(tok_clean, 2);
    let prefix: Seq<u8> = match number {
        Some(n) => seq![LETTER_N] + spec_digits(n as nat) + seq![crate::tokenizer::SP],
        None => Seq::<u8>::empty(),
    };
    let bs = spec_ser_line(number, words);
    assert(bs =~= (prefix + spec_ser_words(words)) + seq![crate::tokenizer::LF]);
    let t1 = tok_run(t, prefix);
    match number {
        Some(n) => {
            lemma_tok_line_number(t, n);
        },
        None => {
            assert(tok_tokens(t, prefix) =~= Seq::<Token>::empty());
        },
    }
    lemma_tok_words(t1, words);
    lemma_tok_app(t, prefix, spec_ser_words(words));
    let t2 = tok_run(t1, spec_ser_words(words));
    assert(!t2.prev_eol);
    // The line feed emits the lone Execute.
    let lf: Seq<u8> = seq![crate::tokenizer::LF];
    assert(lf.drop_last() =~= Seq::<u8>::empty());
    let t3 = spec_step(t2, crate::tokenizer::LF).0;
    assert(tok_run(t2, lf) == t3);
    assert(tok_tokens(t2, lf) =~= seq![Token::Execute]);
    lemma_tok_app(t, prefix + spec_ser_words(words), lf);
    assert(tok_tokens(t, bs) =~= line_tokens(number, words));
    assert(tok_run(t, bs) == crate::tokenizer::spec_line_reset(t));
}

/// The assembler state after consuming `ts` from `a`.
pub open spec fn asm_run(a: AsmView, ts: Seq<Token>) -> AsmView
    decreases ts.len(),
{
    if ts.len() == 0 {
        a
    } else {
        asm_run(asm_step(a, ts[0]).0, ts.drop_first())
    }
}

/// The events the assembler owes while consuming `ts` from `a`.
pub open spec fn asm_events(a: AsmView, ts: Seq<Token>) -> Seq<EventV>
    decreases ts.len(),
{
    if ts.len() == 0 {
        Seq::<EventV>::empty()
    } else {
        let (a2, fv) = asm_step(a, ts[0]);
        events_of_feed(fv, a2.expected) + asm_events(a2, ts.drop_first())
    }
}

/// Whether the assembler rejects nothing while consuming `ts` from `a`.
pub open spec fn asm_accepts(a: AsmView, ts: Seq<Token>) -> bool
    decreases ts.len(),
{
    if ts.len() == 0 {
        true
    } else {
        !(asm_step(a, ts[0]).1 is RejectV) && asm_accepts(asm_step(a, ts[0]).0, ts.drop_first())
    }
}

/// Assembler runs compose over concatenation.
pub proof fn lemma_asm_app(a: AsmView, ts1: Seq<Token>, ts2: Seq<Token>)
    ensures
        asm_run(a, ts1 + ts2) == asm_run(asm_run(a, ts1), ts2),
        asm_events(a, ts1 + ts2) == asm_events(a, ts1) + asm_events(asm_run(a, ts1), ts2),
        asm_accepts(a, ts1 + ts2) == (asm_accepts(a, ts1) && asm_accepts(asm_run(a, ts1), ts2)),
    decreases ts1.len(),
{
    if ts1.len() == 0 {
        assert(ts1 + ts2 =~= ts2);
        assert(asm_events(a, ts1) + asm_events(asm_run(a, ts1), ts2) =~= asm_events(a, ts2));
    } else {
        assert((ts1 + ts2)[0] == ts1[0]);
        assert((ts1 + ts2).drop_first() =~= ts1.drop_first() + ts2);
        let a1 = asm_step(a, ts1[0]).0;
        lemma_asm_app(a1, ts1.drop_first(), ts2);
        assert(asm_events(a, ts1 + ts2) =~= asm_events(a, ts1) + asm_events(
            asm_run(a, ts1),
            ts2,
        ));
    }
}

/// Head decomposition of a tokenizer run.
pub proof fn lemma_tok_cons(t: Tokenizer, bs: Seq<u8>)
    requires
        bs.len() > 0,
    ensures
        tok_run(t, bs) == tok_run(spec_step(t, bs[0]).0, bs.drop_first()),
        tok_tokens(t, bs) == step_tokens(spec_step(t, bs[0]).1) + tok_tokens(
            spec_step(t, bs[0]).0,
            bs.drop_first(),
        ),
        tok_clean(t, bs) == (step_clean(spec_step(t, bs[0]).1) && tok_clean(
            spec_step(t, bs[0]).0,
            bs.drop_first(),
        )),
{
    reveal_with_fuel(tok_run, 2);
    reveal_with_fuel(tok_tokens, 2);
    reveal_with_fuel(tok_clean, 2);
    let s1: Seq<u8> = seq![bs[0]];
    let s2 = bs.drop_first();
    assert(bs =~= s1 + s2);
    assert(s1.drop_last() =~= Seq::<u8>::empty());
    assert(tok_run(t, s1) == spec_step(t, bs[0]).0);
    assert(tok_tokens(t, s1) =~= step_tokens(spec_step(t, bs[0]).1));
    lemma_tok_app(t, s1, s2);
}

/// While the tokenizer raises no error, the core is exactly the
/// tokenizer's tokens fed through the assembler.
pub proof fn lemma_core_follows_tok(c: CoreV, bs: Seq<u8>)
    requires
        tok_clean(c.tok, bs),
        asm_accepts(c.assembler, tok_tokens(c.tok, bs)),
    ensures
        ({
            let (c2, evs) = core_run(c, bs);
            &&& c2.tok == tok_run(c.tok, bs)
            &&& c2.assembler == asm_run(c.assembler, tok_tokens(c.tok, bs))
            &&& evs == asm_events(c.assembler, tok_tokens(c.tok, bs))
        }),
    decreases bs.len(),
{
    reveal_with_fuel(asm_run, 3);
    reveal_with_fuel(asm_events, 3);
    reveal_with_fuel(asm_accepts, 3);
    if bs.len() == 0 {
        assert(asm_events(c.assembler, tok_tokens(c.tok, bs)) =~= Seq::<EventV>::empty());
    } else {
        lemma_tok_cons(c.tok, bs);
        let (t2, ts) = spec_step(c.tok, bs[0]);
        let toks0 = step_tokens(ts);
        let rest = bs.drop_first();
        let (c1, ev0) = core_step(c, bs[0]);
        lemma_asm_app(c.assembler, toks0, tok_tokens(t2, rest));
        assert(asm_accepts(c.assembler, toks0));
        assert(c1.tok == t2) by {
            match ts {
                TokStep::One(tok) => {
                    assert(toks0 =~= seq![tok]);
                    assert(!(asm_step(c.assembler, tok).1 is RejectV));
                },
                _ => {},
            }
        }
        match ts {
            TokStep::Quiet => {
                assert(c1.assembler =~= asm_run(c.assembler, toks0));
                assert(ev0 =~= asm_events(c.assembler, toks0));
            },
            TokStep::One(tok) => {
                assert(toks0 =~= seq![tok]);
                assert(toks0.drop_first() =~= Seq::<Token>::empty());
                assert(c1.assembler =~= asm_run(c.assembler, toks0));
                assert(ev0 =~= asm_events(c.assembler, toks0));
            },
            TokStep::Two(tok1, tok2) => {
                assert(toks0 =~= seq![tok1, tok2]);
                assert(toks0.drop_first() =~= seq![tok2]);
                assert(toks0.drop_first().drop_first() =~= Seq::<Token>::empty());
                assert(c1.assembler =~= asm_run(c.assembler, toks0));
                assert(ev0 =~= asm_events(c.assembler, toks0));
            },
            TokStep::Fail(_) => {
                assert(false);
            },
            TokStep::FailEol(_) => {
                assert(false);
            },
        }
        lemma_core_follows_tok(c1, rest);
        assert(core_run(c, bs).1 =~= asm_events(c.assembler, tok_tokens(c.tok, bs)));
    }
}

/// Feeding word tokens outside recovery, under the cap and before any
/// checksum, only grows the buffered words, silently.
pub proof fn lemma_asm_words(a: AsmView, ws: Seq<(u8, i64)>)
    requires
        !(a.state is Recovering),
        a.checksum is None,
        !a.overflowed,
        crate::assembler::spec_word_count(a) + ws.len() <= 10,
    ensures
        ({
            let a2 = asm_run(a, ws.map_values(|w: (u8, i64)| word_token(w)));
            &&& a2 == (AsmView {
                words: a.words + ws,
                state: if ws.len() > 0 {
                    crate::assembler::AsmState::Accumulating
                } else {
                    a.state
                },
                ..a
            })
            &&& asm_events(a, ws.map_values(|w: (u8, i64)| word_token(w))) == Seq::<
            EventV,
            >::empty()
            &&& asm_accepts(a, ws.map_values(|w: (u8, i64)| word_token(w)))
        }),
    decreases ws.len(),
{
    reveal_with_fuel(asm_run, 2);
    reveal_with_fuel(asm_events, 2);
    reveal_with_fuel(asm_accepts, 2);
    let ts = ws.map_values(|w: (u8, i64)| word_token(w));
    if ws.len() == 0 {
        assert(a.words + ws =~= a.words);
        assert(asm_run(a, ts) =~= (AsmView { words: a.words + ws, ..a }));
    } else {
        assert(ts[0] == word_token(ws[0]));
        let a1 = asm_step(a, ts[0]).0;
        assert(a1.words =~= a.words.push(ws[0]));
        assert(ts.drop_first() =~= ws.drop_first().map_values(|w: (u8, i64)| word_token(w)));
        lemma_asm_words(a1, ws.drop_first());
        assert(a.words.push(ws[0]) + ws.drop_first() =~= a.words + ws);
        assert(asm_run(a, ts) =~= (AsmView {
            words: a.words + ws,
            state: crate::assembler::AsmState::Accumulating,
            ..a
        }));
        assert(asm_events(a, ts) =~= Seq::<EventV>::empty());
    }
}

/// Round trip through the whole core: a serialized well-formed line, fed
/// to a core whose cursor matches it, is accepted verbatim — the executor
/// receives exactly the original line number and words, the host exactly
/// one `ok` — and the core ends ready for the next line.
#[verifier::rlimit(50)]
pub proof fn lemma_round_trip_core(c: CoreV, number: Option<u32>, words: Seq<(u8, i64)>)
    requires
        at_line_start(c.tok),
        c.tok.wf(),
        forall|i: int| 0 <= i < words.len() ==> word_wf(#[trigger] words[i]),
        number is Some ==> number->0 == c.assembler.expected
            && c.assembler.expected < 100000,
        number is None ==> !c.assembler.established,
        number is Some || words.len() > 0,
        c.assembler.state is Idle,
        c.assembler.line_no is None,
        c.assembler.words.len() == 0,
        c.assembler.checksum is None,
        !c.assembler.overflowed,
        words.len() + (if number is Some {
            1int
        } else {
            0int
        }) <= 10,
    ensures
        ({
            let bs = spec_ser_line(number, words);
            let (c2, evs) = core_run(c, bs);
            &&& evs == seq![
                EventV::LineV { number, words },
                EventV::RespondV(crate::responder::spec_ok()),
            ]
            &&& c2.tok == crate::tokenizer::spec_line_reset(c.tok)
            &&& c2.assembler.state is Idle
            &&& c2.assembler.words.len() == 0
            &&& c2.assembler.expected == (if number is Some {
                ((c.assembler.expected + 1) as int % 100000) as u32
            } else {
                c.assembler.expected
            })
        }),
{
    reveal_with_fuel(asm_run, 3);
    reveal_with_fuel(asm_events, 3);
    reveal_with_fuel(asm_accepts, 3);
    let bs = spec_ser_line(number, words);
    lemma_round_trip(c.tok, number, words);
    let a = c.assembler;
    let head: Seq<Token> = match number {
        Some(n) => seq![Token::LineNumber { n }],
        None => Seq::<Token>::empty(),
    };
    let wtoks = words.map_values(|w: (u8, i64)| word_token(w));
    let exec: Seq<Token> = seq![Token::Execute];
    assert(line_tokens(number, words) =~= (head + wtoks) + exec);
    // The line-number token, if any, is recorded silently.
    let a1 = asm_run(a, head);
    match number {
        Some(n) => {
            assert(head.drop_first() =~= Seq::<Token>::empty());
            assert(a1 == asm_step(a, head[0]).0);
            assert(asm_events(a, head) =~= Seq::<EventV>::empty());
        },
        None => {
            assert(asm_events(a, head) =~= Seq::<EventV>::empty());
        },
    }
    // The words accumulate silently.
    lemma_asm_words(a1, words);
    let a2 = asm_run(a1, wtoks);
    lemma_asm_app(a, head, wtoks);
    // Execute accepts the line.
    assert(exec.drop_first() =~= Seq::<Token>::empty());
    let (a3, fv) = asm_step(a2, Token::Execute);
    assert(a2.words =~= words) by {
        assert(a1.words == a.words);
        assert(a2.words == a1.words + words);
        assert(a.words =~= Seq::<(u8, i64)>::empty());
        assert(Seq::<(u8, i64)>::empty() + words =~= words);
    }
    assert(fv == FeedV::ReadyV { number, words });
    assert(asm_events(a2, exec) =~= events_of_feed(fv, a3.expected));
    lemma_asm_app(a, head + wtoks, exec);
    assert(asm_events(a, line_tokens(number, words)) =~= seq![
        EventV::LineV { number, words },
        EventV::RespondV(crate::responder::spec_ok()),
    ]);
    assert(asm_accepts(a, head));
    assert(asm_accepts(a2, exec));
    assert(asm_accepts(a, line_tokens(number, words)));
    lemma_core_follows_tok(c, bs);
}

} // verus!
