//! Byte-stream tokenizer: a wait-free state machine turning serial bytes
//! into G-code words, line-number markers, checksums and the end-of-line
//! `Execute` sentinel.
//!
//! `advance` consumes exactly one byte and emits at most two tokens (a word
//! can be closed by the very byte that ends the line).  The whole transition
//! relation is the spec function [`spec_step`]; the executable code only
//! refines it, so every property of the stream is proved against the spec.

use vstd::prelude::*;
use crate::num::pow10;
use crate::num::lemma_pow10_small;
use crate::token::ParseError;
use crate::token::Token;

verus! {

/// ASCII byte values the lexer branches on.
pub const LF: u8 = 0x0a;

pub const CR: u8 = 0x0d;

pub const SP: u8 = 0x20;

pub const TAB: u8 = 0x09;

pub const SEMI: u8 = 0x3b;

pub const STAR: u8 = 0x2a;

pub const PLUS: u8 = 0x2b;

pub const MINUS: u8 = 0x2d;

pub const DOT: u8 = 0x2e;

pub const D0: u8 = 0x30;

pub const D9: u8 = 0x39;

pub const UA: u8 = 0x41;

pub const UZ: u8 = 0x5a;

pub const LA: u8 = 0x61;

pub const LZ: u8 = 0x7a;

pub const LETTER_N: u8 = 0x4e;

/// Lexical state.  `Discard` is entered after a lexical error (or on
/// request during recovery) and swallows everything up to the end of line.
#[derive(Clone, Copy, PartialEq, Eq, Structural, Debug)]
pub enum LexState {
    Start,
    InWord,
    InComment,
    Discard,
}

/// The tokenizer: lexical state plus the scratch of the word being read
/// and the running XOR used for checksums.
#[derive(Clone, Copy, PartialEq, Eq, Structural, Debug)]
pub struct Tokenizer {
    pub state: LexState,
    /// Upper-case letter of the word being read (`*` for a checksum).
    pub letter: u8,
    /// The sign of the number, when one was read.
    pub neg: bool,
    pub has_sign: bool,
    /// Whether at least one integer digit was read.
    pub has_int: bool,
    /// Accumulated integer part, capped so the mantissa fits an `i64`.
    pub int_part: u64,
    /// Whether a decimal point was read.
    pub frac: bool,
    /// Accumulated fractional digits, at most four of them.
    pub frac_part: u16,
    pub frac_digits: u8,
    /// XOR of the bytes of the current line before any `*`.
    pub xor: u8,
    pub star_seen: bool,
    /// The XOR latched when the `*` arrived.
    pub star_xor: u8,
    /// True right after an end-of-line byte, so `\r\n` yields one Execute.
    pub prev_eol: bool,
}

/// What one byte produced.
#[derive(Clone, Copy, PartialEq, Eq, Structural, Debug)]
pub enum TokStep {
    /// Nothing to emit yet.
    Quiet,
    One(Token),
    /// A word closed by the end-of-line byte: the word, then `Execute`.
    Two(Token, Token),
    /// Lexical error mid-line; the tokenizer now discards until end of line.
    Fail(ParseError),
    /// Lexical error detected on the end-of-line byte itself: the line is
    /// already over, no discarding is needed.
    FailEol(ParseError),
}

pub open spec fn is_eol(b: u8) -> bool {
    b == LF || b == CR
}

pub open spec fn is_ws(b: u8) -> bool {
    b == SP || b == TAB
}

pub open spec fn is_digit(b: u8) -> bool {
    D0 <= b && b <= D9
}

pub open spec fn is_alpha(b: u8) -> bool {
    (UA <= b && b <= UZ) || (LA <= b && b <= LZ)
}

pub open spec fn to_upper(b: u8) -> u8 {
    if LA <= b && b <= LZ {
        (b - 0x20) as u8
    } else {
        b
    }
}

/// Largest integer part the tokenizer accepts; one more digit would risk
/// the scaled mantissa overflowing an `i64`.
pub const MAX_INT_PART: u64 = 999_999_999_999;

impl Tokenizer {
    /// Structural invariant tying the scratch fields together.
    pub open spec fn wf(self) -> bool {
        &&& self.int_part <= MAX_INT_PART
        &&& self.frac_digits <= 4
        &&& (self.frac_part as nat) < pow10(self.frac_digits as nat)
        &&& (!self.frac ==> self.frac_part == 0 && self.frac_digits == 0)
        &&& (!self.has_int ==> self.int_part == 0)
    }

    /// The boot state.
    pub open spec fn spec_initial() -> Tokenizer {
        Tokenizer {
            state: LexState::Start,
            letter: 0,
            neg: false,
            has_sign: false,
            has_int: false,
            int_part: 0,
            frac: false,
            frac_part: 0,
            frac_digits: 0,
            xor: 0,
            star_seen: false,
            star_xor: 0,
            prev_eol: false,
        }
    }
}

/// State after an end-of-line byte: everything of the line is forgotten.
pub open spec fn spec_line_reset(t: Tokenizer) -> Tokenizer {
    Tokenizer { prev_eol: true, ..Tokenizer::spec_initial() }
}

/// Per-byte bookkeeping: the byte is no end of line, and it enters the
/// running XOR unless it is the `*` that opens a checksum or the line's
/// XOR is already latched.
pub open spec fn spec_bump(t: Tokenizer, b: u8) -> Tokenizer {
    let x = if !t.star_seen && (t.state == LexState::InComment || b != STAR) {
        t.xor ^ b
    } else {
        t.xor
    };
    Tokenizer { prev_eol: false, xor: x, ..t }
}

/// Scratch cleared, heading for `s` (`Start` or `InComment`).
pub open spec fn spec_word_clear_to(t: Tokenizer, s: LexState) -> Tokenizer {
    Tokenizer {
        state: s,
        letter: 0,
        neg: false,
        has_sign: false,
        has_int: false,
        int_part: 0,
        frac: false,
        frac_part: 0,
        frac_digits: 0,
        ..t
    }
}

/// A fresh word with letter `l` begins.
pub open spec fn spec_word_start(t: Tokenizer, l: u8) -> Tokenizer {
    Tokenizer { letter: l, ..spec_word_clear_to(t, LexState::InWord) }
}

/// A `*` begins the checksum word; the line XOR is latched once.
pub open spec fn spec_star(t: Tokenizer) -> Tokenizer {
    let sx = if t.star_seen {
        t.star_xor
    } else {
        t.xor
    };
    Tokenizer {
        star_seen: true,
        star_xor: sx,
        ..spec_word_start(t, STAR)
    }
}

/// The mantissa of an ordinary word: integer part scaled, fractional part
/// padded to four digits, then the sign.
pub open spec fn spec_word_mantissa(t: Tokenizer) -> i64 {
    let v = t.int_part * 10000 + t.frac_part * pow10((4 - t.frac_digits) as nat);
    if t.neg {
        (-v) as i64
    } else {
        v as i64
    }
}

/// Closing the current word at byte `b`: which token it yields, or which
/// lexical error.
pub open spec fn spec_finalize(t: Tokenizer, b: u8) -> Result<Token, ParseError> {
    if !t.has_int || (t.frac && t.frac_digits == 0) {
        Err(ParseError::BadSyntax { byte: b })
    } else if t.letter == LETTER_N {
        if t.has_sign || t.frac || t.int_part > 99999 {
            Err(ParseError::BadLineNumber)
        } else {
            Ok(Token::LineNumber { n: t.int_part as u32 })
        }
    } else if t.letter == STAR {
        if t.has_sign || t.frac || t.int_part > 255 {
            Err(ParseError::BadSyntax { byte: b })
        } else {
            Ok(Token::Checksum { stated: t.int_part as u8, computed: t.star_xor })
        }
    } else {
        Ok(Token::Word { letter: t.letter, mantissa: spec_word_mantissa(t) })
    }
}

/// The complete transition relation of the tokenizer: the state after the
/// byte, and what the byte emitted.
pub open spec fn spec_step(t: Tokenizer, b: u8) -> (Tokenizer, TokStep) {
    if is_eol(b) {
        match t.state {
            LexState::Start => if t.prev_eol {
                (t, TokStep::Quiet)
            } else {
                (spec_line_reset(t), TokStep::One(Token::Execute))
            },
            LexState::InComment => (spec_line_reset(t), TokStep::One(Token::Execute)),
            LexState::Discard => (spec_line_reset(t), TokStep::One(Token::Execute)),
            LexState::InWord => match spec_finalize(t, b) {
                Ok(tok) => (spec_line_reset(t), TokStep::Two(tok, Token::Execute)),
                Err(e) => (spec_line_reset(t), TokStep::FailEol(e)),
            },
        }
    } else {
        match t.state {
            LexState::Discard => (Tokenizer { prev_eol: false, ..t }, TokStep::Quiet),
            LexState::InComment => (spec_bump(t, b), TokStep::Quiet),
            LexState::Start => spec_step_start(spec_bump(t, b), b),
            LexState::InWord => spec_step_in_word(spec_bump(t, b), b),
        }
    }
}

/// Transition out of `Start` for a non-end-of-line byte (already bumped).
pub open spec fn spec_step_start(t0: Tokenizer, b: u8) -> (Tokenizer, TokStep) {
    if is_ws(b) {
        (t0, TokStep::Quiet)
    } else if b == SEMI {
        (Tokenizer { state: LexState::InComment, ..t0 }, TokStep::Quiet)
    } else if is_alpha(b) {
        (spec_word_start(t0, to_upper(b)), TokStep::Quiet)
    } else if b == STAR {
        (spec_star(t0), TokStep::Quiet)
    } else {
        (spec_word_clear_to(t0, LexState::Discard), TokStep::Fail(ParseError::BadSyntax {
            byte: b,
        }))
    }
}

/// Transition out of `InWord` for a non-end-of-line byte (already bumped).
pub open spec fn spec_step_in_word(t0: Tokenizer, b: u8) -> (Tokenizer, TokStep) {
    if is_digit(b) {
        if t0.frac {
            if t0.frac_digits >= 4 {
                (t0, TokStep::Quiet)
            } else {
                (Tokenizer {
                    frac_part: (t0.frac_part * 10 + (b - D0)) as u16,
                    frac_digits: (t0.frac_digits + 1) as u8,
                    ..t0
                }, TokStep::Quiet)
            }
        } else if t0.int_part > MAX_INT_PART / 10 {
            (spec_word_clear_to(t0, LexState::Discard), TokStep::Fail(ParseError::BadSyntax {
                byte: b,
            }))
        } else {
            (Tokenizer {
                has_int: true,
                int_part: (t0.int_part * 10 + (b - D0)) as u64,
                ..t0
            }, TokStep::Quiet)
        }
    } else if b == PLUS || b == MINUS {
        if t0.has_sign || t0.has_int || t0.frac {
            (spec_word_clear_to(t0, LexState::Discard), TokStep::Fail(ParseError::BadSyntax {
                byte: b,
            }))
        } else {
            (Tokenizer { has_sign: true, neg: b == MINUS, ..t0 }, TokStep::Quiet)
        }
    } else if b == DOT {
        if t0.frac || !t0.has_int {
            (spec_word_clear_to(t0, LexState::Discard), TokStep::Fail(ParseError::BadSyntax {
                byte: b,
            }))
        } else {
            (Tokenizer { frac: true, ..t0 }, TokStep::Quiet)
        }
    } else if is_ws(b) || b == SEMI || is_alpha(b) || b == STAR {
        match spec_finalize(t0, b) {
            Ok(tok) => if is_ws(b) {
                (spec_word_clear_to(t0, LexState::Start), TokStep::One(tok))
            } else if b == SEMI {
                (spec_word_clear_to(t0, LexState::InComment), TokStep::One(tok))
            } else if is_alpha(b) {
                (spec_word_start(t0, to_upper(b)), TokStep::One(tok))
            } else {
                (spec_star(t0), TokStep::One(tok))
            },
            Err(e) => (spec_word_clear_to(t0, LexState::Discard), TokStep::Fail(e)),
        }
    } else {
        (spec_word_clear_to(t0, LexState::Discard), TokStep::Fail(ParseError::BadSyntax {
            byte: b,
        }))
    }
}

impl Tokenizer {
    /// A tokenizer in its boot state.
    pub fn new() -> (r: Tokenizer)
        ensures
            r == Tokenizer::spec_initial(),
            r.wf(),
    {
        proof {
            lemma_pow10_small();
        }
        Tokenizer {
            state: LexState::Start,
            letter: 0,
            neg: false,
            has_sign: false,
            has_int: false,
            int_part: 0,
            frac: false,
            frac_part: 0,
            frac_digits: 0,
            xor: 0,
            star_seen: false,
            star_xor: 0,
            prev_eol: false,
        }
    }

    /// Forces the boot state; used when the whole stream restarts.
    pub fn reset(&mut self)
        ensures
            *final(self) == Tokenizer::spec_initial(),
            final(self).wf(),
    {
        proof {
            lemma_pow10_small();
        }
        *self = Tokenizer::new();
    }

    /// Starts discarding until the next end of line; used during error
    /// recovery triggered outside the tokenizer (serial fault, overflow).
    pub fn begin_discard(&mut self)
        ensures
            *final(self) == spec_word_clear_to(*old(self), LexState::Discard),
            final(self).wf(),
    {
        proof {
            lemma_pow10_small();
        }
        self.state = LexState::Discard;
        self.letter = 0;
        self.neg = false;
        self.has_sign = false;
        self.has_int = false;
        self.int_part = 0;
        self.frac = false;
        self.frac_part = 0;
        self.frac_digits = 0;
    }

    /// The multiplier that pads the fractional part to four digits.
    fn frac_mult(&self) -> (r: u64)
        requires
            self.frac_digits <= 4,
        ensures
            r == pow10((4 - self.frac_digits) as nat),
            1 <= r <= 10000,
    {
        proof {
            lemma_pow10_small();
        }
        if self.frac_digits == 0 {
            10000
        } else if self.frac_digits == 1 {
            1000
        } else if self.frac_digits == 2 {
            100
        } else if self.frac_digits == 3 {
            10
        } else {
            1
        }
    }

    /// Closes the word being read at terminator byte `b`.
    fn finalize(&self, b: u8) -> (r: Result<Token, ParseError>)
        requires
            self.wf(),
        ensures
            r == spec_finalize(*self, b),
    {
        proof {
            lemma_pow10_small();
        }
        if !self.has_int || (self.frac && self.frac_digits == 0) {
            Err(ParseError::BadSyntax { byte: b })
        } else if self.letter == LETTER_N {
            if self.has_sign || self.frac || self.int_part > 99999 {
                Err(ParseError::BadLineNumber)
            } else {
                Ok(Token::LineNumber { n: self.int_part as u32 })
            }
        } else if self.letter == STAR {
            if self.has_sign || self.frac || self.int_part > 255 {
                Err(ParseError::BadSyntax { byte: b })
            } else {
                Ok(Token::Checksum { stated: self.int_part as u8, computed: self.star_xor })
            }
        } else {
            let mult = self.frac_mult();
            proof {
                crate::num::lemma_pow10_adds(
                    self.frac_digits as nat,
                    (4 - self.frac_digits) as nat,
                );
                assert((self.frac_part as nat) * (mult as nat) < pow10(self.frac_digits as nat)
                    * (mult as nat)) by (nonlinear_arith)
                    requires
                        (self.frac_part as nat) < pow10(self.frac_digits as nat),
                        (mult as nat) >= 1,
                ;
                assert(pow10(self.frac_digits as nat) * (mult as nat) == pow10(4));
            }
            let v: u64 = self.int_part * 10000 + (self.frac_part as u64) * mult;
            let m: i64 = if self.neg {
                -(v as i64)
            } else {
                v as i64
            };
            Ok(Token::Word { letter: self.letter, mantissa: m })
        }
    }

    /// Per-byte bookkeeping shared by all non-end-of-line transitions.
    fn bump(&mut self, b: u8)
        ensures
            *final(self) == spec_bump(*old(self), b),
    {
        if !self.star_seen && (matches!(self.state, LexState::InComment) || b != STAR) {
            self.xor = self.xor ^ b;
        }
        self.prev_eol = false;
    }

    /// Clears the word scratch and moves to state `s`.
    fn word_clear_to(&mut self, s: LexState)
        ensures
            *final(self) == spec_word_clear_to(*old(self), s),
    {
        self.state = s;
        self.letter = 0;
        self.neg = false;
        self.has_sign = false;
        self.has_int = false;
        self.int_part = 0;
        self.frac = false;
        self.frac_part = 0;
        self.frac_digits = 0;
    }

    /// Opens a fresh word with (already upper-cased) letter `l`.
    fn word_start(&mut self, l: u8)
        ensures
            *final(self) == spec_word_start(*old(self), l),
    {
        self.word_clear_to(LexState::InWord);
        self.letter = l;
    }

    /// Opens the checksum word, latching the line XOR once.
    fn star_start(&mut self)
        ensures
            *final(self) == spec_star(*old(self)),
    {
        let sx = if self.star_seen {
            self.star_xor
        } else {
            self.xor
        };
        self.word_start(STAR);
        self.star_seen = true;
        self.star_xor = sx;
    }

    /// Moves to the state after an end-of-line byte.
    fn line_reset(&mut self)
        ensures
            *final(self) == spec_line_reset(*old(self)),
    {
        *self = Tokenizer::new();
        self.prev_eol = true;
    }

    /// Consumes one byte; the contract is exactly one unfolding of
    /// [`spec_step`].
    pub fn advance(&mut self, b: u8) -> (r: TokStep)
        requires
            old(self).wf(),
        ensures
            (*final(self), r) == spec_step(*old(self), b),
            final(self).wf(),
    {
        proof {
            lemma_pow10_small();
        }
        if b == LF || b == CR {
            match self.state {
                LexState::Start => {
                    if self.prev_eol {
                        TokStep::Quiet
                    } else {
                        self.line_reset();
                        TokStep::One(Token::Execute)
                    }
                },
                LexState::InComment => {
                    self.line_reset();
                    TokStep::One(Token::Execute)
                },
                LexState::Discard => {
                    self.line_reset();
                    TokStep::One(Token::Execute)
                },
                LexState::InWord => {
                    let fin = self.finalize(b);
                    self.line_reset();
                    match fin {
                        Ok(tok) => TokStep::Two(tok, Token::Execute),
                        Err(e) => TokStep::FailEol(e),
                    }
                },
            }
        } else {
            match self.state {
                LexState::Discard => {
                    self.prev_eol = false;
                    TokStep::Quiet
                },
                LexState::InComment => {
                    self.bump(b);
                    TokStep::Quiet
                },
                LexState::Start => {
                    self.bump(b);
                    self.step_start(b)
                },
                LexState::InWord => {
                    self.bump(b);
                    self.step_in_word(b)
                },
            }
        }
    }

    /// The `Start` transitions for a non-end-of-line, already bumped byte.
    fn step_start(&mut self, b: u8) -> (r: TokStep)
        requires
            old(self).wf(),
            !is_eol(b),
        ensures
            (*final(self), r) == spec_step_start(*old(self), b),
            final(self).wf(),
    {
        proof {
            lemma_pow10_small();
        }
        if b == SP || b == TAB {
            TokStep::Quiet
        } else if b == SEMI {
            self.state = LexState::InComment;
            TokStep::Quiet
        } else if (UA <= b && b <= UZ) || (LA <= b && b <= LZ) {
            let l = if LA <= b && b <= LZ {
                b - 0x20
            } else {
                b
            };
            self.word_start(l);
            TokStep::Quiet
        } else if b == STAR {
            self.star_start();
            TokStep::Quiet
        } else {
            self.word_clear_to(LexState::Discard);
            TokStep::Fail(ParseError::BadSyntax { byte: b })
        }
    }

    /// The `InWord` transitions for a non-end-of-line, already bumped byte.
    fn step_in_word(&mut self, b: u8) -> (r: TokStep)
        requires
            old(self).wf(),
            !is_eol(b),
        ensures
            (*final(self), r) == spec_step_in_word(*old(self), b),
            final(self).wf(),
    {
        proof {
            lemma_pow10_small();
        }
        if D0 <= b && b <= D9 {
            let d = b - D0;
            if self.frac {
                if self.frac_digits >= 4 {
                    TokStep::Quiet
                } else {
                    proof {
                        assert(self.frac_part < 1000) by {
                            lemma_pow10_small();
                            if self.frac_digits == 0 {
                            } else if self.frac_digits == 1 {
                            } else if self.frac_digits == 2 {
                            } else {
                            }
                        }
                    }
                    self.frac_part = self.frac_part * 10 + (d as u16);
                    self.frac_digits = self.frac_digits + 1;
                    TokStep::Quiet
                }
            } else if self.int_part > MAX_INT_PART / 10 {
                self.word_clear_to(LexState::Discard);
                TokStep::Fail(ParseError::BadSyntax { byte: b })
            } else {
                self.has_int = true;
                self.int_part = self.int_part * 10 + (d as u64);
                TokStep::Quiet
            }
        } else if b == PLUS || b == MINUS {
            if self.has_sign || self.has_int || self.frac {
                self.word_clear_to(LexState::Discard);
                TokStep::Fail(ParseError::BadSyntax { byte: b })
            } else {
                self.has_sign = true;
                self.neg = b == MINUS;
                TokStep::Quiet
            }
        } else if b == DOT {
            if self.frac || !self.has_int {
                self.word_clear_to(LexState::Discard);
                TokStep::Fail(ParseError::BadSyntax { byte: b })
            } else {
                self.frac = true;
                TokStep::Quiet
            }
        } else if b == SP || b == TAB || b == SEMI || (UA <= b && b <= UZ) || (LA <= b
            && b <= LZ) || b == STAR {
            let fin = self.finalize(b);
            match fin {
                Ok(tok) => {
                    if b == SP || b == TAB {
                        self.word_clear_to(LexState::Start);
                    } else if b == SEMI {
                        self.word_clear_to(LexState::InComment);
                    } else if b == STAR {
                        self.star_start();
                    } else {
                        let l = if LA <= b && b <= LZ {
                            b - 0x20
                        } else {
                            b
                        };
                        self.word_start(l);
                    }
                    TokStep::One(tok)
                },
                Err(e) => {
                    self.word_clear_to(LexState::Discard);
                    TokStep::Fail(e)
                },
            }
        } else {
            self.word_clear_to(LexState::Discard);
            TokStep::Fail(ParseError::BadSyntax { byte: b })
        }
    }
}

} // verus!
