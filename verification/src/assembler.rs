//! Line assembler: groups tokens into a bounded line, enforces the word
//! cap, the line-number protocol and the checksum, and owns the error
//! recovery state.
//!
//! As with the tokenizer, the whole behaviour is the spec function
//! [`asm_step`]; the executable `feed` refines it, so the protocol
//! invariants are proved once over the spec.

use vstd::prelude::*;
use arrayvec::ArrayVec;
use crate::token::ErrorKind;
use crate::token::Line;
use crate::token::Token;
use crate::token::Word;
use crate::wordbuf::wb_clear;
use crate::wordbuf::wb_get;
use crate::wordbuf::wb_len;
use crate::wordbuf::wb_new;
use crate::wordbuf::wb_push;
use crate::wordbuf::word_buf;

verus! {

/// Cap on words per line, the line-number marker included.
pub const MAX_WORDS: usize = 10;

/// The line-number cursor wraps at this bound.
pub const LINE_NUMBER_MODULUS: u32 = 100000;

/// Ingest state of the assembler.
#[derive(Clone, Copy, PartialEq, Eq, Structural, Debug)]
pub enum AsmState {
    /// Awaiting the first token of a line.
    Idle,
    /// Mid-line.
    Accumulating,
    /// Discarding tokens until the next `Execute` after an error.
    Recovering,
}

/// What feeding one token produced.
pub enum FeedResult {
    /// Token absorbed; also covers silently accepted empty lines and the
    /// end of recovery.
    Progress,
    /// A validated line, ready for the executor.  `ok` is owed to the
    /// host once the executor has taken it.
    Ready(Line),
    /// The line was discarded for this reason; the host is owed the
    /// matching response.
    Reject(ErrorKind),
}

/// Ghost mirror of the assembler, with the buffer contents spelled out.
#[verifier::ext_equal]
pub struct AsmView {
    pub state: AsmState,
    pub line_no: Option<u32>,
    pub words: Seq<(u8, i64)>,
    pub checksum: Option<(u8, u8)>,
    pub overflowed: bool,
    pub expected: u32,
    pub established: bool,
}

/// Ghost mirror of [`FeedResult`].
pub enum FeedV {
    ProgressV,
    ReadyV { number: Option<u32>, words: Seq<(u8, i64)> },
    RejectV(ErrorKind),
}

/// Words on the line so far, the line-number marker included.
pub open spec fn spec_word_count(a: AsmView) -> nat {
    a.words.len() + if a.line_no is Some {
        1nat
    } else {
        0nat
    }
}

/// Line state dropped, protocol cursor kept, heading for `s`.
pub open spec fn spec_asm_clear(a: AsmView, s: AsmState) -> AsmView {
    AsmView {
        state: s,
        line_no: None,
        words: Seq::<(u8, i64)>::empty(),
        checksum: None,
        overflowed: false,
        ..a
    }
}

/// The boot state: cursor at zero, no numbering established.
pub open spec fn spec_asm_initial() -> AsmView {
    AsmView {
        state: AsmState::Idle,
        line_no: None,
        words: Seq::<(u8, i64)>::empty(),
        checksum: None,
        overflowed: false,
        expected: 0,
        established: false,
    }
}

/// Whether a stated checksum disagrees with the computed one.
pub open spec fn spec_checksum_mismatch(c: Option<(u8, u8)>) -> bool {
    match c {
        Some(p) => p.0 != p.1,
        None => false,
    }
}

/// Line acceptance at `Execute`, outside recovery: the checks of the
/// protocol in order (word cap, line number, checksum), then acceptance.
pub open spec fn spec_asm_execute(a: AsmView) -> (AsmView, FeedV) {
    if a.overflowed {
        (spec_asm_clear(a, AsmState::Idle), FeedV::RejectV(ErrorKind::TooManyWords))
    } else if a.line_no is None && a.words.len() == 0 && a.checksum is None {
        (spec_asm_clear(a, AsmState::Idle), FeedV::ProgressV)
    } else if a.line_no is Some && a.line_no->0 != a.expected {
        (spec_asm_clear(a, AsmState::Idle), FeedV::RejectV(ErrorKind::InvalidLineNumber))
    } else if a.line_no is None && a.established {
        (spec_asm_clear(a, AsmState::Idle), FeedV::RejectV(ErrorKind::InvalidLineNumber))
    } else if spec_checksum_mismatch(a.checksum) {
        (spec_asm_clear(a, AsmState::Idle), FeedV::RejectV(ErrorKind::BadChecksum))
    } else {
        let adv = a.line_no is Some;
        (AsmView {
            expected: if adv {
                (((a.expected + 1) as int % (LINE_NUMBER_MODULUS as int)) as u32)
            } else {
                a.expected
            },
            established: a.established || adv,
            ..spec_asm_clear(a, AsmState::Idle)
        }, FeedV::ReadyV { number: a.line_no, words: a.words })
    }
}

/// The complete transition relation of the assembler.
pub open spec fn asm_step(a: AsmView, t: Token) -> (AsmView, FeedV) {
    if a.state is Recovering {
        match t {
            Token::Execute => (spec_asm_clear(a, AsmState::Idle), FeedV::ProgressV),
            _ => (a, FeedV::ProgressV),
        }
    } else {
        match t {
            Token::LineNumber { n } => if a.line_no is Some || a.words.len() > 0
                || a.checksum is Some {
                (spec_asm_clear(a, AsmState::Recovering), FeedV::RejectV(ErrorKind::Syntax))
            } else {
                (AsmView { line_no: Some(n), state: AsmState::Accumulating, ..a },
                FeedV::ProgressV)
            },
            Token::Word { letter, mantissa } => if a.checksum is Some {
                (spec_asm_clear(a, AsmState::Recovering), FeedV::RejectV(ErrorKind::Syntax))
            } else if spec_word_count(a) >= MAX_WORDS {
                (AsmView { overflowed: true, state: AsmState::Accumulating, ..a },
                FeedV::ProgressV)
            } else {
                (AsmView {
                    words: a.words.push((letter, mantissa)),
                    state: AsmState::Accumulating,
                    ..a
                }, FeedV::ProgressV)
            },
            Token::Checksum { stated, computed } => if a.checksum is Some {
                (spec_asm_clear(a, AsmState::Recovering), FeedV::RejectV(ErrorKind::Syntax))
            } else {
                (AsmView {
                    checksum: Some((stated, computed)),
                    state: AsmState::Accumulating,
                    ..a
                }, FeedV::ProgressV)
            },
            Token::Execute => spec_asm_execute(a),
        }
    }
}

/// Whether the executable result `r` mirrors the ghost result `fv`.
pub open spec fn feed_matches(fv: FeedV, r: FeedResult) -> bool {
    match r {
        FeedResult::Progress => fv is ProgressV,
        FeedResult::Ready(line) => fv matches FeedV::ReadyV { number, words }
            && line.number == number && line.words@.map_values(
            |w: Word| (w.letter, w.mantissa),
        ) == words,
        FeedResult::Reject(k) => fv matches FeedV::RejectV(k2) && k == k2,
    }
}

/// The line assembler.
pub struct LineAssembler {
    state: AsmState,
    line_no: Option<u32>,
    buf: ArrayVec<(u8, i64), 10>,
    checksum: Option<(u8, u8)>,
    overflowed: bool,
    expected: u32,
    established: bool,
}

impl LineAssembler {
    /// Ghost mirror of the whole assembler.
    pub closed spec fn view(self) -> AsmView {
        AsmView {
            state: self.state,
            line_no: self.line_no,
            words: word_buf(self.buf),
            checksum: self.checksum,
            overflowed: self.overflowed,
            expected: self.expected,
            established: self.established,
        }
    }

    /// Structural invariant: the buffer stays within its capacity and the
    /// cursor within the wrap bound.
    pub open spec fn wf(self) -> bool {
        &&& self.view().words.len() <= MAX_WORDS
        &&& self.view().expected < LINE_NUMBER_MODULUS
    }

    /// A fresh assembler at boot.
    pub fn new() -> (r: LineAssembler)
        ensures
            r.view() == spec_asm_initial(),
            r.wf(),
    {
        let buf = wb_new();
        LineAssembler {
            state: AsmState::Idle,
            line_no: None,
            buf,
            checksum: None,
            overflowed: false,
            expected: 0,
            established: false,
        }
    }

    /// The line number the protocol expects next.
    pub fn expected_line_number(&self) -> (r: u32)
        ensures
            r == self.view().expected,
    {
        self.expected
    }

    /// Drops the current line and waits for the next end of line; the
    /// cursor is untouched.
    pub fn recover(&mut self)
        ensures
            final(self).view() == spec_asm_clear(old(self).view(), AsmState::Recovering),
            old(self).wf() ==> final(self).wf(),
    {
        self.state = AsmState::Recovering;
        self.line_no = None;
        wb_clear(&mut self.buf);
        self.checksum = None;
        self.overflowed = false;
    }

    /// Drops the current line and realigns immediately; used when the
    /// error was detected on the end-of-line byte itself.
    pub fn abandon_line(&mut self)
        ensures
            final(self).view() == spec_asm_clear(old(self).view(), AsmState::Idle),
            old(self).wf() ==> final(self).wf(),
    {
        self.state = AsmState::Idle;
        self.line_no = None;
        wb_clear(&mut self.buf);
        self.checksum = None;
        self.overflowed = false;
    }

    /// Copies the buffered words out as executor-facing `Word`s.
    fn take_words(&self) -> (r: Vec<Word>)
        ensures
            r@.map_values(|w: Word| (w.letter, w.mantissa)) == self.view().words,
    {
        let n = wb_len(&self.buf);
        let mut out: Vec<Word> = Vec::new();
        let mut i: usize = 0;
        while i < n
            invariant
                i <= n,
                n == self.view().words.len(),
                out@.len() == i,
                forall|j: int|
                    0 <= j < i ==> (#[trigger] out@[j]).letter == self.view().words[j].0
                        && out@[j].mantissa == self.view().words[j].1,
            decreases n - i,
        {
            let w = wb_get(&self.buf, i);
            out.push(Word { letter: w.0, mantissa: w.1 });
            i = i + 1;
        }
        proof {
            assert(out@.map_values(|w: Word| (w.letter, w.mantissa)) =~= self.view().words);
        }
        out
    }

    /// Consumes one token; the contract is exactly one unfolding of
    /// [`asm_step`].
    pub fn feed(&mut self, t: Token) -> (r: FeedResult)
        requires
            old(self).wf(),
        ensures
            final(self).view() == asm_step(old(self).view(), t).0,
            feed_matches(asm_step(old(self).view(), t).1, r),
            final(self).wf(),
    {
        if matches!(self.state, AsmState::Recovering) {
            if matches!(t, Token::Execute) {
                self.abandon_line();
            }
            return FeedResult::Progress;
        }
        match t {
            Token::LineNumber { n } => {
                if self.line_no.is_some() || wb_len(&self.buf) > 0 || self.checksum.is_some() {
                    self.recover();
                    FeedResult::Reject(ErrorKind::Syntax)
                } else {
                    self.line_no = Some(n);
                    self.state = AsmState::Accumulating;
                    FeedResult::Progress
                }
            },
            Token::Word { letter, mantissa } => {
                if self.checksum.is_some() {
                    self.recover();
                    FeedResult::Reject(ErrorKind::Syntax)
                } else {
                    let count = wb_len(&self.buf) + if self.line_no.is_some() {
                        1
                    } else {
                        0
                    };
                    if count >= MAX_WORDS {
                        self.overflowed = true;
                        self.state = AsmState::Accumulating;
                        FeedResult::Progress
                    } else {
                        wb_push(&mut self.buf, (letter, mantissa));
                        self.state = AsmState::Accumulating;
                        FeedResult::Progress
                    }
                }
            },
            Token::Checksum { stated, computed } => {
                if self.checksum.is_some() {
                    self.recover();
                    FeedResult::Reject(ErrorKind::Syntax)
                } else {
                    self.checksum = Some((stated, computed));
                    self.state = AsmState::Accumulating;
                    FeedResult::Progress
                }
            },
            Token::Execute => self.execute_line(),
        }
    }

    /// Line acceptance at `Execute`, outside recovery.
    fn execute_line(&mut self) -> (r: FeedResult)
        requires
            old(self).wf(),
            !(old(self).view().state is Recovering),
        ensures
            final(self).view() == spec_asm_execute(old(self).view()).0,
            feed_matches(spec_asm_execute(old(self).view()).1, r),
            final(self).wf(),
    {
        if self.overflowed {
            self.abandon_line();
            return FeedResult::Reject(ErrorKind::TooManyWords);
        }
        if self.line_no.is_none() && wb_len(&self.buf) == 0 && self.checksum.is_none() {
            self.abandon_line();
            return FeedResult::Progress;
        }
        match self.line_no {
            Some(n) => {
                if n != self.expected {
                    self.abandon_line();
                    return FeedResult::Reject(ErrorKind::InvalidLineNumber);
                }
            },
            None => {
                if self.established {
                    self.abandon_line();
                    return FeedResult::Reject(ErrorKind::InvalidLineNumber);
                }
            },
        }
        match self.checksum {
            Some((stated, computed)) => {
                if stated != computed {
                    self.abandon_line();
                    return FeedResult::Reject(ErrorKind::BadChecksum);
                }
            },
            None => {},
        }
        let number = self.line_no;
        let words = self.take_words();
        if number.is_some() {
            self.expected = (self.expected + 1) % LINE_NUMBER_MODULUS;
            self.established = true;
        }
        self.state = AsmState::Idle;
        self.line_no = None;
        wb_clear(&mut self.buf);
        self.checksum = None;
        self.overflowed = false;
        FeedResult::Ready(Line { number, words })
    }
}

} // verus!
