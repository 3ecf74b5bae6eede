//! The ingestion core: ring buffer, tokenizer and assembler composed into
//! one cooperative stage.
//!
//! The serial side offers bytes with [`Processor::offer_byte`] (and reports
//! faults with [`Processor::on_io_error`]); the control loop then calls
//! [`Processor::process`], which drains the ring through the tokenizer and
//! assembler and returns the resulting events in order: validated lines
//! for the executor and response bytes for the host.  The whole drain is
//! specified by [`core_run`], a fold of the per-byte step [`core_step`].

use vstd::prelude::*;
use crate::assembler::asm_step;
use crate::assembler::spec_asm_clear;
use crate::assembler::spec_asm_initial;
use crate::assembler::AsmState;
use crate::assembler::AsmView;
use crate::assembler::FeedResult;
use crate::assembler::FeedV;
use crate::assembler::LineAssembler;
use crate::responder::build_ok;
use crate::responder::build_response;
use crate::responder::spec_ok;
use crate::responder::spec_response;
use crate::ring::RingBuffer;
use crate::ring::RING_CAPACITY;
use crate::token::ErrorKind;
use crate::token::Line;
use crate::token::ParseError;
use crate::token::Token;
use crate::token::Word;
use crate::tokenizer::spec_step;
use crate::tokenizer::spec_word_clear_to;
use crate::tokenizer::LexState;
use crate::tokenizer::TokStep;
use crate::tokenizer::Tokenizer;

verus! {

/// What the core hands outward.
pub enum Event {
    /// A validated line for the executor; `ok` follows once it is taken.
    Line(Line),
    /// Bytes owed to the host port.
    Respond(Vec<u8>),
}

/// Ghost mirror of [`Event`].
pub enum EventV {
    LineV { number: Option<u32>, words: Seq<(u8, i64)> },
    RespondV(Seq<u8>),
}

/// Ghost state of tokenizer plus assembler.
#[verifier::ext_equal]
pub struct CoreV {
    pub tok: Tokenizer,
    pub assembler: AsmView,
}

/// The error kind a lexical error surfaces as.
pub open spec fn spec_kind_of(e: ParseError) -> ErrorKind {
    match e {
        ParseError::BadSyntax { byte: _ } => ErrorKind::Syntax,
        ParseError::BadLineNumber => ErrorKind::BadLineNumber,
    }
}

/// The events one assembler outcome produces.
pub open spec fn events_of_feed(fv: FeedV, expected: u32) -> Seq<EventV> {
    match fv {
        FeedV::ProgressV => Seq::<EventV>::empty(),
        FeedV::ReadyV { number, words } => seq![
            EventV::LineV { number, words },
            EventV::RespondV(spec_ok()),
        ],
        FeedV::RejectV(k) => seq![EventV::RespondV(spec_response(k, expected))],
    }
}

/// Feeding one token through the assembler.
pub open spec fn core_feed(c: CoreV, t: Token) -> (CoreV, Seq<EventV>) {
    let (a2, fv) = asm_step(c.assembler, t);
    (CoreV { tok: c.tok, assembler: a2 }, events_of_feed(fv, a2.expected))
}

/// One byte through tokenizer and assembler: the complete per-byte
/// transition of the core.
pub open spec fn core_step(c: CoreV, b: u8) -> (CoreV, Seq<EventV>) {
    let (t2, ts) = spec_step(c.tok, b);
    let c1 = CoreV { tok: t2, assembler: c.assembler };
    match ts {
        TokStep::Quiet => (c1, Seq::<EventV>::empty()),
        TokStep::One(tok) => {
            let (a2, fv) = asm_step(c.assembler, tok);
            let t3 = if fv is RejectV && !(tok is Execute) {
                spec_word_clear_to(t2, LexState::Discard)
            } else {
                t2
            };
            (CoreV { tok: t3, assembler: a2 }, events_of_feed(fv, a2.expected))
        },
        TokStep::Two(tok1, tok2) => {
            let (c2, e1) = core_feed(c1, tok1);
            let (c3, e2) = core_feed(c2, tok2);
            (c3, e1 + e2)
        },
        TokStep::Fail(e) => {
            let a2 = spec_asm_clear(c1.assembler, AsmState::Recovering);
            (CoreV { tok: t2, assembler: a2 }, seq![
                EventV::RespondV(spec_response(spec_kind_of(e), a2.expected)),
            ])
        },
        TokStep::FailEol(e) => {
            let a2 = spec_asm_clear(c1.assembler, AsmState::Idle);
            (CoreV { tok: t2, assembler: a2 }, seq![
                EventV::RespondV(spec_response(spec_kind_of(e), a2.expected)),
            ])
        },
    }
}

/// A whole byte sequence through the core, events concatenated in order.
pub open spec fn core_run(c: CoreV, bs: Seq<u8>) -> (CoreV, Seq<EventV>)
    decreases bs.len(),
{
    if bs.len() == 0 {
        (c, Seq::<EventV>::empty())
    } else {
        let (c1, e1) = core_step(c, bs[0]);
        let (c2, e2) = core_run(c1, bs.drop_first());
        (c2, e1 + e2)
    }
}

/// Running one more byte after a prefix composes step-wise.
pub proof fn lemma_core_run_snoc(c: CoreV, s: Seq<u8>, b: u8)
    ensures
        core_run(c, s.push(b)).0 == core_step(core_run(c, s).0, b).0,
        core_run(c, s.push(b)).1 == core_run(c, s).1 + core_step(core_run(c, s).0, b).1,
    decreases s.len(),
{
    if s.len() == 0 {
        reveal_with_fuel(core_run, 2);
        assert(s.push(b)[0] == b);
        assert(s.push(b).drop_first() =~= Seq::<u8>::empty());
        assert(core_run(c, s.push(b)).1 =~= core_run(c, s).1 + core_step(
            core_run(c, s).0,
            b,
        ).1);
    } else {
        reveal_with_fuel(core_run, 2);
        assert(s.push(b)[0] == s[0]);
        assert(s.push(b).drop_first() =~= s.drop_first().push(b));
        let (c1, e1) = core_step(c, s[0]);
        lemma_core_run_snoc(c1, s.drop_first(), b);
        assert(core_run(c, s.push(b)).1 =~= core_run(c, s).1 + core_step(
            core_run(c, s).0,
            b,
        ).1);
    }
}

/// Whether executable event `e` mirrors ghost event `ev`.
pub open spec fn event_matches(ev: EventV, e: Event) -> bool {
    match e {
        Event::Line(line) => ev matches EventV::LineV { number, words } && line.number == number
            && line.words@.map_values(|w: Word| (w.letter, w.mantissa)) == words,
        Event::Respond(v) => ev matches EventV::RespondV(s) && v@ == s,
    }
}

/// Whether the executable events mirror the ghost events, in order.
pub open spec fn events_match(evs: Seq<EventV>, es: Seq<Event>) -> bool {
    evs.len() == es.len() && forall|i: int|
        0 <= i < evs.len() ==> event_matches(evs[i], #[trigger] es[i])
}

/// Matching event lists concatenate to matching event lists.
pub proof fn lemma_events_match_app(a: Seq<EventV>, b: Seq<Event>, c: Seq<EventV>, d: Seq<Event>)
    requires
        events_match(a, b),
        events_match(c, d),
    ensures
        events_match(a + c, b + d),
{
    assert forall|i: int| 0 <= i < (a + c).len() implies event_matches(
        (a + c)[i],
        #[trigger] (b + d)[i],
    ) by {
        if i < a.len() {
            assert(event_matches(a[i], b[i]));
        } else {
            assert(event_matches(c[i - a.len()], d[i - a.len()]));
        }
    }
}

/// A matching prefix extended by a matching suffix matches the whole.
pub proof fn lemma_events_match_splice(a: Seq<EventV>, c: Seq<EventV>, es: Seq<Event>, k: int)
    requires
        0 <= k <= es.len(),
        events_match(a, es.take(k)),
        events_match(c, es.skip(k)),
    ensures
        events_match(a + c, es),
{
    lemma_events_match_app(a, es.take(k), c, es.skip(k));
    assert(es.take(k) + es.skip(k) =~= es);
}

/// Ghost mirror of the whole processor.
#[verifier::ext_equal]
pub struct ProcV {
    pub ring: Seq<u8>,
    pub tok: Tokenizer,
    pub assembler: AsmView,
    pub dropped: bool,
}

/// The drain performed by [`Processor::process`]: the buffered bytes run
/// through the core; a pending ring overflow is then reported and puts
/// the core into recovery.
pub open spec fn spec_process(p: ProcV) -> (ProcV, Seq<EventV>) {
    let (c1, ev) = core_run(CoreV { tok: p.tok, assembler: p.assembler }, p.ring);
    if p.dropped {
        let a2 = spec_asm_clear(c1.assembler, AsmState::Recovering);
        (ProcV {
            ring: Seq::<u8>::empty(),
            tok: spec_word_clear_to(c1.tok, LexState::Discard),
            assembler: a2,
            dropped: false,
        }, ev + seq![EventV::RespondV(spec_response(ErrorKind::Overflow, a2.expected))])
    } else {
        (ProcV { ring: Seq::<u8>::empty(), tok: c1.tok, assembler: c1.assembler, dropped: false }, ev)
    }
}

/// A serial fault: the current line is dropped and the core recovers; the
/// host is owed `error:io` and a resend request.
pub open spec fn spec_io_error(p: ProcV) -> (ProcV, Seq<u8>) {
    let a2 = spec_asm_clear(p.assembler, AsmState::Recovering);
    (ProcV {
        ring: p.ring,
        tok: spec_word_clear_to(p.tok, LexState::Discard),
        assembler: a2,
        dropped: p.dropped,
    }, spec_response(ErrorKind::Io, a2.expected))
}

/// The ingestion core: ring, tokenizer, assembler and the dropped-byte
/// flag, driven from the control loop.
pub struct Processor {
    ring: RingBuffer,
    tok: Tokenizer,
    assembler: LineAssembler,
    dropped: bool,
}

/// Events drained out of the processor, yielded in order.
pub struct Iter {
    events: Vec<Event>,
}

impl Iter {
    /// The events not yet yielded.
    pub closed spec fn remaining(self) -> Seq<Event> {
        self.events@
    }

    /// Yields the next event.
    pub fn next(&mut self) -> (r: Option<Event>)
        ensures
            old(self).remaining().len() == 0 ==> r is None && final(self).remaining()
                == old(self).remaining(),
            old(self).remaining().len() > 0 ==> r == Some(old(self).remaining()[0])
                && final(self).remaining() == old(self).remaining().drop_first(),
    {
        if self.events.len() == 0 {
            None
        } else {
            let e = self.events.remove(0);
            Some(e)
        }
    }
}

/// The executable counterpart of [`spec_kind_of`].
fn err_kind_of(e: ParseError) -> (r: ErrorKind)
    ensures
        r == spec_kind_of(e),
{
    match e {
        ParseError::BadSyntax { byte: _ } => ErrorKind::Syntax,
        ParseError::BadLineNumber => ErrorKind::BadLineNumber,
    }
}

impl Processor {
    /// Ghost mirror of the whole processor.
    pub closed spec fn view(self) -> ProcV {
        ProcV {
            ring: self.ring.contents(),
            tok: self.tok,
            assembler: self.assembler.view(),
            dropped: self.dropped,
        }
    }

    /// Structural invariant of all the stages.
    pub closed spec fn wf(self) -> bool {
        &&& self.ring.wf()
        &&& self.tok.wf()
        &&& self.assembler.wf()
    }

    /// The boot state: everything empty, cursor at zero.
    pub fn new() -> (r: Processor)
        ensures
            r.wf(),
            r.view().ring == Seq::<u8>::empty(),
            r.view().tok == Tokenizer::spec_initial(),
            r.view().assembler == spec_asm_initial(),
            !r.view().dropped,
    {
        let r = Processor {
            ring: RingBuffer::new(),
            tok: Tokenizer::new(),
            assembler: LineAssembler::new(),
            dropped: false,
        };
        proof {
            assert(r.view().assembler =~= spec_asm_initial());
        }
        r
    }

    /// The line number the protocol expects next.
    pub fn expected_line_number(&self) -> (r: u32)
        ensures
            r == self.view().assembler.expected,
    {
        self.assembler.expected_line_number()
    }

    /// Offers one byte from the serial side.  A full ring (or an overflow
    /// not yet reported) refuses the byte and pends the overflow report,
    /// since silently losing a byte would corrupt the line.
    pub fn offer_byte(&mut self, b: u8) -> (r: bool)
        requires
            old(self).wf(),
        ensures
            final(self).wf(),
            final(self).view().tok == old(self).view().tok,
            final(self).view().assembler == old(self).view().assembler,
            (!old(self).view().dropped && old(self).view().ring.len() < RING_CAPACITY) ==> r
                && final(self).view().ring == old(self).view().ring.push(b)
                && !final(self).view().dropped,
            (old(self).view().dropped || old(self).view().ring.len() >= RING_CAPACITY) ==> !r
                && final(self).view().ring == old(self).view().ring
                && final(self).view().dropped,
    {
        proof {
            self.ring.lemma_bounded();
        }
        if self.dropped {
            return false;
        }
        let pushed = self.ring.try_push(b);
        if !pushed {
            self.dropped = true;
        }
        pushed
    }

    /// Reports a serial fault: the current line is dropped, the core
    /// recovers, and the returned bytes are owed to the host.
    pub fn on_io_error(&mut self) -> (r: Vec<u8>)
        requires
            old(self).wf(),
        ensures
            final(self).wf(),
            final(self).view() == spec_io_error(old(self).view()).0,
            r@ == spec_io_error(old(self).view()).1,
    {
        self.assembler.recover();
        self.tok.begin_discard();
        let r = build_response(ErrorKind::Io, self.assembler.expected_line_number());
        proof {
            assert(self.view() =~= spec_io_error(old(self).view()).0);
        }
        r
    }

    /// Feeds one token to the assembler, appending the events it owes;
    /// reports whether the assembler rejected the line at this token.
    fn feed_token(&mut self, t: Token, events: &mut Vec<Event>) -> (rejected: bool)
        requires
            old(self).wf(),
        ensures
            rejected == (asm_step(old(self).view().assembler, t).1 is RejectV),
            final(self).wf(),
            final(self).view().ring == old(self).view().ring,
            final(self).view().dropped == old(self).view().dropped,
            final(self).view().tok == old(self).view().tok,
            final(self).view().assembler == core_feed(
                CoreV { tok: old(self).view().tok, assembler: old(self).view().assembler },
                t,
            ).0.assembler,
            events_match(
                core_feed(CoreV { tok: old(self).view().tok, assembler: old(self).view().assembler }, t).1,
                final(events)@.skip(old(events)@.len() as int),
            ),
            final(events)@.take(old(events)@.len() as int) == old(events)@,
            old(events)@.len() <= final(events)@.len(),
    {
        let ghost evs = core_feed(
            CoreV { tok: old(self).view().tok, assembler: old(self).view().assembler },
            t,
        ).1;
        let r = self.assembler.feed(t);
        match r {
            FeedResult::Progress => {
                proof {
                    assert(events@.skip(events@.len() as int) =~= Seq::<Event>::empty());
                    assert(events@.take(events@.len() as int) =~= events@);
                }
                false
            },
            FeedResult::Ready(line) => {
                let ghost k = events@.len();
                events.push(Event::Line(line));
                events.push(Event::Respond(build_ok()));
                proof {
                    let suffix = events@.skip(k as int);
                    assert(suffix.len() == 2);
                    assert(suffix[0] == events@[k as int]);
                    assert(suffix[1] == events@[k as int + 1]);
                    assert(event_matches(evs[0], suffix[0]));
                    assert(event_matches(evs[1], suffix[1]));
                    assert(events@.take(k as int) =~= old(events)@);
                }
                false
            },
            FeedResult::Reject(kind) => {
                let ghost k = events@.len();
                let resp = build_response(kind, self.assembler.expected_line_number());
                events.push(Event::Respond(resp));
                proof {
                    let suffix = events@.skip(k as int);
                    assert(suffix.len() == 1);
                    assert(suffix[0] == events@[k as int]);
                    assert(event_matches(evs[0], suffix[0]));
                    assert(events@.take(k as int) =~= old(events)@);
                }
                true
            },
        }
    }

    /// Drains the buffered bytes through the tokenizer and assembler and
    /// returns the produced events in order; a pending overflow is then
    /// reported and leaves the core recovering.
    pub fn process(&mut self) -> (r: Iter)
        requires
            old(self).wf(),
        ensures
            final(self).wf(),
            final(self).view() == spec_process(old(self).view()).0,
            events_match(spec_process(old(self).view()).1, r.remaining()),
    {
        let ghost c0 = CoreV { tok: self.view().tok, assembler: self.view().assembler };
        let ghost bs = self.view().ring;
        let ghost mut consumed: Seq<u8> = Seq::<u8>::empty();
        let mut events: Vec<Event> = Vec::new();
        proof {
            assert(consumed + self.view().ring =~= bs);
            assert(core_run(c0, consumed).0 =~= CoreV {
                tok: self.view().tok,
                assembler: self.view().assembler,
            });
            assert(events_match(core_run(c0, consumed).1, events@));
        }
        while self.ring.occupancy() > 0
            invariant
                self.wf(),
                consumed + self.view().ring =~= bs,
                core_run(c0, consumed).0 == (CoreV { tok: self.view().tok, assembler: self.view().assembler }),
                events_match(core_run(c0, consumed).1, events@),
                self.view().dropped == old(self).view().dropped,
            decreases self.view().ring.len(),
        {
            let popped = self.ring.try_pop();
            let b: u8;
            match popped {
                None => {
                    proof {
                        assert(false);
                    }
                    b = 0;
                },
                Some(v) => {
                    b = v;
                },
            }
            proof {
                lemma_core_run_snoc(c0, consumed, b);
                assert(consumed.push(b) + self.view().ring =~= bs);
            }
            let ghost prev = consumed;
            let ghost pre = CoreV { tok: self.view().tok, assembler: self.view().assembler };
            let ghost evlen = events@.len() as int;
            let step = self.tok.advance(b);
            proof {
                consumed = prev.push(b);
            }
            match step {
                TokStep::Quiet => {
                    proof {
                        assert(events@.skip(evlen) =~= Seq::<Event>::empty());
                        assert(events@.take(evlen) =~= events@);
                        lemma_events_match_splice(
                            core_run(c0, prev).1,
                            core_step(pre, b).1,
                            events@,
                            evlen,
                        );
                        assert(core_run(c0, consumed).0 =~= CoreV {
                            tok: self.view().tok,
                            assembler: self.view().assembler,
                        });
                    }
                },
                TokStep::One(tok) => {
                    let rejected = self.feed_token(tok, &mut events);
                    if rejected && !matches!(tok, Token::Execute) {
                        self.tok.begin_discard();
                    }
                    proof {
                        lemma_events_match_splice(
                            core_run(c0, prev).1,
                            core_step(pre, b).1,
                            events@,
                            evlen,
                        );
                        assert(core_run(c0, consumed).0 =~= CoreV {
                            tok: self.view().tok,
                            assembler: self.view().assembler,
                        });
                    }
                },
                TokStep::Two(tok1, tok2) => {
                    let _ = self.feed_token(tok1, &mut events);
                    let ghost midseq = events@;
                    let _ = self.feed_token(tok2, &mut events);
                    proof {
                        let (t2, ts) = spec_step(pre.tok, b);
                        let c1 = CoreV { tok: t2, assembler: pre.assembler };
                        let (c2, e1) = core_feed(c1, tok1);
                        let (c3, e2) = core_feed(c2, tok2);
                        assert(events@.take(midseq.len() as int) == midseq);
                        assert(midseq.skip(evlen) =~= events@.take(midseq.len() as int).skip(
                            evlen,
                        ));
                        assert(events@.skip(evlen) =~= midseq.skip(evlen) + events@.skip(
                            midseq.len() as int,
                        ));
                        lemma_events_match_app(
                            e1,
                            midseq.skip(evlen),
                            e2,
                            events@.skip(midseq.len() as int),
                        );
                        assert(events_match(core_step(pre, b).1, events@.skip(evlen)));
                        assert(events@.take(evlen) =~= events@.take(midseq.len() as int).take(
                            evlen,
                        ));
                        assert(events@.take(evlen) =~= midseq.take(evlen));
                        lemma_events_match_splice(
                            core_run(c0, prev).1,
                            core_step(pre, b).1,
                            events@,
                            evlen,
                        );
                        assert(core_run(c0, consumed).0 =~= CoreV {
                            tok: self.view().tok,
                            assembler: self.view().assembler,
                        });
                    }
                },
                TokStep::Fail(e) => {
                    self.assembler.recover();
                    let resp = build_response(err_kind_of(e), self.assembler.expected_line_number());
                    events.push(Event::Respond(resp));
                    proof {
                        assert(events@.skip(evlen) =~= seq![events@[evlen]]);
                        assert(event_matches(core_step(pre, b).1[0], events@[evlen]));
                        lemma_events_match_splice(
                            core_run(c0, prev).1,
                            core_step(pre, b).1,
                            events@,
                            evlen,
                        );
                        assert(core_run(c0, consumed).0 =~= CoreV {
                            tok: self.view().tok,
                            assembler: self.view().assembler,
                        });
                    }
                },
                TokStep::FailEol(e) => {
                    self.assembler.abandon_line();
                    let resp = build_response(err_kind_of(e), self.assembler.expected_line_number());
                    events.push(Event::Respond(resp));
                    proof {
                        assert(events@.skip(evlen) =~= seq![events@[evlen]]);
                        assert(event_matches(core_step(pre, b).1[0], events@[evlen]));
                        lemma_events_match_splice(
                            core_run(c0, prev).1,
                            core_step(pre, b).1,
                            events@,
                            evlen,
                        );
                        assert(core_run(c0, consumed).0 =~= CoreV {
                            tok: self.view().tok,
                            assembler: self.view().assembler,
                        });
                    }
                },
            }
        }
        proof {
            assert(consumed =~= bs);
        }
        if self.dropped {
            let ghost evlen = events@.len() as int;
            self.assembler.recover();
            self.tok.begin_discard();
            self.dropped = false;
            let resp = build_response(ErrorKind::Overflow, self.assembler.expected_line_number());
            events.push(Event::Respond(resp));
            proof {
                let spec_ev = spec_process(old(self).view()).1;
                assert(spec_ev =~= core_run(c0, bs).1 + spec_ev.skip(evlen));
                assert(spec_ev.skip(evlen).len() == 1);
                assert(events@.skip(evlen) =~= seq![events@[evlen]]);
                assert(event_matches(spec_ev.skip(evlen)[0], events@[evlen]));
                assert(events@.take(evlen) + events@.skip(evlen) =~= events@);
                lemma_events_match_splice(core_run(c0, bs).1, spec_ev.skip(evlen), events@, evlen);
                assert(self.view() =~= spec_process(old(self).view()).0);
            }
        } else {
            proof {
                assert(self.view() =~= spec_process(old(self).view()).0);
            }
        }
        Iter { events }
    }
}

} // verus!
