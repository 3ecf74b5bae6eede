//! The protocol invariants, proved once over the spec-level run of the
//! core: the line-number cursor advances without gaps, buffers stay
//! bounded, every executed line is answered exactly once, and recovery
//! converges at the next end of line.

use vstd::prelude::*;
use crate::assembler::asm_step;
use crate::assembler::spec_checksum_mismatch;
use crate::assembler::AsmView;
use crate::assembler::FeedV;
use crate::assembler::LINE_NUMBER_MODULUS;
use crate::assembler::MAX_WORDS;
use crate::processor::core_run;
use crate::processor::spec_process;
use crate::processor::ProcV;
use crate::responder::spec_response;
use crate::token::ErrorKind;
use crate::processor::core_step;
use crate::processor::events_of_feed;
use crate::processor::CoreV;
use crate::processor::EventV;
use crate::token::Token;
use crate::tokenizer::is_eol;
use crate::tokenizer::spec_step;
use crate::tokenizer::TokStep;

verus! {

/// The line numbers of the accepted numbered lines among `evs`, in order.
pub open spec fn accepted_numbers(evs: Seq<EventV>) -> Seq<u32>
    decreases evs.len(),
{
    if evs.len() == 0 {
        Seq::<u32>::empty()
    } else {
        let rest = accepted_numbers(evs.drop_first());
        match evs[0] {
            EventV::LineV { number, words: _ } => match number {
                Some(n) => seq![n] + rest,
                None => rest,
            },
            EventV::RespondV(_) => rest,
        }
    }
}

/// `accepted_numbers` distributes over concatenation.
pub proof fn lemma_accepted_numbers_app(e1: Seq<EventV>, e2: Seq<EventV>)
    ensures
        accepted_numbers(e1 + e2) == accepted_numbers(e1) + accepted_numbers(e2),
    decreases e1.len(),
{
    if e1.len() == 0 {
        assert(e1 + e2 =~= e2);
        assert(accepted_numbers(e1) + accepted_numbers(e2) =~= accepted_numbers(e2));
    } else {
        assert((e1 + e2)[0] == e1[0]);
        assert((e1 + e2).drop_first() =~= e1.drop_first() + e2);
        lemma_accepted_numbers_app(e1.drop_first(), e2);
        match e1[0] {
            EventV::LineV { number, words: _ } => match number {
                Some(n) => {
                    assert(accepted_numbers(e1 + e2) =~= accepted_numbers(e1)
                        + accepted_numbers(e2));
                },
                None => {},
            },
            EventV::RespondV(_) => {},
        }
    }
}

/// Whether `acc` is the gap-free cursor chain starting at `e0`, wrapping
/// at the line-number modulus.
pub open spec fn is_cursor_chain(acc: Seq<u32>, e0: u32) -> bool {
    forall|i: int|
        0 <= i < acc.len() ==> #[trigger] acc[i] == (e0 + i) % (LINE_NUMBER_MODULUS as int)
}

/// One assembler step: a numbered line is accepted exactly at the cursor,
/// and only then does the cursor advance, by one.
pub proof fn lemma_feed_cursor(a: AsmView, t: Token)
    requires
        a.expected < LINE_NUMBER_MODULUS,
    ensures
        ({
            let (a2, fv) = asm_step(a, t);
            let acc = accepted_numbers(events_of_feed(fv, a2.expected));
            &&& a2.expected < LINE_NUMBER_MODULUS
            &&& is_cursor_chain(acc, a.expected)
            &&& a2.expected == (a.expected + acc.len()) % (LINE_NUMBER_MODULUS as int)
        }),
{
    reveal_with_fuel(accepted_numbers, 3);
    let (a2, fv) = asm_step(a, t);
    let acc = accepted_numbers(events_of_feed(fv, a2.expected));
    match fv {
        FeedV::ProgressV => {
            assert(acc =~= Seq::<u32>::empty());
        },
        FeedV::RejectV(k) => {
            assert(acc =~= Seq::<u32>::empty());
        },
        FeedV::ReadyV { number, words } => {
            let evs = events_of_feed(fv, a2.expected);
            assert(evs.len() == 2);
            assert(accepted_numbers(evs.drop_first()) =~= Seq::<u32>::empty());
            match number {
                Some(n) => {
                    assert(n == a.expected);
                    assert(acc =~= seq![n]);
                },
                None => {
                    assert(acc =~= Seq::<u32>::empty());
                },
            }
        },
    }
}

/// One core step preserves the cursor-chain shape of the accepted lines.
pub proof fn lemma_step_cursor(c: CoreV, b: u8)
    requires
        c.assembler.expected < LINE_NUMBER_MODULUS,
    ensures
        ({
            let (c2, evs) = core_step(c, b);
            let acc = accepted_numbers(evs);
            &&& c2.assembler.expected < LINE_NUMBER_MODULUS
            &&& is_cursor_chain(acc, c.assembler.expected)
            &&& c2.assembler.expected == (c.assembler.expected + acc.len()) % (
            LINE_NUMBER_MODULUS as int)
        }),
{
    reveal_with_fuel(accepted_numbers, 3);
    let (t2, ts) = spec_step(c.tok, b);
    let c1 = CoreV { tok: t2, assembler: c.assembler };
    match ts {
        TokStep::Quiet => {
            assert(accepted_numbers(Seq::<EventV>::empty()) =~= Seq::<u32>::empty());
        },
        TokStep::One(tok) => {
            lemma_feed_cursor(c1.assembler, tok);
        },
        TokStep::Two(tok1, tok2) => {
            let (a2, fv1) = asm_step(c1.assembler, tok1);
            let (a3, fv2) = asm_step(a2, tok2);
            let ev1 = events_of_feed(fv1, a2.expected);
            let ev2 = events_of_feed(fv2, a3.expected);
            lemma_feed_cursor(c1.assembler, tok1);
            lemma_feed_cursor(a2, tok2);
            lemma_accepted_numbers_app(ev1, ev2);
            lemma_chain_append(
                accepted_numbers(ev1),
                accepted_numbers(ev2),
                c.assembler.expected,
                a2.expected,
            );
        },
        TokStep::Fail(e) => {
            assert(accepted_numbers(core_step(c, b).1) =~= Seq::<u32>::empty());
        },
        TokStep::FailEol(e) => {
            assert(accepted_numbers(core_step(c, b).1) =~= Seq::<u32>::empty());
        },
    }
}

/// Two consecutive cursor chains concatenate to one chain.
pub proof fn lemma_chain_append(acc1: Seq<u32>, acc2: Seq<u32>, e0: u32, e1: u32)
    requires
        e0 < LINE_NUMBER_MODULUS,
        is_cursor_chain(acc1, e0),
        is_cursor_chain(acc2, e1),
        e1 == (e0 + acc1.len()) % (LINE_NUMBER_MODULUS as int),
    ensures
        is_cursor_chain(acc1 + acc2, e0),
        (e1 + acc2.len()) % (LINE_NUMBER_MODULUS as int) == (e0 + (acc1 + acc2).len()) % (
        LINE_NUMBER_MODULUS as int),
{
    let m = LINE_NUMBER_MODULUS as int;
    assert forall|i: int| 0 <= i < (acc1 + acc2).len() implies #[trigger] (acc1 + acc2)[i] == (e0
        + i) % m by {
        if i < acc1.len() {
            assert((acc1 + acc2)[i] == acc1[i]);
        } else {
            let j = i - acc1.len();
            assert((acc1 + acc2)[i] == acc2[j]);
            assert(acc2[j] == (e1 + j) % m);
            vstd::arithmetic::div_mod::lemma_add_mod_noop_right(j, e0 + acc1.len(), m);
        }
    }
    vstd::arithmetic::div_mod::lemma_add_mod_noop_right(acc2.len() as int, e0 + acc1.len(), m);
}

/// Monotonic line cursor: over any input trace, the accepted numbered
/// lines carry exactly the consecutive cursor values starting at the
/// cursor of the initial state, wrapping at the modulus and with no gap;
/// the final cursor has advanced by their count.
pub proof fn lemma_monotonic_line_cursor(c: CoreV, bs: Seq<u8>)
    requires
        c.assembler.expected < LINE_NUMBER_MODULUS,
    ensures
        ({
            let (c2, evs) = core_run(c, bs);
            let acc = accepted_numbers(evs);
            &&& c2.assembler.expected < LINE_NUMBER_MODULUS
            &&& is_cursor_chain(acc, c.assembler.expected)
            &&& c2.assembler.expected == (c.assembler.expected + acc.len()) % (
            LINE_NUMBER_MODULUS as int)
        }),
    decreases bs.len(),
{
    if bs.len() == 0 {
        let m = LINE_NUMBER_MODULUS as int;
        assert(accepted_numbers(core_run(c, bs).1) =~= Seq::<u32>::empty());
        vstd::arithmetic::div_mod::lemma_small_mod(c.assembler.expected as nat, m as nat);
    } else {
        let (c1, e1) = core_step(c, bs[0]);
        let (c2, e2) = core_run(c1, bs.drop_first());
        lemma_step_cursor(c, bs[0]);
        lemma_monotonic_line_cursor(c1, bs.drop_first());
        lemma_accepted_numbers_app(e1, e2);
        lemma_chain_append(
            accepted_numbers(e1),
            accepted_numbers(e2),
            c.assembler.expected,
            c1.assembler.expected,
        );
    }
}

/// Bounded memory, assembler side: no step ever grows the word buffer
/// past its capacity of ten.
pub proof fn lemma_bounded_words_step(a: AsmView, t: Token)
    requires
        a.words.len() <= MAX_WORDS,
    ensures
        asm_step(a, t).0.words.len() <= MAX_WORDS,
{
}

/// Bounded memory over any run: starting within bounds, the word buffer
/// never exceeds ten words.  (The byte ring is bounded by construction:
/// see `RingBuffer::lemma_bounded`.)
pub proof fn lemma_bounded_memory(c: CoreV, bs: Seq<u8>)
    requires
        c.assembler.words.len() <= MAX_WORDS,
    ensures
        core_run(c, bs).0.assembler.words.len() <= MAX_WORDS,
    decreases bs.len(),
{
    if bs.len() == 0 {
    } else {
        let (c1, e1) = core_step(c, bs[0]);
        lemma_bounded_memory(c1, bs.drop_first());
    }
}

/// Response per line: an `Execute` reaching the assembler outside
/// recovery produces exactly one of the three outcomes, and each exactly
/// when its condition holds: silence for the empty line, a ready line
/// (worth one `ok`) for a valid one, and a rejection (worth one error
/// reply) otherwise.
pub proof fn lemma_response_per_line(a: AsmView)
    requires
        !(a.state is Recovering),
    ensures
        ({
            let (a2, fv) = asm_step(a, Token::Execute);
            &&& (fv is ProgressV <==> (!a.overflowed && a.line_no is None && a.words.len() == 0
                && a.checksum is None))
            &&& (fv is ReadyV <==> (!a.overflowed && !(a.line_no is None && a.words.len() == 0
                && a.checksum is None) && (a.line_no is Some ==> a.line_no->0 == a.expected) && (
            a.line_no is None ==> !a.established) && !spec_checksum_mismatch(a.checksum)))
            &&& (fv is RejectV <==> !(fv is ProgressV) && !(fv is ReadyV))
            &&& (fv is ProgressV ==> events_of_feed(fv, a2.expected).len() == 0)
            &&& (fv is ReadyV ==> events_of_feed(fv, a2.expected).len() == 2)
            &&& (fv is RejectV ==> events_of_feed(fv, a2.expected).len() == 1)
        }),
{
}

/// Recovery convergence: once the assembler is recovering and the
/// tokenizer discarding, every byte before the next end of line changes
/// nothing and emits nothing, and the first end-of-line byte returns the
/// core to `Idle` with empty buffers, again without emitting.
pub proof fn lemma_recovery_convergence(c: CoreV, b: u8)
    requires
        c.assembler.state is Recovering,
        c.assembler.words.len() == 0,
        c.assembler.line_no is None,
        c.assembler.checksum is None,
        c.tok.state is Discard,
    ensures
        ({
            let (c2, evs) = core_step(c, b);
            &&& evs.len() == 0
            &&& c2.assembler.expected == c.assembler.expected
            &&& c2.assembler.words.len() == 0
            &&& is_eol(b) ==> c2.assembler.state is Idle && c2.tok.state is Start
            &&& !is_eol(b) ==> c2.assembler.state is Recovering && c2.tok.state is Discard
        }),
{
}

/// Recovery convergence, assembler side: while recovering with cleared
/// buffers, every token but `Execute` changes nothing and emits nothing,
/// and the `Execute` ending the line returns the assembler to `Idle`,
/// buffers still empty and the cursor untouched.  Together with the byte
/// lemma above this covers recovery entered on a malformed token too,
/// where the tokenizer keeps running and only the assembler discards.
pub proof fn lemma_recovery_convergence_tokens(a: AsmView, t: Token)
    requires
        a.state is Recovering,
        a.words.len() == 0,
        a.line_no is None,
        a.checksum is None,
    ensures
        ({
            let (a2, fv) = asm_step(a, t);
            &&& fv is ProgressV
            &&& a2.words.len() == 0 && a2.line_no is None && a2.checksum is None
            &&& a2.expected == a.expected && a2.established == a.established
            &&& (t is Execute ==> a2.state is Idle)
            &&& (!(t is Execute) ==> a2.state is Recovering)
        }),
{
}

/// No silent loss at the ring: a drain never ends with an unreported
/// overflow; whenever a byte was refused, the drain's last event is the
/// `error:overflow` reply and the core is left recovering.  (Within the
/// core itself no byte is skipped: [`core_run`] consumes the trace byte
/// by byte, and every executed line is accounted for by
/// [`lemma_response_per_line`].)
pub proof fn lemma_overflow_reported(p: ProcV)
    ensures
        p.dropped ==> ({
            let (p2, evs) = spec_process(p);
            &&& evs.len() > 0
            &&& evs.last() == EventV::RespondV(
                spec_response(ErrorKind::Overflow, p2.assembler.expected),
            )
            &&& p2.assembler.state is Recovering
        }),
{
}

} // verus!
