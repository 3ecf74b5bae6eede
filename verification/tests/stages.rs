//! Unit tests of the individual stages: ring buffer, tokenizer,
//! assembler and responder.

use gcode_core::assembler::FeedResult;
use gcode_core::assembler::LineAssembler;
use gcode_core::responder::build_banner;
use gcode_core::responder::build_ok;
use gcode_core::responder::build_response;
use gcode_core::ring::RingBuffer;
use gcode_core::token::ErrorKind;
use gcode_core::token::ParseError;
use gcode_core::token::Token;
use gcode_core::tokenizer::TokStep;
use gcode_core::tokenizer::Tokenizer;

#[test]
fn ring_is_first_in_first_out() {
    let mut r = RingBuffer::new();
    assert_eq!(r.occupancy(), 0);
    assert!(r.try_push(1));
    assert!(r.try_push(2));
    assert!(r.try_push(3));
    assert_eq!(r.occupancy(), 3);
    assert_eq!(r.try_pop(), Some(1));
    assert_eq!(r.try_pop(), Some(2));
    assert!(r.try_push(4));
    assert_eq!(r.try_pop(), Some(3));
    assert_eq!(r.try_pop(), Some(4));
    assert_eq!(r.try_pop(), None);
}

#[test]
fn ring_refuses_beyond_capacity() {
    let mut r = RingBuffer::new();
    for i in 0..128u32 {
        assert!(r.try_push(i as u8));
    }
    assert!(!r.try_push(0xff));
    assert_eq!(r.occupancy(), 128);
    assert_eq!(r.try_pop(), Some(0));
    r.clear();
    assert_eq!(r.occupancy(), 0);
    assert_eq!(r.try_pop(), None);
}

fn advance_all(t: &mut Tokenizer, bytes: &[u8]) -> Vec<TokStep> {
    bytes.iter().map(|&b| t.advance(b)).collect()
}

#[test]
fn tokenizer_splits_words_and_uppercases() {
    let mut t = Tokenizer::new();
    let steps = advance_all(&mut t, b"g1x2\n");
    assert_eq!(steps[0], TokStep::Quiet);
    assert_eq!(steps[1], TokStep::Quiet);
    assert_eq!(steps[2], TokStep::One(Token::Word { letter: b'G', mantissa: 10000 }));
    assert_eq!(steps[3], TokStep::Quiet);
    assert_eq!(
        steps[4],
        TokStep::Two(Token::Word { letter: b'X', mantissa: 20000 }, Token::Execute)
    );
}

#[test]
fn tokenizer_parses_signed_fractions() {
    let mut t = Tokenizer::new();
    let steps = advance_all(&mut t, b"X-2.5 ");
    assert_eq!(
        steps[5],
        TokStep::One(Token::Word { letter: b'X', mantissa: -25000 })
    );
    let steps = advance_all(&mut t, b"Y+0.1234\n");
    assert_eq!(
        steps[8],
        TokStep::Two(Token::Word { letter: b'Y', mantissa: 1234 }, Token::Execute)
    );
}

#[test]
fn tokenizer_truncates_fraction_after_four_digits() {
    let mut t = Tokenizer::new();
    let steps = advance_all(&mut t, b"X0.99999\n");
    assert_eq!(
        steps[8],
        TokStep::Two(Token::Word { letter: b'X', mantissa: 9999 }, Token::Execute)
    );
}

#[test]
fn tokenizer_parses_line_numbers_and_checksums() {
    let mut t = Tokenizer::new();
    let steps = advance_all(&mut t, b"N42 ");
    assert_eq!(steps[3], TokStep::One(Token::LineNumber { n: 42 }));
    // XOR of the bytes before the star: "N42 ".
    let xor = b"N42 ".iter().fold(0u8, |a, b| a ^ b);
    let steps = advance_all(&mut t, b"*7\n");
    assert_eq!(
        steps[2],
        TokStep::Two(Token::Checksum { stated: 7, computed: xor }, Token::Execute)
    );
}

#[test]
fn tokenizer_rejects_dangling_fraction() {
    let mut t = Tokenizer::new();
    let steps = advance_all(&mut t, b"X1.\n");
    assert_eq!(steps[3], TokStep::FailEol(ParseError::BadSyntax { byte: b'\n' }));
}

#[test]
fn tokenizer_rejects_letter_without_number() {
    let mut t = Tokenizer::new();
    let steps = advance_all(&mut t, b"G \n");
    assert_eq!(steps[1], TokStep::Fail(ParseError::BadSyntax { byte: b' ' }));
    // After the failure everything up to the end of line is discarded.
    assert_eq!(steps[2], TokStep::One(Token::Execute));
}

#[test]
fn tokenizer_collapses_crlf() {
    let mut t = Tokenizer::new();
    let steps = advance_all(&mut t, b"G1\r\nX2\n");
    assert_eq!(
        steps[2],
        TokStep::Two(Token::Word { letter: b'G', mantissa: 10000 }, Token::Execute)
    );
    assert_eq!(steps[3], TokStep::Quiet);
    assert_eq!(
        steps[6],
        TokStep::Two(Token::Word { letter: b'X', mantissa: 20000 }, Token::Execute)
    );
}

#[test]
fn tokenizer_reset_forgets_the_line() {
    let mut t = Tokenizer::new();
    let _ = advance_all(&mut t, b"X1");
    t.reset();
    let steps = advance_all(&mut t, b"G1\n");
    assert_eq!(
        steps[2],
        TokStep::Two(Token::Word { letter: b'G', mantissa: 10000 }, Token::Execute)
    );
}

#[test]
fn tokenizer_rejects_oversized_integer_part() {
    let mut t = Tokenizer::new();
    let steps = advance_all(&mut t, b"X9999999999999\n");
    assert_eq!(steps[13], TokStep::Fail(ParseError::BadSyntax { byte: b'9' }));
}

#[test]
fn assembler_accepts_in_order_and_rejects_gap() {
    let mut a = LineAssembler::new();
    assert!(matches!(a.feed(Token::LineNumber { n: 0 }), FeedResult::Progress));
    assert!(matches!(
        a.feed(Token::Word { letter: b'G', mantissa: 10000 }),
        FeedResult::Progress
    ));
    match a.feed(Token::Execute) {
        FeedResult::Ready(line) => {
            assert_eq!(line.number, Some(0));
            assert_eq!(line.words.len(), 1);
        },
        _ => panic!("expected a ready line"),
    }
    assert_eq!(a.expected_line_number(), 1);
    assert!(matches!(a.feed(Token::LineNumber { n: 5 }), FeedResult::Progress));
    assert!(matches!(
        a.feed(Token::Execute),
        FeedResult::Reject(ErrorKind::InvalidLineNumber)
    ));
    assert_eq!(a.expected_line_number(), 1);
}

#[test]
fn assembler_rejects_misplaced_line_number() {
    let mut a = LineAssembler::new();
    assert!(matches!(
        a.feed(Token::Word { letter: b'G', mantissa: 10000 }),
        FeedResult::Progress
    ));
    assert!(matches!(
        a.feed(Token::LineNumber { n: 0 }),
        FeedResult::Reject(ErrorKind::Syntax)
    ));
    // Recovery: tokens are ignored until Execute, then service resumes.
    assert!(matches!(
        a.feed(Token::Word { letter: b'X', mantissa: 0 }),
        FeedResult::Progress
    ));
    assert!(matches!(a.feed(Token::Execute), FeedResult::Progress));
    assert!(matches!(
        a.feed(Token::Word { letter: b'X', mantissa: 0 }),
        FeedResult::Progress
    ));
    assert!(matches!(a.feed(Token::Execute), FeedResult::Ready(_)));
}

#[test]
fn assembler_rejects_word_after_checksum() {
    let mut a = LineAssembler::new();
    assert!(matches!(
        a.feed(Token::Checksum { stated: 1, computed: 1 }),
        FeedResult::Progress
    ));
    assert!(matches!(
        a.feed(Token::Word { letter: b'G', mantissa: 0 }),
        FeedResult::Reject(ErrorKind::Syntax)
    ));
}

#[test]
fn responder_builds_exact_bytes() {
    assert_eq!(build_ok(), b"ok\n");
    assert_eq!(build_response(ErrorKind::Io, 0), b"error:io\nrs N:0\n");
    assert_eq!(build_response(ErrorKind::Overflow, 7), b"error:overflow\nrs N:7\n");
    assert_eq!(build_response(ErrorKind::Syntax, 42), b"error:syntax\nrs N:42\n");
    assert_eq!(
        build_response(ErrorKind::TooManyWords, 9),
        b"error:too_many_words\nrs N:9\n"
    );
    assert_eq!(build_response(ErrorKind::InvalidLineNumber, 12345), b"rs N:12345\n");
    assert_eq!(build_response(ErrorKind::BadChecksum, 99999), b"rs N:99999\n");
    assert_eq!(
        build_response(ErrorKind::BadLineNumber, 1),
        b"error:line_number\nrs N:1\n"
    );
}

#[test]
fn banner_names_the_platform() {
    let hw = b"host".to_vec();
    assert_eq!(build_banner(&hw), b"gcode_core VER:1 MODEL:gcode HW:host\n");
}

#[test]
fn error_kind_from_parse_error() {
    assert_eq!(ErrorKind::from(ParseError::BadSyntax { byte: b'?' }), ErrorKind::Syntax);
    assert_eq!(ErrorKind::from(ParseError::BadLineNumber), ErrorKind::BadLineNumber);
}
