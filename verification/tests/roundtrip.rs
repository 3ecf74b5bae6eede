//! Round trip: serializing a parsed line and tokenizing it again
//! reproduces the same word list.

use gcode_core::processor::Event;
use gcode_core::processor::Processor;
use gcode_core::serial::serialize_line;
use gcode_core::token::Line;
use gcode_core::token::Word;

fn parse_one_line(input: &[u8]) -> Line {
    let mut p = Processor::new();
    for &b in input {
        assert!(p.offer_byte(b));
    }
    let mut it = p.process();
    let mut line = None;
    while let Some(ev) = it.next() {
        if let Event::Line(l) = ev {
            assert!(line.is_none(), "more than one line");
            line = Some(l);
        }
    }
    line.expect("no line accepted")
}

fn assert_same_line(a: &Line, b: &Line) {
    assert_eq!(a.number, b.number);
    assert_eq!(a.words.len(), b.words.len());
    for (wa, wb) in a.words.iter().zip(b.words.iter()) {
        assert_eq!(wa.letter, wb.letter);
        assert_eq!(wa.mantissa, wb.mantissa);
    }
}

#[test]
fn serializer_produces_canonical_text() {
    let line = Line {
        number: Some(3),
        words: vec![
            Word { letter: b'G', mantissa: 10000 },
            Word { letter: b'X', mantissa: -25000 },
            Word { letter: b'F', mantissa: 15000000 },
        ],
    };
    assert_eq!(serialize_line(&line), b"N3 G1 X-2.5 F1500 \n");
}

#[test]
fn reparsing_serialized_line_reproduces_words() {
    let original = parse_one_line(b"N0 G1 X-2.5 Y0.0042 F1500\n");
    let text = serialize_line(&original);
    let again = parse_one_line(&text);
    assert_same_line(&original, &again);
}

#[test]
fn reparsing_unnumbered_line_reproduces_words() {
    let original = parse_one_line(b"G92 E0.5001\n");
    let text = serialize_line(&original);
    let again = parse_one_line(&text);
    assert_same_line(&original, &again);
}

#[test]
fn serialization_is_a_fixed_point() {
    let original = parse_one_line(b"  g1\tZ+0.10  \n");
    assert_eq!(original.number, None);
    let text = serialize_line(&original);
    let again = parse_one_line(&text);
    assert_eq!(serialize_line(&again), text);
}
