//! End-to-end scenarios on the device-to-host channel: literal input
//! bytes in, literal response bytes out.

use gcode_core::processor::Event;
use gcode_core::processor::Processor;
use gcode_core::token::Line;

fn pump(p: &mut Processor, responses: &mut Vec<u8>, lines: &mut Vec<Line>) {
    let mut it = p.process();
    while let Some(ev) = it.next() {
        match ev {
            Event::Line(l) => lines.push(l),
            Event::Respond(r) => responses.extend_from_slice(&r),
        }
    }
}

fn drive(p: &mut Processor, input: &[u8], responses: &mut Vec<u8>, lines: &mut Vec<Line>) {
    for &b in input {
        assert!(p.offer_byte(b));
    }
    pump(p, responses, lines);
}

#[test]
fn numbered_line_accepted() {
    let mut p = Processor::new();
    let mut resp = Vec::new();
    let mut lines = Vec::new();
    drive(&mut p, b"N0 G1 X10\n", &mut resp, &mut lines);
    assert_eq!(resp, b"ok\n");
    assert_eq!(p.expected_line_number(), 1);
    assert_eq!(lines.len(), 1);
    assert_eq!(lines[0].number, Some(0));
    assert_eq!(lines[0].words.len(), 2);
    assert_eq!(lines[0].words[0].letter, b'G');
    assert_eq!(lines[0].words[0].mantissa, 10000);
    assert_eq!(lines[0].words[1].letter, b'X');
    assert_eq!(lines[0].words[1].mantissa, 100000);
}

#[test]
fn out_of_sequence_line_asks_resend() {
    let mut p = Processor::new();
    let mut resp = Vec::new();
    let mut lines = Vec::new();
    drive(&mut p, b"N0 G1 X10\nN2 G1 X20\n", &mut resp, &mut lines);
    assert_eq!(resp, b"ok\nrs N:1\n");
    assert_eq!(p.expected_line_number(), 1);
    assert_eq!(lines.len(), 1);
}

#[test]
fn unnumbered_line_accepted_before_numbering() {
    let mut p = Processor::new();
    let mut resp = Vec::new();
    let mut lines = Vec::new();
    drive(&mut p, b"G1 X10\n", &mut resp, &mut lines);
    assert_eq!(resp, b"ok\n");
    assert_eq!(p.expected_line_number(), 0);
    assert_eq!(lines.len(), 1);
    assert_eq!(lines[0].number, None);
}

#[test]
fn eleven_words_rejected() {
    let mut p = Processor::new();
    let mut resp = Vec::new();
    let mut lines = Vec::new();
    drive(&mut p, b"N0 G1 X1 Y2 Z3 E4 F5 A6 B7 C8 D9\n", &mut resp, &mut lines);
    assert_eq!(resp, b"error:too_many_words\nrs N:0\n");
    assert_eq!(p.expected_line_number(), 0);
    assert_eq!(lines.len(), 0);
}

#[test]
fn bad_byte_rejected_as_syntax() {
    let mut p = Processor::new();
    let mut resp = Vec::new();
    let mut lines = Vec::new();
    drive(&mut p, b"N0 G1 X10?\n", &mut resp, &mut lines);
    assert_eq!(resp, b"error:syntax\nrs N:0\n");
    assert_eq!(p.expected_line_number(), 0);
    assert_eq!(lines.len(), 0);
}

#[test]
fn comment_line_is_silent() {
    let mut p = Processor::new();
    let mut resp = Vec::new();
    let mut lines = Vec::new();
    drive(&mut p, b";just a comment\nN0 G1 X1\n", &mut resp, &mut lines);
    assert_eq!(resp, b"ok\n");
    assert_eq!(p.expected_line_number(), 1);
    assert_eq!(lines.len(), 1);
}

#[test]
fn empty_lines_are_silent() {
    let mut p = Processor::new();
    let mut resp = Vec::new();
    let mut lines = Vec::new();
    drive(&mut p, b"\n\r\n  \n", &mut resp, &mut lines);
    assert_eq!(resp, b"");
    assert_eq!(lines.len(), 0);
    assert_eq!(p.expected_line_number(), 0);
}

#[test]
fn first_numbered_line_must_be_zero() {
    let mut p = Processor::new();
    let mut resp = Vec::new();
    let mut lines = Vec::new();
    drive(&mut p, b"N5 G1\n", &mut resp, &mut lines);
    assert_eq!(resp, b"rs N:0\n");
    assert_eq!(lines.len(), 0);
}

#[test]
fn unnumbered_line_rejected_after_numbering() {
    let mut p = Processor::new();
    let mut resp = Vec::new();
    let mut lines = Vec::new();
    drive(&mut p, b"N0 G1\nG1 X2\n", &mut resp, &mut lines);
    assert_eq!(resp, b"ok\nrs N:1\n");
    assert_eq!(lines.len(), 1);
}

#[test]
fn misplaced_line_number_reports_once() {
    let mut p = Processor::new();
    let mut resp = Vec::new();
    let mut lines = Vec::new();
    // The rejection is reported once; the rest of the dead line, bad
    // bytes included, is discarded silently.
    drive(&mut p, b"N0 X1 N2 ?\nN0 G1\n", &mut resp, &mut lines);
    assert_eq!(resp, b"error:syntax\nrs N:0\nok\n");
    assert_eq!(lines.len(), 1);
    assert_eq!(p.expected_line_number(), 1);
}

#[test]
fn good_checksum_accepted() {
    let mut p = Processor::new();
    let mut resp = Vec::new();
    let mut lines = Vec::new();
    let body: &[u8] = b"N0 G1";
    let c = body.iter().fold(0u8, |a, b| a ^ b);
    let mut input = body.to_vec();
    input.push(b'*');
    input.extend_from_slice(format!("{}", c).as_bytes());
    input.push(b'\n');
    drive(&mut p, &input, &mut resp, &mut lines);
    assert_eq!(resp, b"ok\n");
    assert_eq!(p.expected_line_number(), 1);
    assert_eq!(lines.len(), 1);
    assert_eq!(lines[0].words.len(), 1);
}

#[test]
fn bad_checksum_asks_resend() {
    let mut p = Processor::new();
    let mut resp = Vec::new();
    let mut lines = Vec::new();
    let body: &[u8] = b"N0 G1";
    let c = body.iter().fold(0u8, |a, b| a ^ b).wrapping_add(1);
    let mut input = body.to_vec();
    input.push(b'*');
    input.extend_from_slice(format!("{}", c).as_bytes());
    input.push(b'\n');
    drive(&mut p, &input, &mut resp, &mut lines);
    assert_eq!(resp, b"rs N:0\n");
    assert_eq!(p.expected_line_number(), 0);
    assert_eq!(lines.len(), 0);
}

#[test]
fn fractional_line_number_rejected() {
    let mut p = Processor::new();
    let mut resp = Vec::new();
    let mut lines = Vec::new();
    drive(&mut p, b"N0.5 G1\n", &mut resp, &mut lines);
    assert_eq!(resp, b"error:line_number\nrs N:0\n");
    assert_eq!(lines.len(), 0);
}

#[test]
fn io_error_reports_and_recovers() {
    let mut p = Processor::new();
    let mut resp = Vec::new();
    let mut lines = Vec::new();
    drive(&mut p, b"N0 G", &mut resp, &mut lines);
    let io = p.on_io_error();
    assert_eq!(io, b"error:io\nrs N:0\n");
    // The rest of the broken line is discarded; the next line is taken.
    drive(&mut p, b"1 X3\nN0 G1\n", &mut resp, &mut lines);
    assert_eq!(resp, b"ok\n");
    assert_eq!(p.expected_line_number(), 1);
    assert_eq!(lines.len(), 1);
}

#[test]
fn ring_overflow_reports_and_recovers() {
    let mut p = Processor::new();
    let mut resp = Vec::new();
    let mut lines = Vec::new();
    for _ in 0..128 {
        assert!(p.offer_byte(b' '));
    }
    assert!(!p.offer_byte(b' '));
    pump(&mut p, &mut resp, &mut lines);
    assert_eq!(resp, b"error:overflow\nrs N:0\n");
    resp.clear();
    // Recovery swallows up to the next end of line, then service resumes.
    drive(&mut p, b"X1\nN0 G1\n", &mut resp, &mut lines);
    assert_eq!(resp, b"ok\n");
    assert_eq!(lines.len(), 1);
}

#[test]
fn cursor_wraps_at_modulus() {
    let mut p = Processor::new();
    let mut resp = Vec::new();
    let mut lines = Vec::new();
    for k in 0..100000u32 {
        let input = format!("N{} G1\n", k);
        drive(&mut p, input.as_bytes(), &mut resp, &mut lines);
    }
    assert_eq!(p.expected_line_number(), 0);
    assert_eq!(lines.len(), 100000);
    drive(&mut p, b"N0 G2\n", &mut resp, &mut lines);
    assert_eq!(p.expected_line_number(), 1);
    assert_eq!(lines.len(), 100001);
}

#[test]
fn resend_resumes_without_gap_or_duplicate() {
    let mut p = Processor::new();
    let mut resp = Vec::new();
    let mut lines = Vec::new();
    drive(&mut p, b"N0 G1\nN2 G3\nN1 G2\nN2 G3\n", &mut resp, &mut lines);
    assert_eq!(resp, b"ok\nrs N:1\nok\nok\n");
    assert_eq!(p.expected_line_number(), 3);
    assert_eq!(lines.len(), 3);
    assert_eq!(lines[0].number, Some(0));
    assert_eq!(lines[1].number, Some(1));
    assert_eq!(lines[2].number, Some(2));
}
