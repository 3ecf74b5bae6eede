//! Host-facing responses: `ok`, `rs N:<n>`, `error:<msg>` and the boot
//! banner, built as exact byte strings.
//!
//! The responder only builds the bytes; whether and when they reach the
//! host port is the surrounding program's concern, and a full transmit
//! FIFO may drop them without stalling the core.

use vstd::prelude::*;
use crate::num::push_dec_u64;
use crate::num::spec_digits;
use crate::token::ErrorKind;

verus! {

/// `"ok\n"`.
pub open spec fn spec_ok() -> Seq<u8> {
    seq![0x6fu8, 0x6bu8, 0x0au8]
}

/// `"rs N:<e>\n"`: a resend request for line `e`.
pub open spec fn spec_rs(e: u32) -> Seq<u8> {
    seq![0x72u8, 0x73u8, 0x20u8, 0x4eu8, 0x3au8] + spec_digits(e as nat) + seq![0x0au8]
}

/// The `error:<msg>` line a kind earns, if any; `InvalidLineNumber` and
/// `BadChecksum` are reported by the resend request alone.
pub open spec fn spec_error_prefix(k: ErrorKind) -> Seq<u8> {
    match k {
        // "error:io\n"
        ErrorKind::Io => seq![
            0x65u8, 0x72u8, 0x72u8, 0x6fu8, 0x72u8, 0x3au8, 0x69u8, 0x6fu8, 0x0au8,
        ],
        // "error:overflow\n"
        ErrorKind::Overflow => seq![
            0x65u8, 0x72u8, 0x72u8, 0x6fu8, 0x72u8, 0x3au8, 0x6fu8, 0x76u8, 0x65u8, 0x72u8,
            0x66u8, 0x6cu8, 0x6fu8, 0x77u8, 0x0au8,
        ],
        // "error:syntax\n"
        ErrorKind::Syntax => seq![
            0x65u8, 0x72u8, 0x72u8, 0x6fu8, 0x72u8, 0x3au8, 0x73u8, 0x79u8, 0x6eu8, 0x74u8,
            0x61u8, 0x78u8, 0x0au8,
        ],
        // "error:line_number\n"
        ErrorKind::BadLineNumber => seq![
            0x65u8, 0x72u8, 0x72u8, 0x6fu8, 0x72u8, 0x3au8, 0x6cu8, 0x69u8, 0x6eu8, 0x65u8,
            0x5fu8, 0x6eu8, 0x75u8, 0x6du8, 0x62u8, 0x65u8, 0x72u8, 0x0au8,
        ],
        // "error:too_many_words\n"
        ErrorKind::TooManyWords => seq![
            0x65u8, 0x72u8, 0x72u8, 0x6fu8, 0x72u8, 0x3au8, 0x74u8, 0x6fu8, 0x6fu8, 0x5fu8,
            0x6du8, 0x61u8, 0x6eu8, 0x79u8, 0x5fu8, 0x77u8, 0x6fu8, 0x72u8, 0x64u8, 0x73u8,
            0x0au8,
        ],
        ErrorKind::InvalidLineNumber => Seq::<u8>::empty(),
        ErrorKind::BadChecksum => Seq::<u8>::empty(),
    }
}

/// The full reply to an error of kind `k` with the cursor at `e`: the
/// `error:` line when the kind earns one, then always the resend request.
pub open spec fn spec_response(k: ErrorKind, e: u32) -> Seq<u8> {
    spec_error_prefix(k) + spec_rs(e)
}

/// Fixed part of the boot banner, `"gcode_core VER:1 MODEL:gcode HW:"`.
pub open spec fn spec_banner_prefix() -> Seq<u8> {
    seq![
        0x67u8, 0x63u8, 0x6fu8, 0x64u8, 0x65u8, 0x5fu8, 0x63u8, 0x6fu8, 0x72u8, 0x65u8,
        0x20u8, 0x56u8, 0x45u8, 0x52u8, 0x3au8, 0x31u8, 0x20u8, 0x4du8, 0x4fu8, 0x44u8,
        0x45u8, 0x4cu8, 0x3au8, 0x67u8, 0x63u8, 0x6fu8, 0x64u8, 0x65u8, 0x20u8, 0x48u8,
        0x57u8, 0x3au8,
    ]
}

/// The boot banner for platform name `hw`.
pub open spec fn spec_banner(hw: Seq<u8>) -> Seq<u8> {
    spec_banner_prefix() + hw + seq![0x0au8]
}

/// Appends a fixed byte array to `out`.
fn push_all<const N: usize>(out: &mut Vec<u8>, a: &[u8; N])
    ensures
        final(out)@ == old(out)@ + a@,
{
    let mut i: usize = 0;
    while i < N
        invariant
            i <= N,
            out@ == old(out)@ + a@.take(i as int),
        decreases N - i,
    {
        out.push(a[i]);
        i = i + 1;
    }
    proof {
        assert(a@.take(N as int) == a@);
    }
}

/// Builds `"ok\n"`.
pub fn build_ok() -> (r: Vec<u8>)
    ensures
        r@ == spec_ok(),
{
    let mut v: Vec<u8> = Vec::new();
    let m: [u8; 3] = [0x6f, 0x6b, 0x0a];
    push_all(&mut v, &m);
    proof {
        assert(v@ =~= spec_ok());
    }
    v
}

/// Appends `"rs N:<e>\n"` to `out`.
fn push_rs(out: &mut Vec<u8>, e: u32)
    ensures
        final(out)@ == old(out)@ + spec_rs(e),
{
    let m: [u8; 5] = [0x72, 0x73, 0x20, 0x4e, 0x3a];
    push_all(out, &m);
    push_dec_u64(out, e as u64);
    out.push(0x0a);
    proof {
        assert(out@ =~= old(out)@ + spec_rs(e));
    }
}

/// Builds the full reply to an error of kind `k` with the cursor at `e`.
pub fn build_response(k: ErrorKind, e: u32) -> (r: Vec<u8>)
    ensures
        r@ == spec_response(k, e),
{
    let mut v: Vec<u8> = Vec::new();
    match k {
        ErrorKind::Io => {
            let m: [u8; 9] = [0x65, 0x72, 0x72, 0x6f, 0x72, 0x3a, 0x69, 0x6f, 0x0a];
            push_all(&mut v, &m);
        },
        ErrorKind::Overflow => {
            let m: [u8; 15] = [
                0x65, 0x72, 0x72, 0x6f, 0x72, 0x3a, 0x6f, 0x76, 0x65, 0x72, 0x66, 0x6c, 0x6f,
                0x77, 0x0a,
            ];
            push_all(&mut v, &m);
        },
        ErrorKind::Syntax => {
            let m: [u8; 13] = [
                0x65, 0x72, 0x72, 0x6f, 0x72, 0x3a, 0x73, 0x79, 0x6e, 0x74, 0x61, 0x78, 0x0a,
            ];
            push_all(&mut v, &m);
        },
        ErrorKind::BadLineNumber => {
            let m: [u8; 18] = [
                0x65, 0x72, 0x72, 0x6f, 0x72, 0x3a, 0x6c, 0x69, 0x6e, 0x65, 0x5f, 0x6e, 0x75,
                0x6d, 0x62, 0x65, 0x72, 0x0a,
            ];
            push_all(&mut v, &m);
        },
        ErrorKind::TooManyWords => {
            let m: [u8; 21] = [
                0x65, 0x72, 0x72, 0x6f, 0x72, 0x3a, 0x74, 0x6f, 0x6f, 0x5f, 0x6d, 0x61, 0x6e,
                0x79, 0x5f, 0x77, 0x6f, 0x72, 0x64, 0x73, 0x0a,
            ];
            push_all(&mut v, &m);
        },
        ErrorKind::InvalidLineNumber => {},
        ErrorKind::BadChecksum => {},
    }
    proof {
        assert(v@ =~= spec_error_prefix(k));
    }
    push_rs(&mut v, e);
    v
}

/// Builds the boot banner for platform name `hw`.
pub fn build_banner(hw: &Vec<u8>) -> (r: Vec<u8>)
    ensures
        r@ == spec_banner(hw@),
{
    let mut v: Vec<u8> = Vec::new();
    let m: [u8; 32] = [
        0x67, 0x63, 0x6f, 0x64, 0x65, 0x5f, 0x63, 0x6f, 0x72, 0x65, 0x20, 0x56, 0x45, 0x52,
        0x3a, 0x31, 0x20, 0x4d, 0x4f, 0x44, 0x45, 0x4c, 0x3a, 0x67, 0x63, 0x6f, 0x64, 0x65,
        0x20, 0x48, 0x57, 0x3a,
    ];
    push_all(&mut v, &m);
    proof {
        assert(v@ =~= spec_banner_prefix());
    }
    let mut i: usize = 0;
    while i < hw.len()
        invariant
            i <= hw@.len(),
            v@ == spec_banner_prefix() + hw@.take(i as int),
        decreases hw@.len() - i,
    {
        v.push(hw[i]);
        i = i + 1;
    }
    v.push(0x0a);
    proof {
        assert(hw@.take(hw@.len() as int) == hw@);
        assert(v@ =~= spec_banner(hw@));
    }
    v
}

} // verus!
