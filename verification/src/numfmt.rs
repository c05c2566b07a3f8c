//! Rendering integers as decimal and hexadecimal character sequences:
//! digests are hex strings, and line ranges are written with decimal
//! line numbers.

use vstd::prelude::*;
use crate::text::push_char;

verus! {

pub const DEC_DIGITS: [char; 10] = ['0', '1', '2', '3', '4', '5', '6', '7', '8', '9'];

pub const HEX_DIGITS: [char; 16] = [
    '0',
    '1',
    '2',
    '3',
    '4',
    '5',
    '6',
    '7',
    '8',
    '9',
    'a',
    'b',
    'c',
    'd',
    'e',
    'f',
];

/// `n` written in decimal, most significant digit first, no leading zeros.
pub open spec fn dec_of(n: nat) -> Seq<char>
    decreases n,
{
    if n < 10 {
        seq![DEC_DIGITS@[n as int]]
    } else {
        dec_of(n / 10) + seq![DEC_DIGITS@[(n % 10) as int]]
    }
}

/// `n` written in lowercase hexadecimal, no leading zeros, as the `{:x}`
/// format of the standard library writes a `u64`.
pub open spec fn hex_of(n: nat) -> Seq<char>
    decreases n,
{
    if n < 16 {
        seq![HEX_DIGITS@[n as int]]
    } else {
        hex_of(n / 16) + seq![HEX_DIGITS@[(n % 16) as int]]
    }
}

/// The bytes of `bs` written as two lowercase hex digits each, in order.
pub open spec fn hex_of_bytes(bs: Seq<u8>) -> Seq<char>
    decreases bs.len(),
{
    if bs.len() == 0 {
        Seq::empty()
    } else {
        seq![HEX_DIGITS@[bs[0] as int / 16], HEX_DIGITS@[bs[0] as int % 16]] + hex_of_bytes(
            bs.drop_first(),
        )
    }
}

/// The decimal rendering of `n`.
pub(crate) fn dec_string(n: u64) -> (r: String)
    ensures
        r@ == dec_of(n as nat),
    decreases n,
{
    if n < 10 {
        let mut s = String::new();
        push_char(&mut s, DEC_DIGITS[n as usize]);
        proof {
            assert(Seq::<char>::empty().push(DEC_DIGITS@[n as int]) =~= seq![
                DEC_DIGITS@[n as int],
            ]);
        }
        s
    } else {
        let mut s = dec_string(n / 10);
        push_char(&mut s, DEC_DIGITS[(n % 10) as usize]);
        proof {
            assert(dec_of((n / 10) as nat).push(DEC_DIGITS@[(n % 10) as int]) =~= dec_of(
                (n / 10) as nat,
            ) + seq![DEC_DIGITS@[(n % 10) as int]]);
        }
        s
    }
}

/// The hexadecimal rendering of `n`, as `{:x}` writes it.
pub(crate) fn hex_string(n: u64) -> (r: String)
    ensures
        r@ == hex_of(n as nat),
    decreases n,
{
    if n < 16 {
        let mut s = String::new();
        push_char(&mut s, HEX_DIGITS[n as usize]);
        proof {
            assert(Seq::<char>::empty().push(HEX_DIGITS@[n as int]) =~= seq![
                HEX_DIGITS@[n as int],
            ]);
        }
        s
    } else {
        let mut s = hex_string(n / 16);
        push_char(&mut s, HEX_DIGITS[(n % 16) as usize]);
        proof {
            assert(hex_of((n / 16) as nat).push(HEX_DIGITS@[(n % 16) as int]) =~= hex_of(
                (n / 16) as nat,
            ) + seq![HEX_DIGITS@[(n % 16) as int]]);
        }
        s
    }
}

/// The two-digits-per-byte hex rendering of `bs`.
pub(crate) fn hex_bytes_string(bs: &Vec<u8>) -> (r: String)
    ensures
        r@ == hex_of_bytes(bs@),
{
    let mut r = String::new();
    let n = bs.len();
    let mut i: usize = 0;
    proof {
        assert(bs@.skip(0) =~= bs@);
    }
    while i < n
        invariant
            n == bs@.len(),
            0 <= i <= n,
            hex_of_bytes(bs@) == r@ + hex_of_bytes(bs@.skip(i as int)),
        decreases n - i,
    {
        let b = bs[i];
        push_char(&mut r, HEX_DIGITS[(b / 16) as usize]);
        push_char(&mut r, HEX_DIGITS[(b % 16) as usize]);
        proof {
            let rest = bs@.skip(i as int);
            assert(rest[0] == bs@[i as int]);
            assert(rest.drop_first() =~= bs@.skip(i + 1));
            assert(hex_of_bytes(rest) == seq![
                HEX_DIGITS@[b as int / 16],
                HEX_DIGITS@[b as int % 16],
            ] + hex_of_bytes(bs@.skip(i + 1)));
        }
        i = i + 1;
    }
    proof {
        assert(bs@.skip(n as int) =~= Seq::<u8>::empty());
        assert(r@ + Seq::<char>::empty() =~= r@);
    }
    r
}

} // verus!
