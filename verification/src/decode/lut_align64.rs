//! The scalar constant-time decoder.
//!
//! Two 64-entry tables cover the ASCII ranges `0x00..0x3F` and
//! `0x40..0x7F`.  Every input byte probes both tables at the same index
//! (its low six bits) and selects one result with an arithmetic mask, so
//! the memory access pattern does not depend on which range the byte falls
//! in.  Each entry packs a 6-bit value in its low bits plus an "invalid"
//! flag (bit 7) and a "whitespace" flag (bit 6).
//!
//! A 64-byte table spans one cache line where lines are 64 bytes wide,
//! which mitigates — but does not rule out — cache-timing leakage; on
//! hardware with sub-cache-line timing this is a best-effort measure, not
//! a guarantee.
use vstd::prelude::*;
use crate::decode::{BlockResult, Decoder};
use crate::model::{first_hard, is_hard, is_space, is_symbol, sym_value, sym_vals};

verus! {

/// Table entry a byte in `0x00..0x3F` selects: its 6-bit value, or the
/// whitespace flag `0x40`, or the invalid flag `0x80`.
pub open spec fn lut_lo(i: int) -> u8 {
    if i == 9 || i == 10 || i == 12 || i == 13 || i == 32 {
        0x40u8
    } else if i == 43 || i == 45 {
        62u8
    } else if i == 47 {
        63u8
    } else if 48 <= i && i <= 57 {
        (i + 4) as u8
    } else {
        0x80u8
    }
}

/// Table entry a byte in `0x40..0x7F` selects, indexed by its low six bits.
pub open spec fn lut_hi(i: int) -> u8 {
    if 1 <= i && i <= 26 {
        (i - 1) as u8
    } else if i == 31 {
        63u8
    } else if 33 <= i && i <= 58 {
        (i - 7) as u8
    } else {
        0x80u8
    }
}

/// The low-range lookup table, one byte per input value `0x00..0x3F`.
fn make_lut_lo() -> (r: [u8; 64])
    ensures
        forall|i: int| 0 <= i < 64 ==> r@[i] == lut_lo(i),
{
    let t: [u8; 64] = [
        0x80, 0x80, 0x80, 0x80, 0x80, 0x80, 0x80, 0x80,
        0x80, 0x40, 0x40, 0x80, 0x40, 0x40, 0x80, 0x80,
        0x80, 0x80, 0x80, 0x80, 0x80, 0x80, 0x80, 0x80,
        0x80, 0x80, 0x80, 0x80, 0x80, 0x80, 0x80, 0x80,
        0x40, 0x80, 0x80, 0x80, 0x80, 0x80, 0x80, 0x80,
        0x80, 0x80, 0x80, 62, 0x80, 62, 0x80, 63,
        52, 53, 54, 55, 56, 57, 58, 59,
        60, 61, 0x80, 0x80, 0x80, 0x80, 0x80, 0x80,
    ];
    t
}

/// The high-range lookup table, one byte per input value `0x40..0x7F`.
fn make_lut_hi() -> (r: [u8; 64])
    ensures
        forall|i: int| 0 <= i < 64 ==> r@[i] == lut_hi(i),
{
    let t: [u8; 64] = [
        0x80, 0, 1, 2, 3, 4, 5, 6,
        7, 8, 9, 10, 11, 12, 13, 14,
        15, 16, 17, 18, 19, 20, 21, 22,
        23, 24, 25, 0x80, 0x80, 0x80, 0x80, 63,
        0x80, 26, 27, 28, 29, 30, 31, 32,
        33, 34, 35, 36, 37, 38, 39, 40,
        41, 42, 43, 44, 45, 46, 47, 48,
        49, 50, 51, 0x80, 0x80, 0x80, 0x80, 0x80,
    ];
    t
}

/// Decode one byte: its 6-bit value (when it is a symbol), the invalid
/// flag, and the whitespace flag.  Both tables are probed on every call,
/// whatever the byte holds.
pub fn decode64(b: u8) -> (r: (u8, bool, bool))
    ensures
        r.1 == is_hard(b),
        !r.1 ==> r.2 == is_space(b),
        is_symbol(b) ==> r.0 == sym_value(b),
{
    let t1 = make_lut_lo();
    let t2 = make_lut_hi();
    let idx = (b % 64) as usize;
    // 0xff when the byte lies in 0x40..0x7F, 0x00 otherwise, without a branch
    let mask = 0u8.wrapping_sub(((b & 0xc0) == 0x40) as u8);
    let looked_up = ((!mask) & t1[idx]) | (mask & t2[idx]);
    let invalid = ((b | looked_up) & 0x80) != 0;
    let space = (looked_up & 0x40) == 0x40;
    proof {
        assert(forall|x: u8| ((x & 0xc0) == 0x40) == (0x40 <= x && x < 0x80)) by (bit_vector);
        assert(forall|x: u8, y: u8|
            ((!0u8 & x) | (0u8 & y)) == x && ((!0xffu8 & x) | (0xffu8 & y)) == y) by (bit_vector);
        assert(forall|x: u8, y: u8| (((x | y) & 0x80) != 0) == (x >= 0x80 || y >= 0x80))
            by (bit_vector);
        assert(forall|x: u8| ((x & 0x40) == 0x40) == (64 <= x && x < 128 || x >= 192))
            by (bit_vector);
        if b < 0x40 {
            assert(looked_up == lut_lo(b as int));
        } else if b < 0x80 {
            assert(looked_up == lut_hi(b as int - 64));
        } else {
            assert(invalid);
        }
    }
    (looked_up, invalid, space)
}

/// The scalar constant-time decoder: one byte per block, every byte
/// probing both tables.
#[derive(Clone, Copy)]
pub struct LutAlign64;

impl Decoder for LutAlign64 {
    open spec fn block_len(&self) -> int {
        1
    }

    proof fn block_len_bounds(&self) {
    }

    fn block_size(&self) -> (n: usize) {
        1
    }

    fn zero_block(&self) -> (b: Vec<u8>) {
        let mut b: Vec<u8> = Vec::new();
        b.push(0x20);
        b
    }

    fn decode_block(&self, block: &mut Vec<u8>) -> (r: BlockResult) {
        let ghost obs = block@;
        let b = block[0];
        let (a, invalid, space) = decode64(b);
        block[0] = a;
        proof {
            assert(obs =~= seq![b]);
            assert(seq![b].drop_last() =~= Seq::<u8>::empty());
            assert(sym_vals(Seq::<u8>::empty()) =~= Seq::<u8>::empty());
            assert(first_hard(seq![b], 1int) is None);
            if is_symbol(b) {
                assert(sym_vals(obs) =~= seq![sym_value(b)]);
                assert(block@.subrange(0, 1) =~= seq![a]);
            } else {
                assert(sym_vals(obs) =~= Seq::<u8>::empty());
                assert(block@.subrange(0, 0) =~= Seq::<u8>::empty());
            }
        }
        BlockResult {
            out_length: if space || invalid {
                0
            } else {
                1
            },
            first_invalid: if invalid {
                Option::Some(0)
            } else {
                Option::None
            },
        }
    }
}

} // verus!
