//! The wide blocked decoder: a branch-minimal formulation of the
//! vectorized algorithm, working 32 bytes per block.
//!
//! Each byte is split into nibbles.  The low nibble selects a row of a
//! 16-entry validity bitmap and the high nibble selects a bit within it,
//! classifying the byte as recognized (symbol or whitespace) or not.  The
//! 6-bit value is computed two ways — a per-range offset added to the
//! byte for letters and digits, and a small table indexed by the nibble
//! difference for the four special symbols — and the two are blended by a
//! mask derived from the special-character range test.  A separate range
//! test marks the positions holding symbols, which drives compaction.
use vstd::prelude::*;
use crate::decode::{BlockResult, Decoder, Packer};
use crate::model::{
    decoded_bytes, is_hard, is_space, is_symbol, join_b0, join_b1, join_b2, sym_value, sym_vals,
};

verus! {

/// Validity bitmap rows, indexed by a byte's low nibble; bit `h` of a row
/// tells whether the byte with high nibble `h` is a symbol or whitespace.
fn make_row_lut() -> (r: [u8; 16])
    ensures
        forall|i: int| 0 <= i < 8 ==> r@[i] as u64 == (0xf8f8f8f8f8f8f8acu64 >> (8 * i) as u64)
            & 0xff,
        forall|i: int| 8 <= i < 16 ==> r@[i] as u64 == (0x7450555154f1f9f8u64 >> (8 * (i
            - 8)) as u64) & 0xff,
{
    let t: [u8; 16] = [
        0xac, 0xf8, 0xf8, 0xf8, 0xf8, 0xf8, 0xf8, 0xf8,
        0xf8, 0xf9, 0xf1, 0x54, 0x51, 0x55, 0x50, 0x74,
    ];
    proof {
        assert((0xf8f8f8f8f8f8f8acu64 >> 0) & 0xff == 0xac && (0xf8f8f8f8f8f8f8acu64 >> 8) & 0xff
            == 0xf8 && (0xf8f8f8f8f8f8f8acu64 >> 16) & 0xff == 0xf8 && (0xf8f8f8f8f8f8f8acu64
            >> 24) & 0xff == 0xf8 && (0xf8f8f8f8f8f8f8acu64 >> 32) & 0xff == 0xf8
            && (0xf8f8f8f8f8f8f8acu64 >> 40) & 0xff == 0xf8 && (0xf8f8f8f8f8f8f8acu64 >> 48)
            & 0xff == 0xf8 && (0xf8f8f8f8f8f8f8acu64 >> 56) & 0xff == 0xf8) by (bit_vector);
        assert((0x7450555154f1f9f8u64 >> 0) & 0xff == 0xf8 && (0x7450555154f1f9f8u64 >> 8) & 0xff
            == 0xf9 && (0x7450555154f1f9f8u64 >> 16) & 0xff == 0xf1 && (0x7450555154f1f9f8u64
            >> 24) & 0xff == 0x54 && (0x7450555154f1f9f8u64 >> 32) & 0xff == 0x51
            && (0x7450555154f1f9f8u64 >> 40) & 0xff == 0x55 && (0x7450555154f1f9f8u64 >> 48)
            & 0xff == 0x50 && (0x7450555154f1f9f8u64 >> 56) & 0xff == 0x74) by (bit_vector);
    }
    t
}

/// Column bits, indexed by a byte's high nibble: `1 << h` below 8, zero
/// above (bytes past ASCII are never recognized).
fn make_col_lut() -> (r: [u8; 16])
    ensures
        forall|i: int| 0 <= i < 8 ==> r@[i] as u64 == (1u64 << i as u64),
        forall|i: int| 8 <= i < 16 ==> r@[i] == 0u8,
{
    let t: [u8; 16] = [
        0x01, 0x02, 0x04, 0x08, 0x10, 0x20, 0x40, 0x80,
        0, 0, 0, 0, 0, 0, 0, 0,
    ];
    proof {
        assert(1u64 << 0 == 1 && 1u64 << 1 == 2 && 1u64 << 2 == 4 && 1u64 << 3 == 8 && 1u64 << 4
            == 16 && 1u64 << 5 == 32 && 1u64 << 6 == 64 && 1u64 << 7 == 128) by (bit_vector);
    }
    t
}

/// Classify one byte the way the wide algorithm does: its blended 6-bit
/// value, whether it is recognized (symbol or whitespace), and whether it
/// is a symbol proper.
#[verifier::rlimit(60)]
#[verifier::spinoff_prover]
fn classify_wide(b: u8) -> (r: (u8, bool, bool))
    ensures
        r.1 == (is_symbol(b) || is_space(b)),
        r.2 == is_symbol(b),
        is_symbol(b) ==> r.0 == sym_value(b),
{
    let row_lut = make_row_lut();
    let col_lut = make_col_lut();
    // per-range offsets for digits, uppercase and lowercase letters,
    // indexed by high nibble (the letter offsets wrap)
    let shift_lut: [u8; 16] = [0, 0, 0, 4, 0xbf, 0xbf, 0xb9, 0xb9, 0, 0, 0, 0, 0, 0, 0, 0];
    // which high nibbles may hold special symbols
    let spcrange_lut: [u8; 16] = [0, 0, 0xff, 0, 0, 0xff, 0, 0, 0, 0, 0, 0, 0, 0, 0, 0];
    // inverted 6-bit values of `+ _ - /`, indexed by low minus high nibble
    let spcchar_lut: [u8; 16] = [0, 0, 0, 0, 0, 0, 0, 0, 0, 0xc1, 0xc0, 0xc1, 0, 0xc0, 0, 0];
    let lo = b & 0x0f;
    let hi = b >> 4;
    proof {
        assert(lo < 16 && hi < 16) by (bit_vector)
            requires
                lo == b & 0x0f,
                hi == b >> 4,
        ;
    }
    let row = row_lut[lo as usize];
    let col = col_lut[hi as usize];
    let recognized = (row & col) != 0;
    let sh = shift_lut[hi as usize];
    let shifted = b.wrapping_add(sh);
    let sel_range = spcrange_lut[hi as usize];
    let specials = if lo >= hi {
        spcchar_lut[(lo - hi) as usize]
    } else {
        0
    };
    let sel_spec = sel_range & specials;
    let result = if (sel_spec & 0x80) != 0 {
        !specials
    } else {
        shifted
    };
    let valid = (b >= 0x41 && b <= 0x5a) || (b >= 0x61 && b <= 0x7a) || (b >= 0x30 && b <= 0x39)
        || b == 0x2b || b == 0x2f || b == 0x2d || b == 0x5f;
    proof {
        let rowv = row as u64;
        let colv = col as u64;
        assert(rowv == (if lo < 8 {
            (0xf8f8f8f8f8f8f8acu64 >> (8 * (lo as int)) as u64) & 0xff
        } else {
            (0x7450555154f1f9f8u64 >> (8 * ((lo as int) - 8)) as u64) & 0xff
        }));
        assert(colv == (if hi < 8 {
            1u64 << (hi as int) as u64
        } else {
            0u64
        }));
        // the bitmap test recognizes exactly the symbols and whitespace
        assert(recognized == (0x41 <= b && b <= 0x5a || 0x61 <= b && b <= 0x7a || 0x30 <= b && b
            <= 0x39 || b == 0x2b || b == 0x2f || b == 0x2d || b == 0x5f || b == 0x20 || b == 0x09
            || b == 0x0a || b == 0x0c || b == 0x0d)) by (bit_vector)
            requires
                lo == b & 0x0f,
                hi == b >> 4,
                rowv == (if lo < 8 {
                    (0xf8f8f8f8f8f8f8acu64 >> (8 * (lo as int)) as u64) & 0xff
                } else {
                    (0x7450555154f1f9f8u64 >> (8 * ((lo as int) - 8)) as u64) & 0xff
                }),
                colv == (if hi < 8 {
                    1u64 << (hi as int) as u64
                } else {
                    0u64
                }),
                recognized == ((row & col) != 0),
                rowv == row as u64,
                colv == col as u64,
        ;
        // the blended arithmetic reproduces each symbol's 6-bit value
        assert(sh == (if hi == 3 {
            4u8
        } else if hi == 4 || hi == 5 {
            0xbfu8
        } else if hi == 6 || hi == 7 {
            0xb9u8
        } else {
            0u8
        }));
        assert(shifted == (if b + sh > 255 {
            (b + sh - 256) as u8
        } else {
            (b + sh) as u8
        }));
        assert(sel_range == (if hi == 2 || hi == 5 {
            0xffu8
        } else {
            0u8
        }));
        assert(specials == (if lo >= hi && lo - hi == 9 {
            0xc1u8
        } else if lo >= hi && lo - hi == 10 {
            0xc0u8
        } else if lo >= hi && lo - hi == 11 {
            0xc1u8
        } else if lo >= hi && lo - hi == 13 {
            0xc0u8
        } else {
            0u8
        }));
        assert((0x41 <= b && b <= 0x5a ==> result == (b - 0x41) as u8) && (0x61 <= b && b <= 0x7a
            ==> result == (b - 0x47) as u8) && (0x30 <= b && b <= 0x39 ==> result == (b
            + 4) as u8) && ((b == 0x2b || b == 0x2d) ==> result == 62) && ((b == 0x2f || b
            == 0x5f) ==> result == 63)) by (bit_vector)
            requires
                lo == b & 0x0f,
                hi == b >> 4,
                sh == (if hi == 3 {
                    4u8
                } else if hi == 4 || hi == 5 {
                    0xbfu8
                } else if hi == 6 || hi == 7 {
                    0xb9u8
                } else {
                    0u8
                }),
                shifted == (if b + sh > 255 {
                    (b + sh - 256) as u8
                } else {
                    (b + sh) as u8
                }),
                sel_range == (if hi == 2 || hi == 5 {
                    0xffu8
                } else {
                    0u8
                }),
                specials == (if lo >= hi && lo - hi == 9 {
                    0xc1u8
                } else if lo >= hi && lo - hi == 10 {
                    0xc0u8
                } else if lo >= hi && lo - hi == 11 {
                    0xc1u8
                } else if lo >= hi && lo - hi == 13 {
                    0xc0u8
                } else {
                    0u8
                }),
                sel_spec == (sel_range & specials),
                result == (if (sel_spec & 0x80) != 0 {
                    !specials
                } else {
                    shifted
                }),
        ;
    }
    (result, recognized, valid)
}

/// The wide implementation: 32-byte blocks on the decode side and
/// 32-symbol groups on the packing side.
#[derive(Clone, Copy)]
pub struct Wide;

impl Decoder for Wide {
    open spec fn block_len(&self) -> int {
        32
    }

    proof fn block_len_bounds(&self) {
    }

    fn block_size(&self) -> (n: usize) {
        32
    }

    fn zero_block(&self) -> (b: Vec<u8>) {
        let mut b: Vec<u8> = Vec::new();
        let mut i: usize = 0;
        while i < 32
            invariant
                i <= 32,
                b@.len() == i,
                forall|q: int| 0 <= q < i ==> b@[q] == 0x20u8,
            decreases 32 - i,
        {
            b.push(0x20);
            i += 1;
        }
        b
    }

    #[verifier::loop_isolation(false)]
    fn decode_block(&self, block: &mut Vec<u8>) -> (r: BlockResult) {
        let ghost obs = block@;
        let mut first_invalid: Option<u8> = Option::None;
        let mut out_len: usize = 0;
        let mut i: usize = 0;
        proof {
            assert(sym_vals(obs.subrange(0, 0)) =~= Seq::<u8>::empty());
        }
        while i < 32
            invariant
                out_len <= i <= 32,
                block@.len() == 32,
                forall|q: int| i <= q < 32 ==> block@[q] == obs[q],
                out_len as int == sym_vals(obs.subrange(0, i as int)).len(),
                block@.subrange(0, out_len as int) == sym_vals(obs.subrange(0, i as int)),
                match first_invalid {
                    Option::Some(fi) => fi < i && is_hard(obs[fi as int]) && forall|q: int|
                        0 <= q < fi ==> !is_hard(obs[q]),
                    Option::None => forall|q: int| 0 <= q < i ==> !is_hard(obs[q]),
                },
            decreases 32 - i,
        {
            let b = block[i];
            let (val, recognized, symb) = classify_wide(b);
            let ghost pre = block@;
            if !recognized && first_invalid.is_none() {
                first_invalid = Option::Some(i as u8);
            }
            if symb {
                block[out_len] = val;
                out_len += 1;
            }
            i += 1;
            proof {
                assert(obs.subrange(0, i as int).drop_last() =~= obs.subrange(0, i as int - 1));
                crate::model::lemma_sym_vals_snoc(obs.subrange(0, i as int - 1), b);
                if symb {
                    assert(block@.subrange(0, out_len as int) =~= pre.subrange(
                        0,
                        out_len as int - 1,
                    ).push(val));
                }
                assert(block@.subrange(0, out_len as int) =~= sym_vals(
                    obs.subrange(0, i as int),
                ));

            }
        }
        proof {
            assert(obs.subrange(0, 32) =~= obs);
            match first_invalid {
                Option::Some(fi) => {
                    crate::model::lemma_first_hard_unique(obs, 0, fi as int);
                },
                Option::None => {
                    crate::model::lemma_first_hard_charac(obs, 0);
                },
            }
        }
        BlockResult {
            out_length: out_len as u8,
            first_invalid,
        }
    }
}

impl Packer for Wide {
    open spec fn group_len(&self) -> int {
        32
    }

    proof fn group_len_bounds(&self) {
    }

    fn group_size(&self) -> (n: usize) {
        32
    }

    fn make_group(&self) -> (g: Vec<u8>) {
        let mut g: Vec<u8> = Vec::new();
        let mut i: usize = 0;
        while i < 32
            invariant
                i <= 32,
                g@.len() == i,
                forall|q: int| 0 <= q < i ==> g@[q] == 0u8,
            decreases 32 - i,
        {
            g.push(0);
            i += 1;
        }
        g
    }

    /// Pack eight groups of four 6-bit values into twenty-four bytes.
    #[verifier::loop_isolation(false)]
    fn pack_block(&self, input: &Vec<u8>, out: &mut Vec<u8>) {
        let mut gidx: usize = 0;
        proof {
            assert(input@.subrange(0, 0) =~= Seq::<u8>::empty());
            assert(decoded_bytes(Seq::<u8>::empty()) =~= Seq::<u8>::empty());
            assert(old(out)@ + Seq::<u8>::empty() =~= old(out)@);
        }
        while gidx < 32
            invariant
                gidx <= 32,
                gidx % 4 == 0,
                out@ == old(out)@ + decoded_bytes(input@.subrange(0, gidx as int)),
            decreases 32 - gidx,
        {
            let s0 = input[gidx];
            let s1 = input[gidx + 1];
            let s2 = input[gidx + 2];
            let s3 = input[gidx + 3];
            let ghost pre = out@;
            out.push((s0 << 2) | (s1 >> 4));
            out.push((s1 << 4) | (s2 >> 2));
            out.push((s2 << 6) | s3);
            proof {
                assert(forall|a: u8, b: u8|
                    a < 64 && b < 64 ==> ((a << 2) | (b >> 4)) == (a % 64) * 4 + (b % 64) / 16)
                    by (bit_vector);
                assert(forall|a: u8, b: u8|
                    a < 64 && b < 64 ==> ((a << 4) | (b >> 2)) == (a % 16) * 16 + (b % 64) / 4)
                    by (bit_vector);
                assert(forall|a: u8, b: u8|
                    a < 64 && b < 64 ==> ((a << 6) | b) == (a % 4) * 64 + b % 64) by (bit_vector);
                let g = input@.subrange(gidx as int, gidx as int + 4);
                assert(g.skip(4) =~= Seq::<u8>::empty());
                assert(decoded_bytes(g) =~= seq![
                    join_b0(s0, s1),
                    join_b1(s1, s2),
                    join_b2(s2, s3),
                ]);
                crate::model::lemma_decoded_concat(input@.subrange(0, gidx as int), g);
                assert(input@.subrange(0, gidx as int) + g =~= input@.subrange(
                    0,
                    gidx as int + 4,
                ));
                assert(out@ =~= old(out)@ + decoded_bytes(input@.subrange(0, gidx as int + 4)));
            }
            gidx += 4;
        }
        proof {
            assert(input@.subrange(0, 32) =~= input@);
        }
    }
}

} // verus!
