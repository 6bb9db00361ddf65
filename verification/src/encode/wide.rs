//! The wide blocked encoder: a branch-minimal formulation of the
//! vectorized algorithm, working 32 symbols per block.
//!
//! Each 6-bit value is assigned to one of five ranges — lowercase, ten
//! digit sub-ranges treated uniformly, the two special slots, uppercase —
//! by a saturating subtraction and a comparison, and the range picks the
//! offset added to reach the ASCII symbol.  The unpacker splits groups of
//! twenty-four packed bytes into thirty-two 6-bit values.
use vstd::prelude::*;
use crate::encode::{Encoder, Unpacker};
use crate::model::{sym_char, syms_of};
use crate::CharacterSet;

verus! {

/// Offsets from a 6-bit value to its ASCII symbol, indexed by range:
/// entry 0 serves lowercase, 1 through 10 the digits, 11 and 12 the two
/// special symbols, 13 uppercase.
fn make_shift_lut(charset: CharacterSet) -> (r: [u8; 16])
    ensures
        r@[0] == 71u8,
        forall|i: int| 1 <= i <= 10 ==> r@[i] == 0xfcu8,
        r@[11] == match charset {
            CharacterSet::Standard => 0xedu8,
            CharacterSet::UrlSafe => 0xefu8,
        },
        r@[12] == match charset {
            CharacterSet::Standard => 0xf0u8,
            CharacterSet::UrlSafe => 0x20u8,
        },
        r@[13] == 65u8,
{
    match charset {
        CharacterSet::Standard => {
            let t: [u8; 16] = [
                71, 0xfc, 0xfc, 0xfc, 0xfc, 0xfc, 0xfc, 0xfc,
                0xfc, 0xfc, 0xfc, 0xed, 0xf0, 65, 0, 0,
            ];
            t
        },
        CharacterSet::UrlSafe => {
            let t: [u8; 16] = [
                71, 0xfc, 0xfc, 0xfc, 0xfc, 0xfc, 0xfc, 0xfc,
                0xfc, 0xfc, 0xfc, 0xef, 0x20, 65, 0, 0,
            ];
            t
        },
    }
}

/// Encode one 6-bit value by range selection and offset addition.
fn encode_sym_wide(v: u8, lut: &[u8; 16], charset: CharacterSet) -> (r: u8)
    requires
        v < 64,
        lut@[0] == 71u8,
        forall|i: int| 1 <= i <= 10 ==> lut@[i] == 0xfcu8,
        lut@[11] == match charset {
            CharacterSet::Standard => 0xedu8,
            CharacterSet::UrlSafe => 0xefu8,
        },
        lut@[12] == match charset {
            CharacterSet::Standard => 0xf0u8,
            CharacterSet::UrlSafe => 0x20u8,
        },
        lut@[13] == 65u8,
    ensures
        r == sym_char(v, charset),
{
    // 0 for letters, 1..=12 for digits and specials
    let ranged = v.saturating_sub(51);
    // 0xff exactly for uppercase
    let less = v < 26;
    let idx = ranged | (if less {
        13u8
    } else {
        0u8
    });
    proof {
        assert(forall|a: u8| #![trigger a | 0u8] (a | 0u8) == a && (0u8 | a) == a)
            by (bit_vector);
        if less {
            assert(ranged == 0);
            assert(ranged | 13u8 == 13u8) by (bit_vector)
                requires
                    ranged == 0u8,
            ;
        }
        assert(idx <= 13);
    }
    let sh = lut[idx as usize];
    v.wrapping_add(sh)
}

/// The wide implementation: 32-symbol blocks on the encode side and
/// 24-byte input groups on the unpacking side.
#[derive(Clone, Copy)]
pub struct Wide;

impl Encoder for Wide {
    open spec fn block_len(&self) -> int {
        32
    }

    proof fn block_len_bounds(&self) {
    }

    fn block_size(&self) -> (n: usize) {
        32
    }

    #[verifier::loop_isolation(false)]
    fn encode_block(&self, block: &mut Vec<u8>, charset: CharacterSet) {
        let lut = make_shift_lut(charset);
        let mut i: usize = 0;
        while i < 32
            invariant
                i <= 32,
                block@.len() == 32,
                forall|q: int| 0 <= q < i ==> block@[q] == sym_char(old(block)@[q], charset),
                forall|q: int| i <= q < 32 ==> block@[q] == old(block)@[q],
            decreases 32 - i,
        {
            let v = block[i];
            block[i] = encode_sym_wide(v, &lut, charset);
            i += 1;
        }
    }
}

impl Unpacker for Wide {
    open spec fn group_in_len(&self) -> int {
        24
    }

    proof fn group_in_len_bounds(&self) {
    }

    fn group_in_size(&self) -> (n: usize) {
        24
    }

    /// Split eight groups of three packed bytes into thirty-two 6-bit
    /// values.
    #[verifier::loop_isolation(false)]
    fn unpack_block(&self, input: &[u8], output: &mut Vec<u8>) {
        let mut g: usize = 0;
        proof {
            assert(input@.subrange(0, 0) =~= Seq::<u8>::empty());
            assert(syms_of(Seq::<u8>::empty()) =~= Seq::<u8>::empty());
        }
        while g < 8
            invariant
                g <= 8,
                output@.len() == 32,
                output@.subrange(0, 4 * g as int) == syms_of(input@.subrange(0, 3 * g as int)),
            decreases 8 - g,
        {
            let b0 = input[3 * g];
            let b1 = input[3 * g + 1];
            let b2 = input[3 * g + 2];
            output[4 * g] = b0 >> 2;
            output[4 * g + 1] = ((b0 & 0x03) << 4) | (b1 >> 4);
            output[4 * g + 2] = ((b1 & 0x0f) << 2) | (b2 >> 6);
            output[4 * g + 3] = b2 & 0x3f;
            proof {
                assert(forall|a: u8| (a >> 2) == a / 4) by (bit_vector);
                assert(forall|a: u8, b: u8|
                    (((a & 0x03) << 4) | (b >> 4)) == (a % 4) * 16 + b / 16) by (bit_vector);
                assert(forall|a: u8, b: u8|
                    (((a & 0x0f) << 2) | (b >> 6)) == (a % 16) * 4 + b / 64) by (bit_vector);
                assert(forall|a: u8| (a & 0x3f) == a % 64) by (bit_vector);
                let pre = input@.subrange(0, 3 * (g as int));
                let grp = input@.subrange(3 * (g as int), 3 * (g as int) + 3);
                crate::model::lemma_syms_of_concat(pre, grp);
                assert(grp.skip(3) =~= Seq::<u8>::empty());
                assert(pre + grp =~= input@.subrange(0, 3 * (g as int) + 3));
                assert(syms_of(grp) =~= seq![
                    b0 / 4,
                    ((b0 % 4) * 16 + b1 / 16) as u8,
                    ((b1 % 16) * 4 + b2 / 64) as u8,
                    b2 % 64,
                ]);
                assert(output@.subrange(0, 4 * (g as int) + 4) =~= syms_of(
                    input@.subrange(0, 3 * (g as int) + 3),
                ));
            }
            g += 1;
        }
        proof {
            assert(input@.subrange(0, 24) =~= input@);
            assert(output@.subrange(0, 32) =~= output@);
        }
    }
}

} // verus!
