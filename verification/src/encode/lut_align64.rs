//! The scalar encoder: one 64-entry table per alphabet maps each 6-bit
//! value straight to its ASCII symbol.
use vstd::prelude::*;
use crate::encode::Encoder;
use crate::model::sym_char;
use crate::CharacterSet;

verus! {

/// The encoding table for one alphabet, entry `v` holding `sym_char(v)`.
fn make_alphabet(charset: CharacterSet) -> (r: [u8; 64])
    ensures
        forall|i: int| 0 <= i < 64 ==> r@[i] == sym_char(i as u8, charset),
{
    match charset {
        CharacterSet::Standard => {
            let t: [u8; 64] = [
                0x41, 0x42, 0x43, 0x44, 0x45, 0x46, 0x47, 0x48,
                0x49, 0x4a, 0x4b, 0x4c, 0x4d, 0x4e, 0x4f, 0x50,
                0x51, 0x52, 0x53, 0x54, 0x55, 0x56, 0x57, 0x58,
                0x59, 0x5a, 0x61, 0x62, 0x63, 0x64, 0x65, 0x66,
                0x67, 0x68, 0x69, 0x6a, 0x6b, 0x6c, 0x6d, 0x6e,
                0x6f, 0x70, 0x71, 0x72, 0x73, 0x74, 0x75, 0x76,
                0x77, 0x78, 0x79, 0x7a, 0x30, 0x31, 0x32, 0x33,
                0x34, 0x35, 0x36, 0x37, 0x38, 0x39, 0x2b, 0x2f,
            ];
            t
        },
        CharacterSet::UrlSafe => {
            let t: [u8; 64] = [
                0x41, 0x42, 0x43, 0x44, 0x45, 0x46, 0x47, 0x48,
                0x49, 0x4a, 0x4b, 0x4c, 0x4d, 0x4e, 0x4f, 0x50,
                0x51, 0x52, 0x53, 0x54, 0x55, 0x56, 0x57, 0x58,
                0x59, 0x5a, 0x61, 0x62, 0x63, 0x64, 0x65, 0x66,
                0x67, 0x68, 0x69, 0x6a, 0x6b, 0x6c, 0x6d, 0x6e,
                0x6f, 0x70, 0x71, 0x72, 0x73, 0x74, 0x75, 0x76,
                0x77, 0x78, 0x79, 0x7a, 0x30, 0x31, 0x32, 0x33,
                0x34, 0x35, 0x36, 0x37, 0x38, 0x39, 0x2d, 0x5f,
            ];
            t
        },
    }
}

/// The scalar encoder: one byte per block, encoded by direct table lookup.
#[derive(Clone, Copy)]
pub struct LutAlign64;

impl Encoder for LutAlign64 {
    open spec fn block_len(&self) -> int {
        1
    }

    proof fn block_len_bounds(&self) {
    }

    fn block_size(&self) -> (n: usize) {
        1
    }

    fn encode_block(&self, block: &mut Vec<u8>, charset: CharacterSet) {
        let lut = make_alphabet(charset);
        let v = block[0];
        block[0] = lut[v as usize];
        proof {
            assert(block@ =~= old(block)@.update(0, sym_char(old(block)@[0], charset)));
        }
    }
}

} // verus!
