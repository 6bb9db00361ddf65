//! Encoding: block encoders, group unpackers, and the line-wrapping driver.
pub mod lut_align64;
pub mod wide;

use vstd::prelude::*;
use crate::misc::div_roundup;
use crate::model::{
    ascii_chars, encode_model, encoded_chars, nl_bytes, pad_len, sym_char, sym_chars, syms_of,
    wrap_state, wrapped, PAD_BYTE,
};
use crate::{CharacterSet, Config, Newline};

verus! {

/// A block encoder: maps each 6-bit value of a fixed-size block to its
/// ASCII symbol in place.
pub trait Encoder: Sized {
    /// The block size this encoder works on.
    spec fn block_len(&self) -> int;

    proof fn block_len_bounds(&self)
        ensures
            1 <= self.block_len() <= 255,
    ;

    /// The block size, for the driver's chunking.
    fn block_size(&self) -> (n: usize)
        ensures
            n as int == self.block_len(),
    ;

    /// Encode one block of 6-bit values in place.
    fn encode_block(&self, block: &mut Vec<u8>, charset: CharacterSet)
        requires
            old(block)@.len() == self.block_len(),
            forall|i: int| 0 <= i < old(block)@.len() ==> old(block)@[i] < 64,
        ensures
            final(block)@.len() == old(block)@.len(),
            forall|i: int|
                0 <= i < final(block)@.len() ==> final(block)@[i] == sym_char(
                    old(block)@[i],
                    charset,
                ),
    ;
}

/// A group unpacker: splits a fixed-size group of packed bytes into their
/// 6-bit values, four per three bytes.
pub trait Unpacker: Sized {
    /// The input group size this unpacker consumes, a multiple of three.
    spec fn group_in_len(&self) -> int;

    proof fn group_in_len_bounds(&self)
        ensures
            3 <= self.group_in_len() <= 189,
            self.group_in_len() % 3 == 0,
    ;

    /// The input group size, for the driver's chunking.
    fn group_in_size(&self) -> (n: usize)
        ensures
            n as int == self.group_in_len(),
    ;

    /// Split one full group of packed bytes into 6-bit values, writing the
    /// whole output buffer.
    fn unpack_block(&self, input: &[u8], output: &mut Vec<u8>)
        requires
            input@.len() == self.group_in_len(),
            old(output)@.len() == self.group_in_len() / 3 * 4,
        ensures
            final(output)@ == syms_of(input@),
    ;
}

/// The plain unpacker: one group of three bytes to four symbols by shifts
/// and masks.
#[derive(Clone, Copy)]
pub struct Simple;

impl Unpacker for Simple {
    open spec fn group_in_len(&self) -> int {
        3
    }

    proof fn group_in_len_bounds(&self) {
    }

    fn group_in_size(&self) -> (n: usize) {
        3
    }

    fn unpack_block(&self, input: &[u8], output: &mut Vec<u8>) {
        let b0 = input[0];
        let b1 = input[1];
        let b2 = input[2];
        output[0] = b0 >> 2;
        output[1] = ((b0 & 0x03) << 4) | (b1 >> 4);
        output[2] = ((b1 & 0x0f) << 2) | (b2 >> 6);
        output[3] = b2 & 0x3f;
        proof {
            assert(forall|a: u8| (a >> 2) == a / 4) by (bit_vector);
            assert(forall|a: u8, b: u8| (((a & 0x03) << 4) | (b >> 4)) == (a % 4) * 16 + b / 16)
                by (bit_vector);
            assert(forall|a: u8, b: u8| (((a & 0x0f) << 2) | (b >> 6)) == (a % 16) * 4 + b / 64)
                by (bit_vector);
            assert(forall|a: u8| (a & 0x3f) == a % 64) by (bit_vector);
            assert(input@.skip(3) =~= Seq::<u8>::empty());
            assert(syms_of(Seq::<u8>::empty()) =~= Seq::<u8>::empty());
            assert(output@ =~= syms_of(input@));
        }
    }
}

/// The least common multiple of two block sizes: the shared buffer length
/// the driver uses so that unpacker outputs and encoder blocks tile it
/// exactly.
pub fn lcm(a: usize, b: usize) -> (r: usize)
    requires
        1 <= a <= 255,
        1 <= b <= 255,
    ensures
        r as int % a as int == 0,
        r as int % b as int == 0,
        1 <= r <= a * b,
        forall|m: int| 1 <= m < r ==> !(#[trigger] (m % a as int) == 0 && m % b as int == 0),
{
    let ghost ai = a as int;
    let ghost bi = b as int;
    proof {
        vstd::arithmetic::div_mod::lemma_mod_multiples_basic(a as int, bi);
        vstd::arithmetic::div_mod::lemma_mod_multiples_basic(b as int, ai);
        vstd::arithmetic::div_mod::lemma_mod_multiples_basic(1, ai);
        assert(a <= a * b && a * b <= 255 * 255) by (nonlinear_arith)
            requires
                1 <= a <= 255,
                1 <= b <= 255,
        ;
        assert forall|m: int| 1 <= m < a && #[trigger] (m % ai) == 0 implies m % bi != 0 by {
            vstd::arithmetic::div_mod::lemma_small_mod(m as nat, a as nat);
        }
    }
    let mut r = a;
    while r % b != 0
        invariant
            1 <= a <= 255,
            1 <= b <= 255,
            a <= r <= a * b,
            r as int % ai == 0,
            ai == a as int,
            bi == b as int,
            (a * b) as int % bi == 0,
            (a * b) as int % ai == 0,
            a * b <= 255 * 255,
            forall|m: int| 1 <= m < r && #[trigger] (m % ai) == 0 ==> m % bi != 0,
        decreases a * b - r,
    {
        proof {
            // r itself fails the test, and nothing strictly between r and
            // r + a is a multiple of a
            assert(r < a * b);
            assert forall|m: int| 1 <= m < r + a && (#[trigger] (m % ai)) == 0 implies (m % bi
                != 0) by {
                if m > r {
                    crate::model::lemma_mod_offset(r as int, m - r, ai);
                    vstd::arithmetic::div_mod::lemma_small_mod((m - r) as nat, a as nat);
                }
            }
            crate::model::lemma_mod_offset(r as int, ai, ai);
            vstd::arithmetic::div_mod::lemma_mod_multiples_basic(1, ai);
            // r + a stays at most a * b
            if r + a > a * b {
                crate::model::lemma_mod_offset(r as int, (a * b) as int - r, ai);
                vstd::arithmetic::div_mod::lemma_small_mod(((a * b) as int - r) as nat, a as nat);
            }
        }
        r = r + a;
    }
    proof {
        assert forall|m: int| 1 <= m < r implies !(#[trigger] (m % ai) == 0 && m % bi == 0) by {
            if m % ai == 0 {
                assert(m % bi != 0);
            }
        }
    }
    r
}

impl Newline {
    /// Append this newline token's bytes to a buffer.
    pub fn append_to(self, buf: &mut Vec<u8>)
        ensures
            final(buf)@ == old(buf)@ + nl_bytes(self),
    {
        if let Newline::CRLF = self {
            buf.push(0x0d);
        }
        buf.push(0x0a);
        proof {
            assert(buf@ =~= old(buf)@ + nl_bytes(self));
        }
    }
}

/// Fresh vector of `n` zero bytes.
fn zero_vec(n: usize) -> (r: Vec<u8>)
    ensures
        r@.len() == n,
        forall|i: int| 0 <= i < n ==> r@[i] == 0u8,
{
    let mut r: Vec<u8> = Vec::new();
    let mut i: usize = 0;
    while i < n
        invariant
            i <= n,
            r@.len() == i,
            forall|j: int| 0 <= j < i ==> r@[j] == 0u8,
        decreases n - i,
    {
        r.push(0);
        i += 1;
    }
    r
}

/// Copy of `v[a..b]` as a fresh vector.
fn copy_range(v: &Vec<u8>, a: usize, b: usize) -> (r: Vec<u8>)
    requires
        a <= b <= v@.len(),
    ensures
        r@ == v@.subrange(a as int, b as int),
{
    let mut r: Vec<u8> = Vec::new();
    let mut i = a;
    while i < b
        invariant
            a <= i <= b <= v@.len(),
            r@.len() == i - a,
            forall|j: int| 0 <= j < i - a ==> r@[j] == v@[a + j],
        decreases b - i,
    {
        r.push(v[i]);
        i += 1;
    }
    proof {
        assert(r@ =~= v@.subrange(a as int, b as int));
    }
    r
}

/// Write `src` back into `dst` starting at `at`.
fn write_back(dst: &mut Vec<u8>, at: usize, src: &Vec<u8>)
    requires
        at + src@.len() <= old(dst)@.len(),
        old(dst)@.len() <= usize::MAX,
    ensures
        final(dst)@.len() == old(dst)@.len(),
        forall|j: int| 0 <= j < src@.len() ==> final(dst)@[at + j] == src@[j],
        forall|j: int|
            0 <= j < old(dst)@.len() && !(at <= j < at + src@.len()) ==> final(dst)@[j] == old(
                dst,
            )@[j],
{
    let mut i: usize = 0;
    while i < src.len()
        invariant
            i <= src@.len(),
            at + src@.len() <= dst@.len(),
            dst@.len() <= usize::MAX,
            dst@.len() == old(dst)@.len(),
            forall|j: int| 0 <= j < i ==> dst@[at + j] == src@[j],
            forall|j: int|
                0 <= j < dst@.len() && !(at <= j < at + i) ==> dst@[j] == old(dst)@[j],
        decreases src@.len() - i,
    {
        dst[at + i] = src[i];
        i += 1;
    }
}

/// Relies on `String::from_utf8`: bytes that form valid UTF-8 become a
/// string of exactly those characters, and ASCII bytes are one character
/// each.  The precondition keeps the bytes ASCII, so the conversion never
/// fails.
#[verifier::external_body]
fn ascii_string(v: Vec<u8>) -> (r: String)
    requires
        forall|i: int| 0 <= i < v@.len() ==> v@[i] < 0x80,
    ensures
        r@ == ascii_chars(v@),
{
    String::from_utf8(v).unwrap()
}

/// Append `chars[from..to]` to the wrapped output, inserting the newline
/// token wherever a line fills, padding bytes included.
#[verifier::loop_isolation(false)]
#[verifier::rlimit(100)]
#[verifier::spinoff_prover]
fn emit_wrapped(
    output: &mut Vec<u8>,
    chars: &Vec<u8>,
    from: usize,
    to: usize,
    nl_index: &mut usize,
    ll: usize,
    newline: Newline,
    Ghost(e): Ghost<Seq<u8>>,
)
    requires
        ll >= 1,
        from <= to <= chars@.len(),
        forall|i: int| from <= i < to ==> chars@[i] < 0x80,
        forall|i: int| 0 <= i < old(output)@.len() ==> old(output)@[i] < 0x80,
        wrap_state(old(output)@, e, ll as int, nl_bytes(newline), *old(nl_index) as int),
        e.len() + (to - from) <= usize::MAX as int / 8,
    ensures
        wrap_state(
            final(output)@,
            e + chars@.subrange(from as int, to as int),
            ll as int,
            nl_bytes(newline),
            *final(nl_index) as int,
        ),
        from < to ==> final(output)@ == wrapped(
            e + chars@.subrange(from as int, to as int),
            ll as int,
            nl_bytes(newline),
        ),
        forall|i: int| 0 <= i < final(output)@.len() ==> final(output)@[i] < 0x80,
{
    let ghost nlb = nl_bytes(newline);
    let ghost li = ll as int;
    proof {
        assert(nlb.len() <= 2);
        assert(forall|i: int| 0 <= i < nlb.len() ==> nlb[i] < 0x80);
    }
    let mut pos = from;
    while to - pos > *nl_index - output.len()
        invariant
            from <= pos <= to,
            pos == from || pos < to,
            *nl_index >= output@.len(),
            wrap_state(
                output@,
                e + chars@.subrange(from as int, pos as int),
                li,
                nlb,
                *nl_index as int,
            ),
            forall|i: int| 0 <= i < output@.len() ==> output@[i] < 0x80,
        decreases 2 * (to - pos) + (if *nl_index == output@.len() {
            1int
        } else {
            0int
        }),
    {
        let ghost cur = e + chars@.subrange(from as int, pos as int);
        proof {
            crate::model::lemma_wrapped_len_bound(cur, li, nlb);
        }
        let k = *nl_index - output.len();
        proof {
            assert(k < to - pos);
            // the configured line length cannot dwarf what remains plus
            // what was already emitted
            if cur.len() as int % li == 0 && cur.len() > 0 {
                if output@ == wrapped(cur, li, nlb) {
                    crate::model::lemma_mod_gap(0, cur.len() as int, li);
                }
            } else {
                if cur.len() < ll {
                    vstd::arithmetic::div_mod::lemma_small_mod(cur.len() as nat, ll as nat);
                }
            }
            assert(ll as int <= (to - pos) + cur.len());
        }
        let ghost piece = chars@.subrange(pos as int, (pos + k) as int);
        let ghost nxt = e + chars@.subrange(from as int, (pos + k) as int);
        proof {
            assert(nxt =~= cur + piece);
            crate::model::lemma_wrap_take_line(output@, cur, piece, li, nlb, *nl_index as int);
        }
        output.extend_from_slice(vstd::slice::slice_subrange(chars.as_slice(), pos, pos + k));
        newline.append_to(output);
        proof {
            assert(output@ == wrapped(nxt, li, nlb) + nlb);
            crate::model::lemma_wrapped_len_bound(nxt, li, nlb);
            assert(nxt.len() <= e.len() + (to - from));
            assert(output@.len() <= 3 * nxt.len() + 2);
        }
        *nl_index = output.len() + ll;
        pos = pos + k;
    }
    let ghost cur = e + chars@.subrange(from as int, pos as int);
    let ghost piece = chars@.subrange(pos as int, to as int);
    let ghost fin = e + chars@.subrange(from as int, to as int);
    proof {
        assert(fin =~= cur + piece);
    }
    if pos < to {
        let ghost pre = output@;
        proof {
            crate::model::lemma_wrap_take_rest(output@, cur, piece, li, nlb, *nl_index as int);
        }
        output.extend_from_slice(vstd::slice::slice_subrange(chars.as_slice(), pos, to));
        proof {
            assert(output@ == pre + piece);
            assert(output@ == wrapped(fin, li, nlb));
            assert(wrap_state(output@, fin, li, nlb, *nl_index as int));
        }
    } else {
        proof {
            assert(piece =~= Seq::<u8>::empty());
            assert(fin =~= cur);
            assert(wrap_state(output@, fin, li, nlb, *nl_index as int));
        }
    }
}

/// Encode a byte sequence with the given block encoder and group
/// unpacker.  Whatever the pair, the result is exactly `encode_model`.
#[verifier::loop_isolation(false)]
#[verifier::rlimit(100)]
#[verifier::spinoff_prover]
pub fn encode64<E: Encoder, U: Unpacker>(
    input: &[u8],
    config: Config,
    encoder: E,
    unpacker: U,
) -> (r: String)
    requires
        input@.len() <= usize::MAX as int / 16,
        match config.line_length {
            Option::Some(l) => l >= 1,
            Option::None => true,
        },
    ensures
        r@ == ascii_chars(encode_model(input@, config)),
{
    let ghost s = input@;
    let ghost cs = config.char_set;
    let ghost nlb = nl_bytes(config.newline);
    let n = input.len();
    proof {
        encoder.block_len_bounds();
        unpacker.group_in_len_bounds();
    }
    let gi = unpacker.group_in_size();
    let go = gi / 3 * 4;
    let eb = encoder.block_size();
    proof {
        vstd::arithmetic::div_mod::lemma_fundamental_div_mod(gi as int, 3);
        assert(go == gi / 3 * 4);
        vstd::arithmetic::div_mod::lemma_mod_multiples_basic(gi as int / 3, 4);
        assert((gi as int / 3) * 4 % 4 == 0);
        assert(go / 4 * 3 == gi);
        assert(4 <= go && go <= 252);
    }
    let buf_len = lcm(go, eb);
    proof {
        crate::model::lemma_group_multiple_of_4(buf_len as int, go as int);
        vstd::arithmetic::div_mod::lemma_mod_multiples_basic(buf_len as int / 4, 3);
    }
    let cap = div_roundup(n, 3);
    proof {
        vstd::arithmetic::div_mod::lemma_div_nonincreasing(n as int + 2, 3);
    }
    let mut output: Vec<u8> = Vec::with_capacity(cap * 4);
    let ll = match config.line_length {
        Option::Some(l) => l,
        Option::None => 1,
    };
    let mut next_nl: Option<usize> = config.line_length;
    let mut in_pos: usize = 0;
    proof {
        assert(s.take(0) =~= Seq::<u8>::empty());
        assert(sym_chars(Seq::<u8>::empty(), cs) =~= Seq::<u8>::empty());
        assert(wrapped(Seq::<u8>::empty(), ll as int, nlb) =~= Seq::<u8>::empty());
    }
    while in_pos < n
        invariant
            in_pos <= n,
            in_pos % 3 == 0 || in_pos == n,
            ({
                let e = sym_chars(s.take(in_pos as int), cs);
                match config.line_length {
                    Option::Some(l) => next_nl matches Option::Some(ni) && ni >= output@.len()
                        && wrap_state(output@, e, l as int, nlb, ni as int) && output@ == wrapped(
                        e,
                        l as int,
                        nlb,
                    ),
                    Option::None => next_nl is None && output@ == e,
                }
            }),
            forall|i: int| 0 <= i < output@.len() ==> output@[i] < 0x80,
        decreases n - in_pos,
    {
        let ghost e = sym_chars(s.take(in_pos as int), cs);
        // assemble one buffer's worth of 6-bit symbol values
        let mut buffer: Vec<u8> = Vec::new();
        let mut consumed: usize = 0;
        proof {
            assert(s.subrange(in_pos as int, in_pos as int) =~= Seq::<u8>::empty());
            assert(Seq::<u8>::empty() + Seq::new(0nat, |i: int| 0u8) =~= Seq::<u8>::empty());
            assert(syms_of(Seq::<u8>::empty()) =~= Seq::<u8>::empty());
        }
        while buffer.len() < buf_len
            invariant
                buffer@.len() <= buf_len,
                buffer@.len() as int % go as int == 0,
                consumed <= buffer@.len() / 4 * 3,
                in_pos + consumed <= n,
                consumed % 3 == 0 || in_pos + consumed == n,
                consumed == buffer@.len() / 4 * 3 || in_pos + consumed == n,
                buffer@.len() == 0 || consumed >= 1 || in_pos >= n,
                buffer@ == syms_of(
                    s.subrange(in_pos as int, (in_pos + consumed) as int) + Seq::new(
                        (buffer@.len() / 4 * 3 - consumed) as nat,
                        |i: int| 0u8,
                    ),
                ),
            decreases buf_len - buffer.len(),
        {
            let ghost pre_buf = buffer@;
            let ghost pre_con = consumed as int;
            let ghost rb = s.subrange(in_pos as int, in_pos + pre_con);
            let ghost zc = pre_buf.len() / 4 * 3 - pre_con;
            let mut inblock = zero_vec(gi);
            let avail = n - in_pos - consumed;
            let m = if gi < avail {
                gi
            } else {
                avail
            };
            let mut j: usize = 0;
            while j < m
                invariant
                    j <= m,
                    m <= gi,
                    m <= avail,
                    avail == n - in_pos - consumed,
                    inblock@.len() == gi,
                    forall|q: int| 0 <= q < j ==> inblock@[q] == s[in_pos + consumed + q],
                    forall|q: int| j <= q < gi ==> inblock@[q] == 0u8,
                decreases m - j,
            {
                inblock[j] = input[in_pos + consumed + j];
                j += 1;
            }
            let ghost cb = s.subrange(in_pos + pre_con, in_pos + pre_con + m as int);
            proof {
                assert(inblock@ =~= cb + Seq::new((gi - m) as nat, |i: int| 0u8));
            }
            let mut chunk = zero_vec(go);
            unpacker.unpack_block(inblock.as_slice(), &mut chunk);
            buffer.append(&mut chunk);
            consumed = consumed + m;
            proof {
                // the buffer still unpacks the consumed bytes, zero padded
                crate::model::lemma_syms_of_len(inblock@);
                assert(chunk@.len() == 0);
                crate::model::lemma_mod_gap(pre_buf.len() as int, buf_len as int, go as int);
                vstd::arithmetic::div_mod::lemma_mod_multiples_basic(pre_buf.len() as int / 4, 3);
                assert(pre_buf.len() / 4 * 3 % 3 == 0);
                crate::model::lemma_group_multiple_of_4(pre_buf.len() as int, go as int);
                assert(buffer@.len() == pre_buf.len() + go);
                crate::model::lemma_div_add_exact(pre_buf.len() as int, go as int, 4);
                assert(buffer@.len() as int / 4 == pre_buf.len() as int / 4 + go as int / 4);
                assert(buffer@.len() / 4 * 3 - consumed == zc + (gi - m));
                crate::model::lemma_mod_offset(pre_buf.len() as int, go as int, go as int);
                vstd::arithmetic::div_mod::lemma_mod_multiples_basic(1, go as int);
                let rbn = s.subrange(in_pos as int, in_pos + pre_con + m as int);
                let zn = Seq::new((buffer@.len() / 4 * 3 - consumed) as nat, |i: int| 0u8);
                if zc == 0 {
                    assert(rb.len() % 3 == 0);
                    assert(rb + Seq::new(0nat, |i: int| 0u8) =~= rb);
                    crate::model::lemma_syms_of_concat(rb, inblock@);
                    assert(rb + inblock@ =~= rbn + zn);
                    assert(buffer@ =~= syms_of(rbn + zn));
                } else {
                    assert(in_pos + pre_con == n);
                    assert(m == 0);
                    assert(cb =~= Seq::<u8>::empty());
                    assert(inblock@ =~= Seq::new(gi as nat, |i: int| 0u8));
                    let old_pad = rb + Seq::new(zc as nat, |i: int| 0u8);
                    assert(old_pad.len() % 3 == 0);
                    crate::model::lemma_syms_of_concat(old_pad, inblock@);
                    assert(old_pad + inblock@ =~= rbn + zn);
                    assert(buffer@ =~= syms_of(rbn + zn));
                }
            }
        }
        let ghost rb = s.subrange(in_pos as int, (in_pos + consumed) as int);
        let ghost zc = (buf_len / 4 * 3 - consumed) as int;
        let ghost padded = rb + Seq::new(zc as nat, |i: int| 0u8);
        let ghost presyms = buffer@;
        proof {
            assert(consumed >= 1);
            crate::model::lemma_syms_of_bounds(padded);
        }
        // encode the whole buffer, block by block
        let mut bpos: usize = 0;
        while bpos < buf_len
            invariant
                bpos <= buf_len,
                bpos as int % eb as int == 0,
                buffer@.len() == buf_len,
                forall|q: int| 0 <= q < bpos ==> buffer@[q] == sym_char(presyms[q], cs),
                forall|q: int| bpos <= q < buf_len ==> buffer@[q] == presyms[q],
            decreases buf_len - bpos,
        {
            proof {
                crate::model::lemma_mod_gap(bpos as int, buf_len as int, eb as int);
            }
            let mut block = copy_range(&buffer, bpos, bpos + eb);
            proof {
                assert(forall|q: int| 0 <= q < eb ==> block@[q] == presyms[bpos + q]);
            }
            encoder.encode_block(&mut block, config.char_set);
            write_back(&mut buffer, bpos, &block);
            proof {
                crate::model::lemma_mod_offset(bpos as int, eb as int, eb as int);
                vstd::arithmetic::div_mod::lemma_mod_multiples_basic(1, eb as int);
                assert forall|q: int|
                    0 <= q < bpos + eb implies buffer@[q] == sym_char(presyms[q], cs) by {
                    if q >= bpos {
                        assert(buffer@[bpos + (q - bpos)] == block@[q - bpos]);
                    }
                }
            }
            bpos += eb;
        }
        // hand the produced characters to the output
        let prod = div_roundup(consumed * 4, 3);
        let ghost nc = sym_chars(rb, cs);
        proof {
            crate::model::lemma_syms_zero_pad(rb, Seq::new(zc as nat, |i: int| 0u8));
            crate::model::lemma_syms_of_len(rb);
            assert(prod as int == (4 * rb.len() as int + 2) / 3);
            vstd::arithmetic::div_mod::lemma_div_is_ordered(
                4 * consumed as int + 2,
                3 * buf_len as int + 2,
                3,
            );
            assert((3 * buf_len as int + 2) / 3 == buf_len as int) by (nonlinear_arith);
            assert(prod <= buf_len);
            assert(syms_of(padded).take(prod as int) == syms_of(rb));
            assert(buffer@.take(prod as int) =~= nc);
            // the emitted characters extend the encoded prefix
            crate::model::lemma_syms_of_concat(s.take(in_pos as int), rb);
            assert(s.take(in_pos as int) + rb =~= s.take(in_pos + consumed as int));
            assert(e + nc =~= sym_chars(s.take(in_pos + consumed as int), cs));
            crate::model::lemma_sym_chars_facts(s.take(in_pos + consumed as int), cs);
            crate::model::lemma_sym_chars_facts(rb, cs);
            crate::model::lemma_sym_chars_facts(s.take(in_pos as int), cs);
            vstd::arithmetic::div_mod::lemma_div_is_ordered(
                4 * (in_pos + consumed as int) + 2,
                4 * n as int + 2,
                3,
            );
        }
        match next_nl {
            Option::Some(nl0) => {
                let mut nl_index = nl0;
                emit_wrapped(
                    &mut output,
                    &buffer,
                    0,
                    prod,
                    &mut nl_index,
                    ll,
                    config.newline,
                    Ghost(e),
                );
                next_nl = Option::Some(nl_index);
                proof {
                    assert(e + buffer@.subrange(0, prod as int) =~= sym_chars(
                        s.take(in_pos + consumed as int),
                        cs,
                    ));
                }
            },
            Option::None => {
                output.extend_from_slice(
                    vstd::slice::slice_subrange(buffer.as_slice(), 0, prod),
                );
                proof {
                    assert(output@ =~= sym_chars(s.take(in_pos + consumed as int), cs));
                }
            },
        }
        in_pos = in_pos + consumed;
    }
    proof {
        assert(s.take(n as int) =~= s);
    }
    let ghost efull = sym_chars(s, cs);
    if config.pad {
        let t_len: usize = match n % 3 {
            1 => 2,
            2 => 1,
            _ => 0,
        };
        proof {
            assert(t_len as int == pad_len(n as int));
        }
        let mut padv: Vec<u8> = Vec::new();
        let mut i: usize = 0;
        while i < t_len
            invariant
                i <= t_len,
                padv@.len() == i,
                forall|q: int| 0 <= q < i ==> padv@[q] == PAD_BYTE,
            decreases t_len - i,
        {
            padv.push(PAD_BYTE);
            i += 1;
        }
        proof {
            assert(padv@.subrange(0, t_len as int) =~= padv@);
            crate::model::lemma_encoded_chars_split(s, cs, padv@);
            crate::model::lemma_sym_chars_facts(s, cs);
        }
        if t_len > 0 {
            match next_nl {
                Option::Some(nl0) => {
                    let mut nl_index = nl0;
                    emit_wrapped(
                        &mut output,
                        &padv,
                        0,
                        t_len,
                        &mut nl_index,
                        ll,
                        config.newline,
                        Ghost(efull),
                    );
                    next_nl = Option::Some(nl_index);
                    proof {
                        assert(efull + padv@.subrange(0, t_len as int) == encoded_chars(
                            s,
                            cs,
                            true,
                        ));
                    }
                },
                Option::None => {
                    output.extend_from_slice(
                        vstd::slice::slice_subrange(padv.as_slice(), 0, t_len),
                    );
                    proof {
                        assert(output@ =~= encoded_chars(s, cs, true));
                    }
                },
            }
        } else {
            proof {
                assert(encoded_chars(s, cs, true) == efull + padv@);
                assert(efull + padv@ =~= efull);
            }
        }
    } else {
        proof {
            crate::model::lemma_encoded_chars_split(s, cs, Seq::new(
                pad_len(n as int) as nat,
                |q: int| PAD_BYTE,
            ));
        }
    }
    proof {
        match config.line_length {
            Option::Some(l) => {
                assert(output@ == wrapped(
                    encoded_chars(s, cs, config.pad),
                    l as int,
                    nlb,
                ));
            },
            Option::None => {
                assert(output@ == encoded_chars(s, cs, config.pad));
            },
        }
    }
    ascii_string(output)
}

/// Encode with the default implementation pair: the wide blocked encoder
/// and unpacker.  The scalar pair meets the same contract and is
/// interchangeable.
pub fn encode64_arch(input: &[u8], config: Config) -> (r: String)
    requires
        input@.len() <= usize::MAX as int / 16,
        match config.line_length {
            Option::Some(l) => l >= 1,
            Option::None => true,
        },
    ensures
        r@ == ascii_chars(encode_model(input@, config)),
{
    encode64(input, config, wide::Wide, wide::Wide)
}

} // verus!
