//! Decoding: block decoders, the streaming assembler, and the driver.
pub mod lut_align64;
pub mod wide;

use vstd::prelude::*;
use crate::model::{
    decode_model, decoded_bytes, first_hard, first_nonspace, is_hard, is_space, is_symbol, run,
    sym_vals, tail_trailer,
};

verus! {

/// Errors that can occur when decoding a base64 encoded string.
#[derive(Debug, Clone, Copy, PartialEq, Eq, Structural)]
pub enum Error {
    /// The input had an invalid length.
    InvalidLength,
    /// A trailer was found, but it wasn't the right length.
    InvalidTrailer,
    /// The input contained a character (at the given index) not part of the
    /// base64 format.
    InvalidCharacter(usize),
}

impl Error {
    /// A short description of the error, mirroring its debug form.
    pub fn describe(&self) -> (r: &'static str)
        ensures
            r@ == match self {
                Error::InvalidLength => "InvalidLength"@,
                Error::InvalidTrailer => "InvalidTrailer"@,
                Error::InvalidCharacter(_) => "InvalidCharacter"@,
            },
    {
        match self {
            Error::InvalidLength => "InvalidLength",
            Error::InvalidTrailer => "InvalidTrailer",
            Error::InvalidCharacter(_) => "InvalidCharacter",
        }
    }
}

/// What one block decode reports: how many symbol values the block held,
/// and where its first hard (neither symbol nor whitespace) byte sits.
#[must_use]
pub struct BlockResult {
    /// Count of bytes in this block that are valid non-whitespace symbols.
    pub out_length: u8,
    /// Index of the first byte that is neither a symbol nor whitespace.
    pub first_invalid: Option<u8>,
}

/// A block decoder: classifies every byte of a fixed-size block and
/// compacts the symbol values to the block's front.
pub trait Decoder: Sized {
    /// The block size this decoder works on.
    spec fn block_len(&self) -> int;

    proof fn block_len_bounds(&self)
        ensures
            1 <= self.block_len() <= 255,
    ;

    /// The block size, for the driver's chunking.
    fn block_size(&self) -> (n: usize)
        ensures
            n as int == self.block_len(),
    ;

    /// A fresh block filled with the ASCII space sentinel, so that the
    /// unfilled tail of a short final chunk is never reported invalid.
    fn zero_block(&self) -> (b: Vec<u8>)
        ensures
            b@.len() == self.block_len(),
            forall|i: int| 0 <= i < b@.len() ==> b@[i] == 0x20u8,
    ;

    /// Decode one block in place: afterwards the first `out_length` bytes
    /// are the 6-bit values of the block's symbol bytes, in order.
    fn decode_block(&self, block: &mut Vec<u8>) -> (r: BlockResult)
        requires
            old(block)@.len() == self.block_len(),
        ensures
            final(block)@.len() == old(block)@.len(),
            r.out_length as int == sym_vals(old(block)@).len(),
            final(block)@.subrange(0, r.out_length as int) == sym_vals(old(block)@),
            match r.first_invalid {
                Option::Some(i) => first_hard(old(block)@, 0) == Option::Some(i as int),
                Option::None => first_hard(old(block)@, 0) is None,
            },
    ;
}

/// A group packer: turns a full group of 6-bit values into packed bytes,
/// three per four symbols.
pub trait Packer: Sized {
    /// The group size this packer consumes, a multiple of four.
    spec fn group_len(&self) -> int;

    proof fn group_len_bounds(&self)
        ensures
            4 <= self.group_len() <= 255,
            self.group_len() % 4 == 0,
    ;

    /// The group size, for the assembler's buffer.
    fn group_size(&self) -> (n: usize)
        ensures
            n as int == self.group_len(),
    ;

    /// A zeroed group buffer.
    fn make_group(&self) -> (g: Vec<u8>)
        ensures
            g@.len() == self.group_len(),
            forall|i: int| 0 <= i < g@.len() ==> g@[i] == 0u8,
    ;

    /// Append the packed bytes of one full group to `out`.
    fn pack_block(&self, input: &Vec<u8>, out: &mut Vec<u8>)
        requires
            input@.len() == self.group_len(),
            forall|i: int| 0 <= i < input@.len() ==> input@[i] < 64,
        ensures
            final(out)@ == old(out)@ + decoded_bytes(input@),
    ;
}

/// The plain packer: one group of four symbols to three bytes by shifts
/// and ors.
#[derive(Clone, Copy)]
pub struct Simple;

impl Packer for Simple {
    open spec fn group_len(&self) -> int {
        4
    }

    proof fn group_len_bounds(&self) {
    }

    fn group_size(&self) -> (n: usize) {
        4
    }

    fn make_group(&self) -> (g: Vec<u8>) {
        let mut g: Vec<u8> = Vec::new();
        g.push(0);
        g.push(0);
        g.push(0);
        g.push(0);
        g
    }

    fn pack_block(&self, input: &Vec<u8>, out: &mut Vec<u8>) {
        let s0 = input[0];
        let s1 = input[1];
        let s2 = input[2];
        let s3 = input[3];
        out.push((s0 << 2) | (s1 >> 4));
        out.push((s1 << 4) | (s2 >> 2));
        out.push((s2 << 6) | s3);
        proof {
            assert(forall|a: u8, b: u8|
                a < 64 && b < 64 ==> ((a << 2) | (b >> 4)) == (a % 64) * 4 + (b % 64) / 16)
                by (bit_vector);
            assert(forall|a: u8, b: u8|
                a < 64 && b < 64 ==> ((a << 4) | (b >> 2)) == (a % 16) * 16 + (b % 64) / 4)
                by (bit_vector);
            assert(forall|a: u8, b: u8|
                a < 64 && b < 64 ==> ((a << 6) | b) == (a % 4) * 64 + b % 64) by (bit_vector);
            assert(input@.skip(4) =~= Seq::<u8>::empty());
            assert(decoded_bytes(Seq::<u8>::empty()) =~= Seq::<u8>::empty());
            assert(out@ =~= old(out)@ + decoded_bytes(input@));
        }
    }
}

/// The streaming assembler: buffers symbol values until a full group is
/// ready, then packs it onto the output.  The ghost `hist` records every
/// symbol value ever fed in.
pub struct PackState<P: Packer> {
    pub packer: P,
    pub cache: Vec<u8>,
    pub pos: usize,
    pub hist: Ghost<Seq<u8>>,
}

impl<P: Packer> PackState<P> {
    /// The group-buffer invariant: the cache's prefix holds exactly the
    /// symbols that have not yet been packed.
    pub open spec fn wf(&self) -> bool {
        &&& self.cache@.len() == self.packer.group_len()
        &&& 0 <= self.pos < self.packer.group_len()
        &&& self.pos as int == self.hist@.len() as int % self.packer.group_len()
        &&& self.pos as int <= self.hist@.len()
        &&& self.cache@.subrange(0, self.pos as int) == self.hist@.subrange(
            self.hist@.len() - self.pos,
            self.hist@.len() as int,
        )
        &&& forall|i: int| 0 <= i < self.cache@.len() ==> self.cache@[i] < 64
        &&& forall|i: int| 0 <= i < self.hist@.len() ==> self.hist@[i] < 64
    }

    /// How many of the fed symbols have been packed onto the output.
    pub open spec fn done_len(&self) -> int {
        self.hist@.len() - self.pos
    }

    /// Feed symbol values, packing each group as it fills.
    #[verifier::rlimit(60)]
    pub fn extend(&mut self, input: &[u8], out: &mut Vec<u8>)
        requires
            old(self).wf(),
            forall|i: int| 0 <= i < input@.len() ==> input@[i] < 64,
            old(out)@ == decoded_bytes(old(self).hist@.subrange(0, old(self).done_len())),
        ensures
            final(self).wf(),
            final(self).packer == old(self).packer,
            final(self).hist@ == old(self).hist@ + input@,
            final(out)@ == decoded_bytes(final(self).hist@.subrange(0, final(self).done_len())),
    {
        proof {
            self.packer.group_len_bounds();
        }
        let g = self.packer.group_size();
        let mut k: usize = 0;
        while k < input.len()
            invariant
                self.wf(),
                self.packer == old(self).packer,
                g as int == self.packer.group_len(),
                k <= input.len(),
                forall|i: int| 0 <= i < input@.len() ==> input@[i] < 64,
                self.hist@ == old(self).hist@ + input@.subrange(0, k as int),
                out@ == decoded_bytes(self.hist@.subrange(0, self.done_len())),
            decreases input.len() - k,
        {
            let b = input[k];
            let p = self.pos;
            let ghost pre_cache = self.cache@;
            let ghost pre_hist = self.hist@;
            self.cache[p] = b;
            self.pos = p + 1;
            self.hist = Ghost(self.hist@.push(b));
            proof {
                let gi = g as int;
                self.packer.group_len_bounds();
                vstd::arithmetic::div_mod::lemma_add_mod_noop(pre_hist.len() as int, 1, gi);
                vstd::arithmetic::div_mod::lemma_small_mod(1nat, g as nat);
                if p + 1 == g {
                    vstd::arithmetic::div_mod::lemma_mod_multiples_basic(1, gi);
                } else {
                    vstd::arithmetic::div_mod::lemma_small_mod((p + 1) as nat, g as nat);
                }
                assert(self.hist@.len() as int % gi == p + 1 || (p + 1 == g
                    && self.hist@.len() as int % gi == 0));
                assert(self.cache@ =~= pre_cache.update(p as int, b));
                assert(self.hist@.subrange(self.hist@.len() - (p + 1), self.hist@.len() as int)
                    =~= pre_hist.subrange(pre_hist.len() - p, pre_hist.len() as int).push(b));
                assert(self.cache@.subrange(0, p + 1) =~= pre_cache.subrange(0, p as int).push(b));
                assert(self.hist@.subrange(0, self.hist@.len() - (p + 1)) =~= pre_hist.subrange(
                    0,
                    pre_hist.len() - p,
                ));
                assert(self.hist@ =~= old(self).hist@ + input@.subrange(0, k + 1));
            }
            if self.pos == g {
                let ghost filled = self.hist@;
                let ghost done = filled.len() - g;
                proof {
                    vstd::arithmetic::div_mod::lemma_mod_sub_multiples_vanish(
                        filled.len() as int,
                        g as int,
                    );
                    crate::model::lemma_group_multiple_of_4(done, g as int);
                    assert(self.cache@ =~= self.cache@.subrange(0, g as int));
                    assert(self.cache@ == filled.subrange(done, filled.len() as int));
                    assert(filled.subrange(0, done) =~= pre_hist.subrange(0, done));
                    crate::model::lemma_decoded_concat(
                        filled.subrange(0, done),
                        filled.subrange(done, filled.len() as int),
                    );
                    assert(filled.subrange(0, done) + filled.subrange(done, filled.len() as int)
                        =~= filled);
                }
                self.packer.pack_block(&self.cache, out);
                self.pos = 0;
                proof {
                    assert(self.cache@.subrange(0, 0) =~= self.hist@.subrange(
                        self.hist@.len() as int,
                        self.hist@.len() as int,
                    ));
                    assert(self.hist@.subrange(0, self.done_len()) =~= self.hist@);
                }
            }
            k += 1;
        }
        proof {
            assert(input@.subrange(0, input@.len() as int) =~= input@);
        }
    }

    /// Close the stream: reject a leftover count of 1 modulo 4, check a
    /// resolved trailer against the buffered count, and pack what remains.
    #[verifier::rlimit(100)]
    #[verifier::spinoff_prover]
    pub fn flush(&mut self, out: &mut Vec<u8>, trailer_length: Option<usize>) -> (r: Result<
        (),
        Error,
    >)
        requires
            old(self).wf(),
            old(out)@ == decoded_bytes(old(self).hist@.subrange(0, old(self).done_len())),
            match trailer_length {
                Option::Some(t) => t <= 2,
                Option::None => true,
            },
        ensures
            match r {
                Result::Ok(()) => {
                    &&& old(self).hist@.len() % 4 != 1
                    &&& match trailer_length {
                        Option::Some(t) => (old(self).hist@.len() + t) % 4 == 0,
                        Option::None => true,
                    }
                    &&& final(out)@ == decoded_bytes(old(self).hist@)
                },
                Result::Err(e) => final(out)@ == old(out)@ && match e {
                    Error::InvalidLength => old(self).hist@.len() % 4 == 1,
                    Error::InvalidTrailer => {
                        &&& old(self).hist@.len() % 4 != 1
                        &&& match trailer_length {
                            Option::Some(t) => (old(self).hist@.len() + t) % 4 != 0,
                            Option::None => false,
                        }
                    },
                    Error::InvalidCharacter(_) => false,
                },
            },
    {
        proof {
            self.packer.group_len_bounds();
            let g = self.packer.group_len();
            let done = self.done_len();
            vstd::arithmetic::div_mod::lemma_mod_multiples_basic(
                self.hist@.len() as int / g,
                g,
            );
            vstd::arithmetic::div_mod::lemma_fundamental_div_mod(self.hist@.len() as int, g);
            assert(done == (self.hist@.len() as int / g) * g);
            crate::model::lemma_group_multiple_of_4(done, g);
            crate::model::lemma_mod4_offset(done, self.pos as int);
        }
        if self.pos % 4 == 1 {
            return Result::Err(Error::InvalidLength);
        }
        if let Option::Some(t) = trailer_length {
            if (self.pos + t) % 4 != 0 {
                return Result::Err(Error::InvalidTrailer);
            }
        }
        let p = self.pos;
        let ghost pre_cache = self.cache@;
        let ghost hist = self.hist@;
        self.cache[p] = 0;
        let done = out.len();
        proof {
            assert(self.cache@ =~= pre_cache.update(p as int, 0u8));
        }
        self.packer.pack_block(&self.cache, out);
        proof {
            let cachev = self.cache@;
            crate::model::lemma_decoded_len(cachev);
            vstd::arithmetic::div_mod::lemma_div_is_ordered(
                3 * (p as int),
                3 * self.packer.group_len(),
                4,
            );
            assert(out@.len() == done + 3 * self.packer.group_len() / 4);
        }
        let cur = out.len();
        let keep = p * 3 / 4;
        proof {
            assert(done + keep <= cur);
        }
        out.truncate(done + keep);
        proof {
            let cachev = self.cache@;
            crate::model::lemma_decoded_take(cachev, p as int);
            crate::model::lemma_decoded_len(cachev);
            assert(cachev.take(p as int) =~= hist.subrange(hist.len() - p, hist.len() as int));
            crate::model::lemma_decoded_concat(
                hist.subrange(0, hist.len() - p),
                hist.subrange(hist.len() - p, hist.len() as int),
            );
            assert(hist.subrange(0, hist.len() - p) + hist.subrange(hist.len() - p, hist.len() as int)
                =~= hist);
            assert(out@ =~= decoded_bytes(hist));
        }
        Result::Ok(())
    }
}

/// True exactly on the decoder's whitespace bytes.
fn is_space_byte(b: u8) -> (r: bool)
    ensures
        r == is_space(b),
{
    b == 0x20 || b == 0x09 || b == 0x0a || b == 0x0c || b == 0x0d
}

/// Index of the first non-whitespace byte at or after `from`, or the
/// input's length when only whitespace remains.
fn find_nonspace(input: &[u8], from: usize) -> (r: usize)
    requires
        from <= input@.len(),
    ensures
        from <= r <= input@.len(),
        r as int == match first_nonspace(input@, from as int) {
            Option::Some(j) => j,
            Option::None => input@.len() as int,
        },
        r < input@.len() ==> first_nonspace(input@, from as int) == Option::Some(r as int),
        r == input@.len() ==> first_nonspace(input@, from as int) is None,
{
    let n = input.len();
    let mut j = from;
    while j < n
        invariant
            from <= j <= n,
            n == input@.len(),
            forall|m: int| from <= m < j ==> is_space(input@[m]),
        decreases n - j,
    {
        if !is_space_byte(input[j]) {
            proof {
                crate::model::lemma_first_nonspace_unique(input@, from as int, j as int);
            }
            return j;
        }
        j += 1;
    }
    proof {
        crate::model::lemma_first_nonspace_none(input@, from as int);
    }
    n
}

/// Resolve a trailer that began with a `=` just before `start`: scan the
/// rest of the input, skipping whitespace, for at most one further `=`.
fn scan_trailer(input: &[u8], start: usize) -> (r: Result<usize, usize>)
    requires
        start <= input@.len(),
    ensures
        match r {
            Result::Ok(t) => 1 <= t <= 2 && tail_trailer(input@, start as int) == Result::<
                int,
                int,
            >::Ok(t as int),
            Result::Err(k) => k < input@.len() && tail_trailer(input@, start as int) == Result::<
                int,
                int,
            >::Err(k as int),
        },
{
    let n = input.len();
    let j1 = find_nonspace(input, start);
    if j1 == n {
        return Result::Ok(1);
    }
    if input[j1] != 0x3d {
        return Result::Err(j1);
    }
    let j2 = find_nonspace(input, j1 + 1);
    if j2 == n {
        return Result::Ok(2);
    }
    Result::Err(j2)
}

/// Decode a base64 byte sequence with the given block decoder and group
/// packer.  Whatever the pair, the result is exactly `decode_model`.
#[verifier::rlimit(100)]
#[verifier::spinoff_prover]
pub fn decode64<D: Decoder, P: Packer>(input: &[u8], decoder: D, packer: P) -> (r: Result<
    Vec<u8>,
    Error,
>)
    ensures
        match r {
            Result::Ok(v) => decode_model(input@) == Result::<Seq<u8>, Error>::Ok(v@),
            Result::Err(e) => decode_model(input@) == Result::<Seq<u8>, Error>::Err(e),
        },
{
    let ghost s = input@;
    if input.len() == 0 {
        let v: Vec<u8> = Vec::new();
        return Result::Ok(v);
    }
    proof {
        decoder.block_len_bounds();
        packer.group_len_bounds();
    }
    let bl = decoder.block_size();
    let mut out: Vec<u8> = Vec::with_capacity(input.len() / 4 * 3 + 3);
    let cache = packer.make_group();
    let mut ps = PackState::<P> { packer, cache, pos: 0, hist: Ghost(Seq::empty()) };
    proof {
        assert(ps.cache@.subrange(0, 0) =~= ps.hist@.subrange(0, 0));
        assert(ps.hist@.subrange(0, 0) =~= Seq::<u8>::empty());
    }
    let n = input.len();
    let mut chunk_start: usize = 0;
    let mut trailer: Option<usize> = Option::None;
    while chunk_start < n && trailer.is_none()
        invariant
            n == s.len(),
            s == input@,
            chunk_start <= n,
            bl as int == decoder.block_len(),
            1 <= bl,
            ps.wf(),
            ps.packer == packer,
            out@ == decoded_bytes(ps.hist@.subrange(0, ps.done_len())),
            match trailer {
                Option::None => run(s.take(chunk_start as int)) == Result::<
                    (Seq<u8>, Option<int>),
                    int,
                >::Ok((ps.hist@, Option::<int>::None)),
                Option::Some(t) => t <= 2 && run(s) == Result::<(Seq<u8>, Option<int>), int>::Ok(
                    (ps.hist@, Option::Some(t as int)),
                ),
            },
        decreases n - chunk_start,
    {
        let rem = n - chunk_start;
        let take_n = if rem < bl {
            rem
        } else {
            bl
        };
        let end = chunk_start + take_n;
        let mut block = decoder.zero_block();
        let mut j: usize = 0;
        while j < take_n
            invariant
                j <= take_n,
                chunk_start + take_n <= n,
                n == input@.len(),
                block@.len() == bl,
                take_n <= bl,
                forall|m: int| 0 <= m < j ==> block@[m] == input@[chunk_start + m],
                forall|m: int| j <= m < bl ==> block@[m] == 0x20u8,
            decreases take_n - j,
        {
            block[j] = input[chunk_start + j];
            j += 1;
        }
        let ghost padded = block@;
        let ghost chunk = s.subrange(chunk_start as int, end as int);
        proof {
            assert(forall|m: int| 0 <= m < take_n ==> padded[m] == chunk[m]);
            assert(forall|m: int| take_n <= m < bl ==> padded[m] == 0x20u8 && !is_hard(padded[m])
                && !is_symbol(padded[m]));
        }
        let res = decoder.decode_block(&mut block);
        proof {
            crate::model::lemma_sym_vals_bounds(padded);
        }
        match res.first_invalid {
            Option::None => {
                proof {
                    crate::model::lemma_first_hard_charac(padded, 0);
                    assert forall|m: int| chunk_start <= m < end implies !is_hard(s[m]) by {
                        assert(padded[m - chunk_start] == s[m]);
                        assert(!is_hard(padded[m - chunk_start]));
                    }
                    crate::model::lemma_run_soft_span(s, chunk_start as int, end as int, ps.hist@);
                    // the padding spaces hold no symbols
                    assert(padded =~= chunk + padded.subrange(take_n as int, bl as int));
                    crate::model::lemma_sym_vals_concat(
                        chunk,
                        padded.subrange(take_n as int, bl as int),
                    );
                    crate::model::lemma_sym_vals_none(padded.subrange(take_n as int, bl as int));
                    assert(sym_vals(padded) =~= sym_vals(chunk));
                }
                let m = res.out_length as usize;
                let piece = vstd::slice::slice_subrange(block.as_slice(), 0, m);
                ps.extend(piece, &mut out);
            },
            Option::Some(idx8) => {
                let idx = idx8 as usize;
                proof {
                    crate::model::lemma_first_hard_charac(padded, 0);
                }
                let p = chunk_start + idx;
                proof {
                    assert(idx < take_n);
                    assert(s[p as int] == padded[idx as int]);
                    assert forall|m: int| chunk_start <= m < p implies !is_hard(s[m]) by {
                        assert(padded[m - chunk_start] == s[m]);
                        assert(!is_hard(padded[m - chunk_start]));
                    }
                    crate::model::lemma_run_soft_span(s, chunk_start as int, p as int, ps.hist@);
                    crate::model::lemma_run_take_succ(s, p as int);
                }
                let ghost sy1 = ps.hist@ + sym_vals(s.subrange(chunk_start as int, p as int));
                if input[p] == 0x3d {
                    match scan_trailer(input, p + 1) {
                        Result::Ok(t) => {
                            proof {
                                crate::model::lemma_run_tail_trailer(s, p + 1, sy1);
                            }
                            let m = res.out_length as usize;
                            proof {
                                // everything after the `=` holds no symbols, so the
                                // block's compacted output is the pre-`=` symbols
                                crate::model::lemma_first_nonspace_charac(s, p + 1);
                                if tail_trailer(s, p + 1) matches Result::Ok(tt) && tt == 2 {
                                    let j = first_nonspace(s, p + 1)->Some_0;
                                    crate::model::lemma_first_nonspace_charac(s, j + 1);
                                }
                                assert(forall|m2: int| p < m2 < n ==> !is_symbol(s[m2]));
                                assert(padded =~= padded.subrange(0, idx as int) + padded.subrange(
                                    idx as int,
                                    bl as int,
                                ));
                                crate::model::lemma_sym_vals_concat(
                                    padded.subrange(0, idx as int),
                                    padded.subrange(idx as int, bl as int),
                                );
                                assert(forall|m2: int| 0 <= m2 < bl - idx ==> !is_symbol(
                                    padded.subrange(idx as int, bl as int)[m2],
                                ));
                                crate::model::lemma_sym_vals_none(
                                    padded.subrange(idx as int, bl as int),
                                );
                                assert(padded.subrange(0, idx as int) =~= s.subrange(
                                    chunk_start as int,
                                    p as int,
                                ));
                                assert(sym_vals(padded) =~= sym_vals(
                                    s.subrange(chunk_start as int, p as int),
                                ));
                            }
                            let piece = vstd::slice::slice_subrange(block.as_slice(), 0, m);
                            ps.extend(piece, &mut out);
                            trailer = Option::Some(t);
                        },
                        Result::Err(k) => {
                            proof {
                                crate::model::lemma_run_tail_trailer(s, p + 1, sy1);
                            }
                            return Result::Err(Error::InvalidCharacter(k));
                        },
                    }
                } else {
                    proof {
                        crate::model::lemma_run_err_absorb(s, p + 1, p as int);
                    }
                    return Result::Err(Error::InvalidCharacter(p));
                }
            },
        }
        chunk_start = end;
    }
    proof {
        if trailer is None {
            assert(s.take(n as int) =~= s);
        }
    }
    match ps.flush(&mut out, trailer) {
        Result::Ok(()) => Result::Ok(out),
        Result::Err(e) => Result::Err(e),
    }
}

/// Decode with the default implementation pair: the wide blocked decoder
/// and packer.  The scalar pair meets the same contract and is
/// interchangeable.
pub fn decode64_arch(input: &[u8]) -> (r: Result<Vec<u8>, Error>)
    ensures
        match r {
            Result::Ok(v) => decode_model(input@) == Result::<Seq<u8>, Error>::Ok(v@),
            Result::Err(e) => decode_model(input@) == Result::<Seq<u8>, Error>::Err(e),
        },
{
    decode64(input, wide::Wide, wide::Wide)
}

} // verus!
