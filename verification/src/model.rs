//! Mathematical model of the base64 wire format.
//!
//! Every executable function of the crate is specified against the
//! definitions in this module: the byte classification shared by both
//! decoder implementations, the decoder's whitespace/trailer state machine
//! (`run`), the 6-bit group packing (`decoded_bytes`) and unpacking
//! (`syms_of`), and the encoder's output shape (`encode_model`).
use vstd::prelude::*;
use crate::decode::Error;
use crate::CharacterSet;
use crate::Newline;
use crate::Config;

verus! {

/// The padding character `=`.
pub const PAD_BYTE: u8 = 0x3d;

// ---------------------------------------------------------------------
// Byte classification
// ---------------------------------------------------------------------

/// The ASCII whitespace bytes the decoder skips: space, tab, LF, FF, CR.
pub open spec fn is_space(b: u8) -> bool {
    b == 0x20 || b == 0x09 || b == 0x0a || b == 0x0c || b == 0x0d
}

/// The bytes that carry a 6-bit value: both alphabets are accepted at
/// once, so `+`/`-` and `/`/`_` are all symbols.
pub open spec fn is_symbol(b: u8) -> bool {
    (0x41 <= b && b <= 0x5a)  // 'A'..'Z'
    || (0x61 <= b && b <= 0x7a)  // 'a'..'z'
    || (0x30 <= b && b <= 0x39)  // '0'..'9'
    || b == 0x2b || b == 0x2f  // '+' '/'
    || b == 0x2d || b == 0x5f  // '-' '_'
}

/// A byte that is neither a symbol nor whitespace stops the scanner.
pub open spec fn is_hard(b: u8) -> bool {
    !is_symbol(b) && !is_space(b)
}

/// The 6-bit value of a symbol byte.
pub open spec fn sym_value(b: u8) -> u8
    recommends
        is_symbol(b),
{
    if 0x41 <= b && b <= 0x5a {
        (b - 0x41) as u8
    } else if 0x61 <= b && b <= 0x7a {
        (b - 0x47) as u8
    } else if 0x30 <= b && b <= 0x39 {
        (b + 4) as u8
    } else if b == 0x2b || b == 0x2d {
        62u8
    } else {
        63u8
    }
}

/// The 6-bit values of the symbol bytes of `s`, in order, whitespace and
/// anything else dropped.
pub open spec fn sym_vals(s: Seq<u8>) -> Seq<u8>
    decreases s.len(),
{
    if s.len() == 0 {
        Seq::empty()
    } else {
        let front = sym_vals(s.drop_last());
        if is_symbol(s.last()) {
            front.push(sym_value(s.last()))
        } else {
            front
        }
    }
}

/// Index of the first hard byte of `s` at or after `i`, if any.
pub open spec fn first_hard(s: Seq<u8>, i: int) -> Option<int>
    decreases s.len() - i,
{
    if i < 0 || i >= s.len() {
        Option::None
    } else if is_hard(s[i]) {
        Option::Some(i)
    } else {
        first_hard(s, i + 1)
    }
}

/// Index of the first non-whitespace byte of `s` at or after `i`, if any.
pub open spec fn first_nonspace(s: Seq<u8>, i: int) -> Option<int>
    decreases s.len() - i,
{
    if i < 0 || i >= s.len() {
        Option::None
    } else if is_space(s[i]) {
        first_nonspace(s, i + 1)
    } else {
        Option::Some(i)
    }
}

// ---------------------------------------------------------------------
// The decoder's state machine
// ---------------------------------------------------------------------
//
// A scanner state is `Ok((syms, trailer))` — the 6-bit values seen so far
// and, once a `=` has been met, `Some(trailer length)` — or `Err(i)`, the
// index of the byte that made the input invalid.

/// One step of the scanner on byte `x` at absolute position `pos`.
pub open spec fn step(
    st: Result<(Seq<u8>, Option<int>), int>,
    x: u8,
    pos: int,
) -> Result<(Seq<u8>, Option<int>), int> {
    match st {
        Result::Err(i) => Result::Err(i),
        Result::Ok((sy, t)) => {
            if is_space(x) {
                st
            } else {
                match t {
                    Option::None => {
                        if is_symbol(x) {
                            Result::Ok((sy.push(sym_value(x)), Option::None))
                        } else if x == PAD_BYTE {
                            Result::Ok((sy, Option::Some(1int)))
                        } else {
                            Result::Err(pos)
                        }
                    },
                    Option::Some(n) => {
                        if x == PAD_BYTE && n == 1 {
                            Result::Ok((sy, Option::Some(2int)))
                        } else {
                            Result::Err(pos)
                        }
                    },
                }
            }
        },
    }
}

/// The scanner's state after reading all of `s`.
pub open spec fn run(s: Seq<u8>) -> Result<(Seq<u8>, Option<int>), int>
    decreases s.len(),
{
    if s.len() == 0 {
        Result::Ok((Seq::empty(), Option::None))
    } else {
        step(run(s.drop_last()), s.last(), s.len() - 1)
    }
}

// ---------------------------------------------------------------------
// Bit packing: 6-bit symbol values to 8-bit bytes and back
// ---------------------------------------------------------------------

/// First packed byte of a group: all of symbol 0, top 2 bits of symbol 1.
pub open spec fn join_b0(a: u8, b: u8) -> u8 {
    ((a % 64) * 4 + (b % 64) / 16) as u8
}

/// Second packed byte of a group: low 4 bits of symbol 1, top 4 of symbol 2.
pub open spec fn join_b1(b: u8, c: u8) -> u8 {
    ((b % 16) * 16 + (c % 64) / 4) as u8
}

/// Third packed byte of a group: low 2 bits of symbol 2, all of symbol 3.
pub open spec fn join_b2(c: u8, d: u8) -> u8 {
    ((c % 4) * 64 + d % 64) as u8
}

/// Bytes encoded by a sequence of 6-bit values: full groups of four yield
/// three bytes each; a tail of two or three symbols yields one or two
/// bytes; a tail of one symbol yields nothing (it cannot fill a byte).
pub open spec fn decoded_bytes(syms: Seq<u8>) -> Seq<u8>
    decreases syms.len(),
{
    if syms.len() >= 4 {
        seq![
            join_b0(syms[0], syms[1]),
            join_b1(syms[1], syms[2]),
            join_b2(syms[2], syms[3]),
        ] + decoded_bytes(syms.skip(4))
    } else if syms.len() == 3 {
        seq![join_b0(syms[0], syms[1]), join_b1(syms[1], syms[2])]
    } else if syms.len() == 2 {
        seq![join_b0(syms[0], syms[1])]
    } else {
        Seq::empty()
    }
}

// ---------------------------------------------------------------------
// The decoder, end to end
// ---------------------------------------------------------------------

/// What decoding a byte sequence must return.  The scanner either fails at
/// an offending byte, or leaves a symbol sequence and an optional trailer:
/// a symbol count of 1 modulo 4 can never fill a byte, and an explicit
/// trailer must complete the final group exactly.
pub open spec fn decode_model(s: Seq<u8>) -> Result<Seq<u8>, Error> {
    match run(s) {
        Result::Err(i) => Result::Err(Error::InvalidCharacter(i as usize)),
        Result::Ok((sy, t)) => {
            if sy.len() % 4 == 1 {
                Result::Err(Error::InvalidLength)
            } else if match t {
                Option::Some(n) => (sy.len() + n) % 4 != 0,
                Option::None => false,
            } {
                Result::Err(Error::InvalidTrailer)
            } else {
                Result::Ok(decoded_bytes(sy))
            }
        },
    }
}

// ---------------------------------------------------------------------
// Unpacking: 8-bit bytes to 6-bit symbol values
// ---------------------------------------------------------------------

/// The 6-bit values encoding a byte sequence: each full group of three
/// bytes yields four symbols; a tail of one or two bytes yields two or
/// three symbols with the spare low bits zero.
pub open spec fn syms_of(input: Seq<u8>) -> Seq<u8>
    decreases input.len(),
{
    if input.len() >= 3 {
        seq![
            input[0] / 4,
            ((input[0] % 4) * 16 + input[1] / 16) as u8,
            ((input[1] % 16) * 4 + input[2] / 64) as u8,
            input[2] % 64,
        ] + syms_of(input.skip(3))
    } else if input.len() == 2 {
        seq![
            input[0] / 4,
            ((input[0] % 4) * 16 + input[1] / 16) as u8,
            ((input[1] % 16) * 4) as u8,
        ]
    } else if input.len() == 1 {
        seq![input[0] / 4, ((input[0] % 4) * 16) as u8]
    } else {
        Seq::empty()
    }
}

// ---------------------------------------------------------------------
// The encoder, end to end
// ---------------------------------------------------------------------

/// ASCII byte for a 6-bit value under the chosen alphabet.
pub open spec fn sym_char(v: u8, cs: CharacterSet) -> u8
    recommends
        v < 64,
{
    if v < 26 {
        (0x41 + v) as u8
    } else if v < 52 {
        (0x61 + (v - 26)) as u8
    } else if v < 62 {
        (0x30 + (v - 52)) as u8
    } else if v == 62 {
        match cs {
            CharacterSet::Standard => 0x2b,
            CharacterSet::UrlSafe => 0x2d,
        }
    } else {
        match cs {
            CharacterSet::Standard => 0x2f,
            CharacterSet::UrlSafe => 0x5f,
        }
    }
}

/// Number of `=` bytes a padded encoding appends for an input of `n` bytes.
pub open spec fn pad_len(n: int) -> int {
    if n % 3 == 1 {
        2
    } else if n % 3 == 2 {
        1
    } else {
        0
    }
}

/// A sequence of 6-bit values rendered as ASCII symbol bytes.
pub open spec fn char_map(vals: Seq<u8>, cs: CharacterSet) -> Seq<u8> {
    vals.map_values(|v: u8| sym_char(v, cs))
}

/// The ASCII symbol bytes encoding `input`, before padding and wrapping.
pub open spec fn sym_chars(input: Seq<u8>, cs: CharacterSet) -> Seq<u8> {
    char_map(syms_of(input), cs)
}

/// The encoded characters before line wrapping: the symbol bytes, then the
/// `=` trailer if padding is on.
pub open spec fn encoded_chars(input: Seq<u8>, cs: CharacterSet, pad: bool) -> Seq<u8> {
    sym_chars(input, cs) + if pad {
        Seq::new(pad_len(input.len() as int) as nat, |i: int| PAD_BYTE)
    } else {
        Seq::empty()
    }
}

/// The byte sequence of a newline token.
pub open spec fn nl_bytes(nl: Newline) -> Seq<u8> {
    match nl {
        Newline::LF => seq![0x0au8],
        Newline::CRLF => seq![0x0du8, 0x0au8],
    }
}

/// `chars` with `nl` inserted before every character whose index is a
/// positive multiple of `l`: every full line holds exactly `l` characters
/// and no newline trails the output.
pub open spec fn wrapped(chars: Seq<u8>, l: int, nl: Seq<u8>) -> Seq<u8>
    recommends
        l >= 1,
    decreases chars.len(),
{
    if chars.len() == 0 {
        Seq::empty()
    } else {
        let n = chars.len() - 1;
        wrapped(chars.take(n), l, nl) + (if n % l == 0 && n > 0 {
            nl
        } else {
            Seq::empty()
        }) + seq![chars[n]]
    }
}

/// What encoding a byte sequence must produce.
pub open spec fn encode_model(input: Seq<u8>, config: Config) -> Seq<u8> {
    let chars = encoded_chars(input, config.char_set, config.pad);
    match config.line_length {
        Option::Some(l) => wrapped(chars, l as int, nl_bytes(config.newline)),
        Option::None => chars,
    }
}

/// A byte sequence read as characters, byte for byte; meaningful for
/// ASCII data such as encoder output.
pub open spec fn ascii_chars(s: Seq<u8>) -> Seq<char> {
    s.map_values(|b: u8| b as char)
}

/// What the scanner finds after a first `=`: `Ok(1)` when only whitespace
/// remains, `Ok(2)` when exactly one more `=` amid whitespace remains, and
/// otherwise `Err(k)` at the first byte that fits neither.
pub open spec fn tail_trailer(s: Seq<u8>, i: int) -> Result<int, int> {
    match first_nonspace(s, i) {
        Option::None => Result::Ok(1),
        Option::Some(j) => if s[j] == PAD_BYTE {
            match first_nonspace(s, j + 1) {
                Option::None => Result::Ok(2),
                Option::Some(k) => Result::Err(k),
            }
        } else {
            Result::Err(j)
        },
    }
}

// ---------------------------------------------------------------------
// Lemmas: symbol sequences
// ---------------------------------------------------------------------

pub proof fn lemma_sym_vals_snoc(s: Seq<u8>, x: u8)
    ensures
        sym_vals(s.push(x)) == if is_symbol(x) {
            sym_vals(s).push(sym_value(x))
        } else {
            sym_vals(s)
        },
{
    assert(s.push(x).drop_last() =~= s);
    assert(s.push(x).last() == x);
}

pub proof fn lemma_sym_vals_concat(a: Seq<u8>, b: Seq<u8>)
    ensures
        sym_vals(a + b) == sym_vals(a) + sym_vals(b),
    decreases b.len(),
{
    if b.len() == 0 {
        assert(a + b =~= a);
        assert(sym_vals(a) + sym_vals(b) =~= sym_vals(a));
    } else {
        lemma_sym_vals_concat(a, b.drop_last());
        assert((a + b).drop_last() =~= a + b.drop_last());
        assert((a + b).last() == b.last());
        if is_symbol(b.last()) {
            assert(sym_vals(a) + sym_vals(b.drop_last()).push(sym_value(b.last())) =~= (sym_vals(a)
                + sym_vals(b.drop_last())).push(sym_value(b.last())));
        }
    }
}

pub proof fn lemma_sym_vals_bounds(s: Seq<u8>)
    ensures
        sym_vals(s).len() <= s.len(),
        forall|i: int| 0 <= i < sym_vals(s).len() ==> sym_vals(s)[i] < 64,
    decreases s.len(),
{
    if s.len() > 0 {
        lemma_sym_vals_bounds(s.drop_last());
    }
}

pub proof fn lemma_sym_vals_none(s: Seq<u8>)
    requires
        forall|j: int| 0 <= j < s.len() ==> !is_symbol(s[j]),
    ensures
        sym_vals(s) == Seq::<u8>::empty(),
    decreases s.len(),
{
    if s.len() > 0 {
        lemma_sym_vals_none(s.drop_last());
    }
}

// ---------------------------------------------------------------------
// Lemmas: first_hard and first_nonspace
// ---------------------------------------------------------------------

pub proof fn lemma_first_hard_charac(s: Seq<u8>, i: int)
    requires
        0 <= i <= s.len(),
    ensures
        match first_hard(s, i) {
            Option::Some(j) => i <= j < s.len() && is_hard(s[j]) && forall|m: int|
                i <= m < j ==> !is_hard(s[m]),
            Option::None => forall|m: int| i <= m < s.len() ==> !is_hard(s[m]),
        },
    decreases s.len() - i,
{
    if i < s.len() && !is_hard(s[i]) {
        lemma_first_hard_charac(s, i + 1);
    }
}

pub proof fn lemma_first_hard_unique(s: Seq<u8>, i: int, j: int)
    requires
        0 <= i <= j < s.len(),
        is_hard(s[j]),
        forall|m: int| i <= m < j ==> !is_hard(s[m]),
    ensures
        first_hard(s, i) == Option::Some(j),
    decreases j - i,
{
    if i < j {
        lemma_first_hard_unique(s, i + 1, j);
    }
}

pub proof fn lemma_first_nonspace_charac(s: Seq<u8>, i: int)
    requires
        0 <= i <= s.len(),
    ensures
        match first_nonspace(s, i) {
            Option::Some(j) => i <= j < s.len() && !is_space(s[j]) && forall|m: int|
                i <= m < j ==> is_space(s[m]),
            Option::None => forall|m: int| i <= m < s.len() ==> is_space(s[m]),
        },
    decreases s.len() - i,
{
    if i < s.len() && is_space(s[i]) {
        lemma_first_nonspace_charac(s, i + 1);
    }
}

pub proof fn lemma_first_nonspace_unique(s: Seq<u8>, i: int, j: int)
    requires
        0 <= i <= j < s.len(),
        !is_space(s[j]),
        forall|m: int| i <= m < j ==> is_space(s[m]),
    ensures
        first_nonspace(s, i) == Option::Some(j),
    decreases j - i,
{
    if i < j {
        lemma_first_nonspace_unique(s, i + 1, j);
    }
}

pub proof fn lemma_first_nonspace_none(s: Seq<u8>, i: int)
    requires
        0 <= i <= s.len(),
        forall|m: int| i <= m < s.len() ==> is_space(s[m]),
    ensures
        first_nonspace(s, i) is None,
    decreases s.len() - i,
{
    if i < s.len() {
        lemma_first_nonspace_none(s, i + 1);
    }
}

// ---------------------------------------------------------------------
// Lemmas: the scanner
// ---------------------------------------------------------------------

pub proof fn lemma_run_snoc(s: Seq<u8>, x: u8)
    ensures
        run(s.push(x)) == step(run(s), x, s.len() as int),
{
    assert(s.push(x).drop_last() =~= s);
    assert(s.push(x).last() == x);
}

/// Advancing the scanner one byte along a prefix of `s`.
pub proof fn lemma_run_take_succ(s: Seq<u8>, j: int)
    requires
        0 <= j < s.len(),
    ensures
        run(s.take(j + 1)) == step(run(s.take(j)), s[j], j),
{
    assert(s.take(j + 1).drop_last() =~= s.take(j));
    assert(s.take(j + 1).last() == s[j]);
}

/// An error state never recovers.
pub proof fn lemma_run_err_absorb(s: Seq<u8>, i: int, k: int)
    requires
        0 <= i <= s.len(),
        run(s.take(i)) == Result::<(Seq<u8>, Option<int>), int>::Err(k),
    ensures
        run(s) == Result::<(Seq<u8>, Option<int>), int>::Err(k),
    decreases s.len() - i,
{
    if i < s.len() {
        lemma_run_take_succ(s, i);
        lemma_run_err_absorb(s, i + 1, k);
    } else {
        assert(s.take(i) =~= s);
    }
}

/// Scanning a span that holds only symbols and whitespace appends exactly
/// the span's symbol values.
pub proof fn lemma_run_soft_span(s: Seq<u8>, i: int, e: int, sy: Seq<u8>)
    requires
        0 <= i <= e <= s.len(),
        run(s.take(i)) == Result::<(Seq<u8>, Option<int>), int>::Ok((sy, Option::<int>::None)),
        forall|m: int| i <= m < e ==> !is_hard(s[m]),
    ensures
        run(s.take(e)) == Result::<(Seq<u8>, Option<int>), int>::Ok(
            (sy + sym_vals(s.subrange(i, e)), Option::<int>::None),
        ),
    decreases e - i,
{
    if i == e {
        assert(s.subrange(i, e) =~= Seq::<u8>::empty());
        assert(sy + sym_vals(s.subrange(i, e)) =~= sy);
    } else {
        lemma_run_take_succ(s, i);
        let x = s[i];
        assert(seq![x].drop_last() =~= Seq::<u8>::empty());
        assert(seq![x].last() == x);
        assert(sym_vals(Seq::<u8>::empty()) =~= Seq::<u8>::empty());
        if is_space(x) {
            lemma_run_soft_span(s, i + 1, e, sy);
            assert(s.subrange(i + 1, e) =~= s.subrange(i, e).drop_first());
            lemma_sym_vals_concat(seq![x], s.subrange(i + 1, e));
            assert(s.subrange(i, e) =~= seq![x] + s.subrange(i + 1, e));
            assert(sym_vals(seq![x]) =~= Seq::<u8>::empty());
            assert(sym_vals(s.subrange(i, e)) == sym_vals(s.subrange(i + 1, e)));
        } else {
            lemma_run_soft_span(s, i + 1, e, sy.push(sym_value(x)));
            lemma_sym_vals_concat(seq![x], s.subrange(i + 1, e));
            assert(s.subrange(i, e) =~= seq![x] + s.subrange(i + 1, e));
            assert(sym_vals(seq![x]) =~= Seq::<u8>::empty().push(sym_value(x)));
            assert(sy.push(sym_value(x)) + sym_vals(s.subrange(i + 1, e)) =~= sy + sym_vals(
                s.subrange(i, e),
            ));
        }
    }
}

/// Whitespace leaves any non-error scanner state untouched.
pub proof fn lemma_run_space_span(s: Seq<u8>, i: int, e: int, st: (Seq<u8>, Option<int>))
    requires
        0 <= i <= e <= s.len(),
        run(s.take(i)) == Result::<(Seq<u8>, Option<int>), int>::Ok(st),
        forall|m: int| i <= m < e ==> is_space(s[m]),
    ensures
        run(s.take(e)) == Result::<(Seq<u8>, Option<int>), int>::Ok(st),
    decreases e - i,
{
    if i < e {
        lemma_run_take_succ(s, i);
        lemma_run_space_span(s, i + 1, e, st);
    }
}

/// After a first `=`, the scanner's verdict on the rest of the input is
/// exactly `tail_trailer`.
pub proof fn lemma_run_tail_trailer(s: Seq<u8>, i: int, sy: Seq<u8>)
    requires
        0 <= i <= s.len(),
        run(s.take(i)) == Result::<(Seq<u8>, Option<int>), int>::Ok((sy, Option::Some(1int))),
    ensures
        match tail_trailer(s, i) {
            Result::Ok(t) => 1 <= t <= 2 && run(s) == Result::<(Seq<u8>, Option<int>), int>::Ok(
                (sy, Option::Some(t)),
            ),
            Result::Err(k) => i <= k < s.len() && run(s) == Result::<
                (Seq<u8>, Option<int>),
                int,
            >::Err(k),
        },
{
    lemma_first_nonspace_charac(s, i);
    match first_nonspace(s, i) {
        Option::None => {
            lemma_run_space_span(s, i, s.len() as int, (sy, Option::Some(1int)));
            assert(s.take(s.len() as int) =~= s);
        },
        Option::Some(j) => {
            lemma_run_space_span(s, i, j, (sy, Option::Some(1int)));
            lemma_run_take_succ(s, j);
            if s[j] == PAD_BYTE {
                lemma_first_nonspace_charac(s, j + 1);
                match first_nonspace(s, j + 1) {
                    Option::None => {
                        lemma_run_space_span(s, j + 1, s.len() as int, (sy, Option::Some(2int)));
                        assert(s.take(s.len() as int) =~= s);
                    },
                    Option::Some(k) => {
                        lemma_run_space_span(s, j + 1, k, (sy, Option::Some(2int)));
                        lemma_run_take_succ(s, k);
                        lemma_run_err_absorb(s, k + 1, k);
                    },
                }
            } else {
                lemma_run_err_absorb(s, j + 1, j);
            }
        },
    }
}

// ---------------------------------------------------------------------
// Lemmas: packed bytes
// ---------------------------------------------------------------------

pub proof fn lemma_decoded_len(syms: Seq<u8>)
    ensures
        decoded_bytes(syms).len() == 3 * syms.len() as int / 4,
    decreases syms.len(),
{
    if syms.len() >= 4 {
        lemma_decoded_len(syms.skip(4));
    }
}

pub proof fn lemma_decoded_concat(a: Seq<u8>, b: Seq<u8>)
    requires
        a.len() % 4 == 0,
    ensures
        decoded_bytes(a + b) == decoded_bytes(a) + decoded_bytes(b),
    decreases a.len(),
{
    if a.len() == 0 {
        assert(a + b =~= b);
        assert(decoded_bytes(a) + decoded_bytes(b) =~= decoded_bytes(b));
    } else {
        let ab = a + b;
        assert(ab[0] == a[0] && ab[1] == a[1] && ab[2] == a[2] && ab[3] == a[3]);
        assert(ab.skip(4) =~= a.skip(4) + b);
        lemma_decoded_concat(a.skip(4), b);
        assert(decoded_bytes(a) + decoded_bytes(b) =~= seq![
            join_b0(a[0], a[1]),
            join_b1(a[1], a[2]),
            join_b2(a[2], a[3]),
        ] + (decoded_bytes(a.skip(4)) + decoded_bytes(b)));
    }
}

/// The first `3*p/4` packed bytes depend only on the first `p` symbols.
pub proof fn lemma_decoded_take(g: Seq<u8>, p: int)
    requires
        0 <= p <= g.len(),
    ensures
        decoded_bytes(g.take(p)) == decoded_bytes(g).take(3 * p / 4),
    decreases g.len(),
{
    lemma_decoded_len(g);
    lemma_decoded_len(g.take(p));
    if p >= 4 {
        assert(g.len() >= 4);
        assert(g.take(p).skip(4) =~= g.skip(4).take(p - 4));
        lemma_decoded_take(g.skip(4), p - 4);
        lemma_decoded_len(g.skip(4));
        assert(decoded_bytes(g.take(p)) =~= decoded_bytes(g).take(3 * p / 4));
    } else {
        if g.len() < 4 {
            // both sides examine the same short tail
            if p == g.len() {
                assert(g.take(p) =~= g);
            }
            assert(decoded_bytes(g.take(p)) =~= decoded_bytes(g).take(3 * p / 4));
        } else {
            assert(decoded_bytes(g.take(p)) =~= decoded_bytes(g).take(3 * p / 4));
        }
    }
}

// ---------------------------------------------------------------------
// Lemmas: unpacking
// ---------------------------------------------------------------------

pub proof fn lemma_syms_of_concat(a: Seq<u8>, b: Seq<u8>)
    requires
        a.len() % 3 == 0,
    ensures
        syms_of(a + b) == syms_of(a) + syms_of(b),
    decreases a.len(),
{
    if a.len() == 0 {
        assert(a + b =~= b);
        assert(syms_of(a) + syms_of(b) =~= syms_of(b));
    } else {
        let ab = a + b;
        assert(ab[0] == a[0] && ab[1] == a[1] && ab[2] == a[2]);
        assert(ab.skip(3) =~= a.skip(3) + b);
        lemma_syms_of_concat(a.skip(3), b);
        assert(syms_of(a) + syms_of(b) =~= seq![
            a[0] / 4,
            ((a[0] % 4) * 16 + a[1] / 16) as u8,
            ((a[1] % 16) * 4 + a[2] / 64) as u8,
            a[2] % 64,
        ] + (syms_of(a.skip(3)) + syms_of(b)));
    }
}

pub proof fn lemma_syms_of_len(x: Seq<u8>)
    ensures
        syms_of(x).len() == (4 * x.len() as int + 2) / 3,
    decreases x.len(),
{
    if x.len() >= 3 {
        lemma_syms_of_len(x.skip(3));
        let m = x.len() as int - 3;
        assert((4 * (m + 3) + 2) / 3 == (4 * m + 2) / 3 + 4) by (nonlinear_arith)
            requires
                m >= 0,
        ;
    }
}

pub proof fn lemma_syms_of_bounds(x: Seq<u8>)
    ensures
        forall|i: int| 0 <= i < syms_of(x).len() ==> syms_of(x)[i] < 64,
    decreases x.len(),
{
    if x.len() >= 3 {
        lemma_syms_of_bounds(x.skip(3));
        assert forall|i: int| 0 <= i < syms_of(x).len() implies syms_of(x)[i] < 64 by {
            if i >= 4 {
                assert(syms_of(x)[i] == syms_of(x.skip(3))[i - 4]);
            }
        }
    }
}

/// Unpacking a zero-padded tail and keeping only the owed symbols gives
/// exactly the symbols of the unpadded bytes.
pub proof fn lemma_syms_zero_pad(x: Seq<u8>, z: Seq<u8>)
    requires
        forall|i: int| 0 <= i < z.len() ==> z[i] == 0u8,
        (x.len() + z.len()) % 3 == 0,
    ensures
        syms_of(x + z).take((4 * x.len() as int + 2) / 3) == syms_of(x),
    decreases x.len(),
{
    lemma_syms_of_len(x);
    if x.len() >= 3 {
        let xz = x + z;
        assert(xz[0] == x[0] && xz[1] == x[1] && xz[2] == x[2]);
        assert(xz.skip(3) =~= x.skip(3) + z);
        lemma_syms_zero_pad(x.skip(3), z);
        lemma_syms_of_len(x.skip(3));
        lemma_syms_of_len(xz.skip(3));
        assert(syms_of(x + z).take((4 * x.len() as int + 2) / 3) =~= syms_of(x));
    } else if x.len() == 0 {
        assert(syms_of(x) =~= Seq::<u8>::empty());
        assert(syms_of(x + z).take(0) =~= Seq::<u8>::empty());
    } else {
        // a tail of one or two bytes: the first symbols of the padded
        // group coincide with the tail's own symbols
        let xz = x + z;
        assert(xz.len() >= 3);
        assert(xz[0] == x[0]);
        if x.len() == 2 {
            assert(xz[1] == x[1]);
            assert(xz[2] == z[0] && z[0] == 0u8);
            assert(syms_of(xz).take(3) =~= syms_of(x));
        } else {
            assert(xz[1] == z[0] && xz[2] == z[1]);
            assert(xz[1] == 0u8 && xz[2] == 0u8);
            assert(syms_of(xz).take(2) =~= syms_of(x));
        }
    }
}

// ---------------------------------------------------------------------
// Lemmas: line wrapping
// ---------------------------------------------------------------------

/// Number of newline tokens `wrapped` inserts.
pub open spec fn wrap_count(n: int, l: int) -> int {
    if n == 0 {
        0
    } else {
        (n - 1) / l
    }
}

pub proof fn lemma_wrapped_len(c: Seq<u8>, l: int, nl: Seq<u8>)
    requires
        l >= 1,
    ensures
        wrapped(c, l, nl).len() == c.len() + nl.len() * wrap_count(c.len() as int, l),
    decreases c.len(),
{
    if c.len() > 0 {
        lemma_wrapped_len(c.take(c.len() - 1), l, nl);
        let n = c.len() - 1;
        assert(nl.len() * (wrap_count(n, l) + 1) == nl.len() * wrap_count(n, l) + nl.len())
            by (nonlinear_arith);
        if n % l == 0 && n > 0 {
            vstd::arithmetic::div_mod::lemma_fundamental_div_mod(n, l);
            vstd::arithmetic::div_mod::lemma_fundamental_div_mod(n - 1, l);
            assert(wrap_count(n + 1, l) == wrap_count(n, l) + 1) by (nonlinear_arith)
                requires
                    l >= 1,
                    n > 0,
                    n % l == 0,
                    wrap_count(n + 1, l) == n / l,
                    wrap_count(n, l) == (n - 1) / l,
                    n == l * (n / l),
                    n - 1 == l * ((n - 1) / l) + (n - 1) % l,
                    0 <= (n - 1) % l < l,
            ;
        } else {
            vstd::arithmetic::div_mod::lemma_fundamental_div_mod(n, l);
            vstd::arithmetic::div_mod::lemma_fundamental_div_mod(n - 1, l);
            if n > 0 {
                assert(wrap_count(n + 1, l) == wrap_count(n, l)) by (nonlinear_arith)
                    requires
                        l >= 1,
                        n > 0,
                        n % l != 0,
                        wrap_count(n + 1, l) == n / l,
                        wrap_count(n, l) == (n - 1) / l,
                        n == l * (n / l) + n % l,
                        0 < n % l < l,
                        n - 1 == l * ((n - 1) / l) + (n - 1) % l,
                        0 <= (n - 1) % l < l,
                ;
            }
        }
    }
}

/// Appending characters that never land at a line start passes straight
/// through the wrapper.
pub proof fn lemma_wrapped_append_flat(c: Seq<u8>, add: Seq<u8>, l: int, nl: Seq<u8>)
    requires
        l >= 1,
        forall|j: int|
            c.len() <= j < c.len() + add.len() ==> !(#[trigger] (j % l) == 0 && j > 0),
    ensures
        wrapped(c + add, l, nl) == wrapped(c, l, nl) + add,
    decreases add.len(),
{
    if add.len() == 0 {
        assert(c + add =~= c);
        assert(wrapped(c, l, nl) + add =~= wrapped(c, l, nl));
    } else {
        let front = add.take(add.len() - 1);
        lemma_wrapped_append_flat(c, front, l, nl);
        let ca = c + add;
        let n = ca.len() - 1;
        assert(ca.take(n) =~= c + front);
        assert(!(n % l == 0 && n > 0));
        assert(wrapped(ca, l, nl) =~= wrapped(c + front, l, nl) + seq![add.last()]);
        assert(wrapped(c, l, nl) + add =~= (wrapped(c, l, nl) + front) + seq![add.last()]);
    }
}

/// Appending one character exactly at a line start inserts the newline
/// first.
pub proof fn lemma_wrapped_append_brk(c: Seq<u8>, x: u8, l: int, nl: Seq<u8>)
    requires
        l >= 1,
        c.len() > 0,
        c.len() as int % l == 0,
    ensures
        wrapped(c.push(x), l, nl) == wrapped(c, l, nl) + nl + seq![x],
{
    assert(c.push(x).take(c.len() as int) =~= c);
    assert(c.push(x).last() == x);
    assert(c.push(x)[c.len() as int] == x);
}

/// The encoded characters are the symbol characters plus the `=` trailer.
pub proof fn lemma_encoded_chars_split(x: Seq<u8>, cs: CharacterSet, t: Seq<u8>)
    requires
        t.len() == pad_len(x.len() as int),
        forall|i: int| 0 <= i < t.len() ==> t[i] == PAD_BYTE,
    ensures
        encoded_chars(x, cs, true) == sym_chars(x, cs) + t,
        encoded_chars(x, cs, false) == sym_chars(x, cs),
{
    assert(encoded_chars(x, cs, true) =~= sym_chars(x, cs) + t);
    assert(encoded_chars(x, cs, false) =~= sym_chars(x, cs));
}

/// The symbol characters are ASCII and one per symbol.
pub proof fn lemma_sym_chars_facts(x: Seq<u8>, cs: CharacterSet)
    ensures
        sym_chars(x, cs).len() == (4 * x.len() as int + 2) / 3,
        forall|i: int| 0 <= i < sym_chars(x, cs).len() ==> sym_chars(x, cs)[i] < 0x80,
{
    lemma_syms_of_len(x);
}

/// The encoder driver's bookkeeping between output, emitted characters and
/// the next line break: either the current line is part-filled and the
/// break sits at its end, or a line just filled and the break is due now,
/// or the newline was already written and a fresh line begins.
pub open spec fn wrap_state(out: Seq<u8>, e: Seq<u8>, l: int, nl: Seq<u8>, nl_index: int) -> bool
    recommends
        l >= 1,
{
    if e.len() as int % l == 0 && e.len() > 0 {
        (out == wrapped(e, l, nl) && nl_index == out.len()) || (out == wrapped(e, l, nl) + nl
            && nl_index == out.len() + l)
    } else {
        out == wrapped(e, l, nl) && nl_index == out.len() + l - e.len() as int % l
    }
}

/// Appending one or more characters right after a line boundary inserts
/// the newline, then the characters.
pub proof fn lemma_wrapped_append_after_brk(c: Seq<u8>, add: Seq<u8>, l: int, nl: Seq<u8>)
    requires
        l >= 1,
        c.len() > 0,
        c.len() as int % l == 0,
        add.len() >= 1,
        forall|j: int| c.len() < j < c.len() + add.len() ==> #[trigger] (j % l) != 0,
    ensures
        wrapped(c + add, l, nl) == wrapped(c, l, nl) + nl + add,
    decreases add.len(),
{
    if add.len() == 1 {
        lemma_wrapped_append_brk(c, add[0], l, nl);
        assert(c.push(add[0]) =~= c + add);
        assert(wrapped(c, l, nl) + nl + seq![add[0]] =~= wrapped(c, l, nl) + nl + add);
    } else {
        let front = add.take(add.len() - 1);
        lemma_wrapped_append_after_brk(c, front, l, nl);
        let ca = c + add;
        let n = ca.len() - 1;
        assert(ca.take(n) =~= c + front);
        assert(n % l != 0);
        assert(wrapped(ca, l, nl) =~= wrapped(c + front, l, nl) + seq![add.last()]);
        assert(wrapped(c, l, nl) + nl + add =~= (wrapped(c, l, nl) + nl + front) + seq![
            add.last(),
        ]);
    }
}

/// Walking `d` positions into a line does not wrap around it.
pub proof fn lemma_mod_window(base: int, d: int, l: int)
    requires
        l >= 1,
        base >= 0,
        d >= 0,
        base % l + d < l,
    ensures
        (base + d) % l == base % l + d,
{
    vstd::arithmetic::div_mod::lemma_fundamental_div_mod(base, l);
    vstd::arithmetic::div_mod::lemma_mod_multiples_basic(base / l, l);
    assert(l * (base / l) == (base / l) * l) by (nonlinear_arith);
    if base < l {
        vstd::arithmetic::div_mod::lemma_small_mod(base as nat, l as nat);
    }
    assert(l * (base / l) >= 0);
    lemma_mod_offset(l * (base / l), base % l + d, l);
    vstd::arithmetic::div_mod::lemma_small_mod((base % l + d) as nat, l as nat);
}

/// Filling the current line to its end lands exactly on a line boundary.
pub proof fn lemma_mod_complete(base: int, l: int)
    requires
        l >= 1,
        base >= 0,
    ensures
        (base + (l - base % l)) % l == 0,
{
    vstd::arithmetic::div_mod::lemma_fundamental_div_mod(base, l);
    assert(base + (l - base % l) == (base / l + 1) * l) by (nonlinear_arith)
        requires
            base == l * (base / l) + base % l,
    ;
    vstd::arithmetic::div_mod::lemma_mod_multiples_basic(base / l + 1, l);
}

/// The wrapped output is never more than three times the characters.
pub proof fn lemma_wrapped_len_bound(c: Seq<u8>, l: int, nl: Seq<u8>)
    requires
        l >= 1,
        nl.len() <= 2,
    ensures
        wrapped(c, l, nl).len() <= 3 * c.len(),
        wrapped(c, l, nl).len() == c.len() + nl.len() * wrap_count(c.len() as int, l),
{
    lemma_wrapped_len(c, l, nl);
    let wc = wrap_count(c.len() as int, l);
    if c.len() > 0 {
        vstd::arithmetic::div_mod::lemma_div_nonincreasing(c.len() - 1, l);
        assert(wc <= c.len());
        assert(nl.len() * wc <= 2 * wc) by (nonlinear_arith)
            requires
                nl.len() <= 2,
                wc >= 0,
        ;
    }
}

/// Dividing after adding a multiple of the divisor splits exactly.
pub proof fn lemma_div_add_exact(a: int, b: int, g: int)
    requires
        g >= 1,
        a >= 0,
        b >= 0,
        a % g == 0,
    ensures
        (a + b) / g == a / g + b / g,
{
    vstd::arithmetic::div_mod::lemma_fundamental_div_mod(a, g);
    vstd::arithmetic::div_mod::lemma_hoist_over_denominator(b, a / g, g as nat);
    assert((a / g) * g == g * (a / g)) by (nonlinear_arith);
}

/// Two multiples of `g` with room between them differ by at least `g`.
pub proof fn lemma_mod_gap(x: int, y: int, g: int)
    requires
        g >= 1,
        0 <= x < y,
        x % g == 0,
        y % g == 0,
    ensures
        x + g <= y,
{
    if y - x < g {
        lemma_mod_offset(x, y - x, g);
        vstd::arithmetic::div_mod::lemma_small_mod((y - x) as nat, g as nat);
    }
}

/// Appending exactly the characters owed before the next break completes
/// the current line.
pub proof fn lemma_wrap_take_line(
    out: Seq<u8>,
    cur: Seq<u8>,
    piece: Seq<u8>,
    l: int,
    nl: Seq<u8>,
    ni: int,
)
    requires
        l >= 1,
        wrap_state(out, cur, l, nl, ni),
        piece.len() == ni - out.len(),
    ensures
        out + piece == wrapped(cur + piece, l, nl),
        (cur + piece).len() as int % l == 0,
        (cur + piece).len() > 0,
{
    let nxt = cur + piece;
    if cur.len() as int % l == 0 && cur.len() > 0 {
        if out == wrapped(cur, l, nl) && ni == out.len() {
            assert(piece =~= Seq::<u8>::empty());
            assert(nxt =~= cur);
            assert(out + piece =~= out);
        } else {
            assert(piece.len() == l);
            assert forall|j: int| cur.len() < j < cur.len() + piece.len() implies #[trigger] (j
                % l) != 0 by {
                lemma_mod_offset(cur.len() as int, j - cur.len(), l);
                vstd::arithmetic::div_mod::lemma_small_mod((j - cur.len()) as nat, l as nat);
            }
            lemma_wrapped_append_after_brk(cur, piece, l, nl);
            lemma_mod_offset(cur.len() as int, piece.len() as int, l);
            vstd::arithmetic::div_mod::lemma_mod_multiples_basic(1, l);
            assert((wrapped(cur, l, nl) + nl) + piece =~= wrapped(cur, l, nl) + nl + piece);
        }
    } else {
        assert(piece.len() == l - cur.len() as int % l);
        assert forall|j: int|
            cur.len() <= j < cur.len() + piece.len() implies !(#[trigger] (j % l) == 0 && j
            > 0) by {
            lemma_mod_window(cur.len() as int, j - cur.len(), l);
        }
        lemma_wrapped_append_flat(cur, piece, l, nl);
        lemma_mod_complete(cur.len() as int, l);
    }
}

/// Appending characters that fit before the next break leaves a
/// consistent wrap state.
pub proof fn lemma_wrap_take_rest(
    out: Seq<u8>,
    cur: Seq<u8>,
    piece: Seq<u8>,
    l: int,
    nl: Seq<u8>,
    ni: int,
)
    requires
        l >= 1,
        wrap_state(out, cur, l, nl, ni),
        piece.len() >= 1,
        out.len() + piece.len() <= ni,
    ensures
        out + piece == wrapped(cur + piece, l, nl),
        wrap_state(out + piece, cur + piece, l, nl, ni),
{
    let fin = cur + piece;
    if cur.len() as int % l == 0 && cur.len() > 0 {
        if out == wrapped(cur, l, nl) && ni == out.len() {
            assert(false);
        } else {
            // the newline is already written; the piece starts a new line
            assert(piece.len() as int <= l);
            assert forall|j: int| cur.len() < j < cur.len() + piece.len() implies #[trigger] (j
                % l) != 0 by {
                lemma_mod_offset(cur.len() as int, j - cur.len(), l);
                vstd::arithmetic::div_mod::lemma_small_mod((j - cur.len()) as nat, l as nat);
            }
            lemma_wrapped_append_after_brk(cur, piece, l, nl);
            lemma_mod_offset(cur.len() as int, piece.len() as int, l);
            assert((wrapped(cur, l, nl) + nl) + piece =~= wrapped(cur, l, nl) + nl + piece);
            if piece.len() < l {
                vstd::arithmetic::div_mod::lemma_small_mod(piece.len() as nat, l as nat);
            } else {
                vstd::arithmetic::div_mod::lemma_mod_multiples_basic(1, l);
            }
        }
    } else {
        assert(piece.len() as int <= l - cur.len() as int % l);
        assert forall|j: int|
            cur.len() <= j < cur.len() + piece.len() implies !(#[trigger] (j % l) == 0 && j
            > 0) by {
            lemma_mod_window(cur.len() as int, j - cur.len(), l);
        }
        lemma_wrapped_append_flat(cur, piece, l, nl);
        if cur.len() as int % l + piece.len() < l {
            lemma_mod_window(cur.len() as int, piece.len() as int, l);
        } else {
            lemma_mod_complete(cur.len() as int, l);
        }
    }
}

// ---------------------------------------------------------------------
// Lemmas: modular arithmetic for group sizes
// ---------------------------------------------------------------------

/// A nonnegative multiple of a group size that is itself a multiple of
/// four is a multiple of four.
pub proof fn lemma_group_multiple_of_4(d: int, g: int)
    requires
        g >= 4,
        g % 4 == 0,
        d >= 0,
        d % g == 0,
    ensures
        d % 4 == 0,
{
    vstd::arithmetic::div_mod::lemma_fundamental_div_mod(d, g);
    vstd::arithmetic::div_mod::lemma_fundamental_div_mod(g, 4);
    assert(d == ((g / 4) * (d / g)) * 4) by (nonlinear_arith)
        requires
            d == g * (d / g),
            g == 4 * (g / 4),
    ;
    vstd::arithmetic::div_mod::lemma_mod_multiples_basic((g / 4) * (d / g), 4);
}

/// Adding to a multiple of `g` leaves the remainder of the addend.
pub proof fn lemma_mod_offset(d: int, p: int, g: int)
    requires
        g >= 1,
        d >= 0,
        p >= 0,
        d % g == 0,
    ensures
        (d + p) % g == p % g,
{
    vstd::arithmetic::div_mod::lemma_add_mod_noop(d, p, g);
    vstd::arithmetic::div_mod::lemma_small_mod((p % g) as nat, g as nat);
}

/// Adding a multiple of four on the left leaves a remainder modulo four
/// unchanged.
pub proof fn lemma_mod4_offset(d: int, p: int)
    requires
        d % 4 == 0,
        d >= 0,
        p >= 0,
    ensures
        (d + p) % 4 == p % 4,
{
    vstd::arithmetic::div_mod::lemma_add_mod_noop(d, p, 4);
    vstd::arithmetic::div_mod::lemma_small_mod((p % 4) as nat, 4nat);
}

} // verus!
