//! General properties of the codec, stated and proved once for all
//! inputs: the encode/decode round trip, whitespace invariance, per-byte
//! classification, padding and length discipline, and the shape of
//! line-wrapped output.
use vstd::prelude::*;
use crate::decode::Error;
use crate::model::{
    decode_model, decoded_bytes, encode_model, encoded_chars, is_hard, is_space, is_symbol,
    join_b0, nl_bytes, pad_len, run, step, sym_char, sym_chars, sym_value, syms_of, wrapped,
    PAD_BYTE,
};
use crate::{CharacterSet, Config};

verus! {

/// Each alphabet's symbol characters decode back to their 6-bit value.
proof fn lemma_sym_char_props(v: u8, cs: CharacterSet)
    requires
        v < 64,
    ensures
        is_symbol(sym_char(v, cs)),
        !is_space(sym_char(v, cs)),
        sym_char(v, cs) != PAD_BYTE,
        sym_value(sym_char(v, cs)) == v,
{
}

/// Appending a whitespace byte never changes the scanner's state.
proof fn lemma_run_push_space(s: Seq<u8>, w: u8)
    requires
        is_space(w),
    ensures
        run(s.push(w)) == run(s),
{
    crate::model::lemma_run_snoc(s, w);
}

/// A prefix of a cleanly scanned sequence scans cleanly too.
proof fn lemma_run_prefix_ok(s: Seq<u8>, t: Seq<u8>)
    requires
        run(s + t) is Ok,
    ensures
        run(s) is Ok,
    decreases t.len(),
{
    if t.len() == 0 {
        assert(s + t =~= s);
    } else {
        assert((s + t).drop_last() =~= s + t.drop_last());
        assert(run(s + t) == step(
            run(s + t.drop_last()),
            (s + t).last(),
            (s + t).len() - 1,
        ));
        lemma_run_prefix_ok(s, t.drop_last());
    }
}

/// Scanning a sequence of symbol characters collects their values.
proof fn lemma_run_sym_chars(vals: Seq<u8>, cs: CharacterSet)
    requires
        forall|i: int| 0 <= i < vals.len() ==> vals[i] < 64,
    ensures
        run(crate::model::char_map(vals, cs)) == Result::<(Seq<u8>, Option<int>), int>::Ok(
            (vals, Option::<int>::None),
        ),
    decreases vals.len(),
{
    let cm = crate::model::char_map(vals, cs);
    if vals.len() == 0 {
        assert(cm =~= Seq::<u8>::empty());
        assert(vals =~= Seq::<u8>::empty());
    } else {
        let front = vals.drop_last();
        assert(forall|i: int| 0 <= i < front.len() ==> front[i] < 64);
        lemma_run_sym_chars(front, cs);
        assert(vals.last() < 64);
        lemma_sym_char_props(vals.last(), cs);
        let fm = crate::model::char_map(front, cs);
        assert(cm =~= fm.push(sym_char(vals.last(), cs)));
        crate::model::lemma_run_snoc(fm, sym_char(vals.last(), cs));
        assert(run(cm) == step(run(fm), sym_char(vals.last(), cs), fm.len() as int));
        assert(front.push(sym_value(sym_char(vals.last(), cs))) =~= vals);
    }
}

/// Scanning the encoder's characters leaves exactly the input's symbols
/// and the trailer the padding wrote.
proof fn lemma_run_encoded_chars(x: Seq<u8>, cs: CharacterSet, pad: bool)
    ensures
        run(encoded_chars(x, cs, pad)) == Result::<(Seq<u8>, Option<int>), int>::Ok(
            (
                syms_of(x),
                if pad && pad_len(x.len() as int) > 0 {
                    Option::Some(pad_len(x.len() as int))
                } else {
                    Option::<int>::None
                },
            ),
        ),
{
    crate::model::lemma_syms_of_bounds(x);
    lemma_run_sym_chars(syms_of(x), cs);
    let base = sym_chars(x, cs);
    let p = pad_len(x.len() as int);
    if pad && p > 0 {
        if p == 1 {
            assert(encoded_chars(x, cs, pad) =~= base.push(PAD_BYTE));
            crate::model::lemma_run_snoc(base, PAD_BYTE);
        } else {
            assert(encoded_chars(x, cs, pad) =~= base.push(PAD_BYTE).push(PAD_BYTE));
            crate::model::lemma_run_snoc(base, PAD_BYTE);
            crate::model::lemma_run_snoc(base.push(PAD_BYTE), PAD_BYTE);
        }
    } else {
        assert(encoded_chars(x, cs, pad) =~= base);
    }
}

/// Line wrapping inserts only whitespace, so it never changes what a
/// clean scan collects.
proof fn lemma_run_wrapped(c: Seq<u8>, l: int, nl: Seq<u8>)
    requires
        l >= 1,
        run(c) is Ok,
        forall|i: int| 0 <= i < nl.len() ==> is_space(#[trigger] nl[i]),
        1 <= nl.len() <= 2,
    ensures
        run(wrapped(c, l, nl)) == run(c),
    decreases c.len(),
{
    if c.len() == 0 {
        assert(wrapped(c, l, nl) =~= Seq::<u8>::empty());
    } else {
        let n = c.len() - 1;
        let front = c.take(n);
        assert(front + seq![c[n]] =~= c);
        lemma_run_prefix_ok(front, seq![c[n]]);
        lemma_run_wrapped(front, l, nl);
        let wf = wrapped(front, l, nl);
        let brk: Seq<u8> = if n % l == 0 && n > 0 {
            nl
        } else {
            Seq::empty()
        };
        let wb = wf + brk;
        if n % l == 0 && n > 0 {
            if nl.len() == 1 {
                assert(wb =~= wf.push(nl[0]));
                lemma_run_push_space(wf, nl[0]);
            } else {
                assert(wb =~= wf.push(nl[0]).push(nl[1]));
                lemma_run_push_space(wf, nl[0]);
                lemma_run_push_space(wf.push(nl[0]), nl[1]);
            }
        } else {
            assert(wb =~= wf);
        }
        assert(run(wb) == run(front));
        assert(wrapped(c, l, nl) =~= wb.push(c[n]));
        crate::model::lemma_run_snoc(wb, c[n]);
        assert(run(c) == step(run(front), c[n], n));
        // a step that does not fail reads only the byte, not its position
        assert(run(c) is Ok);
        assert(step(run(wb), c[n], wb.len() as int) == step(run(front), c[n], n));
    }
}

/// Unpacking a byte sequence into 6-bit values and packing them again
/// gives the bytes back.
proof fn lemma_pack_unpack(x: Seq<u8>)
    ensures
        decoded_bytes(syms_of(x)) == x,
    decreases x.len(),
{
    let sy = syms_of(x);
    if x.len() >= 3 {
        let a = x[0];
        let c = x[1];
        let d = x[2];
        lemma_group_inverse(a, c, d);
        lemma_pack_unpack(x.skip(3));
        crate::model::lemma_syms_of_len(x.skip(3));
        assert(sy.skip(4) =~= syms_of(x.skip(3)));
        assert(decoded_bytes(sy) =~= x);
    } else if x.len() == 2 {
        let a = x[0];
        let c = x[1];
        lemma_group_inverse(a, c, 0);
        assert(decoded_bytes(sy) =~= x);
    } else if x.len() == 1 {
        let a = x[0];
        lemma_group_inverse(a, 0, 0);
        assert(decoded_bytes(sy) =~= x);
    } else {
        assert(sy =~= Seq::<u8>::empty());
        assert(decoded_bytes(sy) =~= x);
    }
}

/// Splitting three bytes into four 6-bit values and joining them again
/// restores each byte.
proof fn lemma_group_inverse(a: u8, c: u8, d: u8)
    ensures
        join_b0(a / 4, ((a % 4) * 16 + c / 16) as u8) == a,
        crate::model::join_b1(((a % 4) * 16 + c / 16) as u8, ((c % 16) * 4 + d / 64) as u8)
            == c,
        crate::model::join_b2(((c % 16) * 4 + d / 64) as u8, (d % 64) as u8) == d,
{
    vstd::arithmetic::div_mod::lemma_fundamental_div_mod(a as int, 4);
    vstd::arithmetic::div_mod::lemma_fundamental_div_mod(c as int, 16);
    vstd::arithmetic::div_mod::lemma_fundamental_div_mod(d as int, 64);
    // the spare low bits vanish when the joins divide them back out
    vstd::arithmetic::div_mod::lemma_div_multiples_vanish_fancy(
        a as int % 4,
        c as int / 16,
        16,
    );
    vstd::arithmetic::div_mod::lemma_div_multiples_vanish_fancy(
        c as int % 16,
        d as int / 64,
        4,
    );
    vstd::arithmetic::div_mod::lemma_mod_multiples_vanish(a as int % 4, c as int / 16, 16);
    vstd::arithmetic::div_mod::lemma_small_mod((c as int / 16) as nat, 16nat);
    vstd::arithmetic::div_mod::lemma_mod_multiples_vanish(c as int % 16, d as int / 64, 4);
    vstd::arithmetic::div_mod::lemma_small_mod((d as int / 64) as nat, 4nat);
    vstd::arithmetic::div_mod::lemma_small_mod((a as int / 4) as nat, 64nat);
    vstd::arithmetic::div_mod::lemma_small_mod((d as int % 64) as nat, 64nat);
}

/// How many symbols an input leaves modulo four, and that the padding
/// completes the final group.
proof fn lemma_syms_len_mod(x: Seq<u8>)
    ensures
        x.len() % 3 == 0 ==> syms_of(x).len() as int % 4 == 0,
        x.len() % 3 == 1 ==> syms_of(x).len() as int % 4 == 2,
        x.len() % 3 == 2 ==> syms_of(x).len() as int % 4 == 3,
{
    crate::model::lemma_syms_of_len(x);
    let n = x.len() as int;
    let k = n / 3;
    vstd::arithmetic::div_mod::lemma_fundamental_div_mod(n, 3);
    if n % 3 == 0 {
        assert((4 * n + 2) / 3 == 4 * k && (4 * k) % 4 == 0) by (nonlinear_arith)
            requires
                n == 3 * k,
                k >= 0,
        ;
    } else if n % 3 == 1 {
        assert((4 * n + 2) / 3 == 4 * k + 2 && (4 * k + 2) % 4 == 2) by (nonlinear_arith)
            requires
                n == 3 * k + 1,
                k >= 0,
        ;
    } else {
        assert((4 * n + 2) / 3 == 4 * k + 3 && (4 * k + 3) % 4 == 3) by (nonlinear_arith)
            requires
                n == 3 * k + 2,
                k >= 0,
        ;
    }
}

/// Round trip: decoding an encoding returns the original bytes, for every
/// input and every supported configuration.
pub proof fn theorem_round_trip(input: Seq<u8>, config: Config)
    requires
        match config.line_length {
            Option::Some(l) => l >= 1,
            Option::None => true,
        },
    ensures
        decode_model(encode_model(input, config)) == Result::<Seq<u8>, Error>::Ok(input),
{
    let cs = config.char_set;
    let chars = encoded_chars(input, cs, config.pad);
    lemma_run_encoded_chars(input, cs, config.pad);
    match config.line_length {
        Option::Some(l) => {
            lemma_run_wrapped(chars, l as int, nl_bytes(config.newline));
        },
        Option::None => {},
    }
    assert(run(encode_model(input, config)) == run(chars));
    lemma_syms_len_mod(input);
    lemma_pack_unpack(input);
}

/// Whitespace invariance: inserting a whitespace byte anywhere in an
/// input that decodes successfully leaves the decoded bytes unchanged.
pub proof fn theorem_whitespace_invariance(s: Seq<u8>, i: int, w: u8)
    requires
        0 <= i <= s.len(),
        is_space(w),
        decode_model(s) is Ok,
    ensures
        decode_model(s.take(i) + seq![w] + s.skip(i)) == decode_model(s),
{
    let a = s.take(i);
    let b = s.skip(i);
    assert(a + b =~= s);
    lemma_run_parallel(a, b, w);
    assert(a + seq![w] + b =~= (a.push(w)) + b);
}

/// Appending the same suffix to two equal non-failed scanner states keeps
/// them aligned, except that both may fail.
proof fn lemma_run_parallel(a: Seq<u8>, b: Seq<u8>, w: u8)
    requires
        is_space(w),
        run(a + b) is Ok,
    ensures
        run(a.push(w) + b) == run(a + b),
    decreases b.len(),
{
    if b.len() == 0 {
        lemma_run_prefix_ok(a, b);
        assert(a + b =~= a);
        lemma_run_push_space(a, w);
        assert(a.push(w) + b =~= a.push(w));
    } else {
        let front = b.drop_last();
        assert((a + b).drop_last() =~= a + front);
        assert(run(a + b) == step(run(a + front), b.last(), (a + b).len() - 1));
        assert((a + front) + seq![b.last()] =~= a + b);
        lemma_run_prefix_ok(a + front, seq![b.last()]);
        lemma_run_parallel(a, front, w);
        assert((a.push(w) + b).drop_last() =~= a.push(w) + front);
        assert(run(a.push(w) + b) == step(
            run(a.push(w) + front),
            b.last(),
            (a.push(w) + b).len() - 1,
        ));
        // the position feeds only the failure index, and this step cannot
        // fail because the longer scan succeeded
        lemma_run_prefix_ok(a + b, Seq::empty());
    }
}

/// Per-byte classification: decoding a two-byte repetition classifies the
/// byte as a 6-bit value, as whitespace, or as invalid.
pub proof fn theorem_per_byte(b: u8)
    ensures
        is_symbol(b) ==> decode_model(seq![b, b]) == Result::<Seq<u8>, Error>::Ok(
            seq![join_b0(sym_value(b), sym_value(b))],
        ) && join_b0(sym_value(b), sym_value(b)) / 4 == sym_value(b),
        is_space(b) ==> decode_model(seq![b, b]) == Result::<Seq<u8>, Error>::Ok(
            Seq::<u8>::empty(),
        ),
        is_hard(b) ==> decode_model(seq![b, b]) is Err,
{
    let s = seq![b, b];
    assert(run(Seq::<u8>::empty()) == Result::<(Seq<u8>, Option<int>), int>::Ok(
        (Seq::empty(), Option::<int>::None),
    ));
    assert(Seq::<u8>::empty().push(b) =~= seq![b]);
    crate::model::lemma_run_snoc(Seq::<u8>::empty(), b);
    assert(seq![b].push(b) =~= s);
    crate::model::lemma_run_snoc(seq![b], b);
    if is_symbol(b) {
        let v = sym_value(b);
        assert(Seq::<u8>::empty().push(v).push(v) =~= seq![v, v]);
        assert(run(s) == Result::<(Seq<u8>, Option<int>), int>::Ok(
            (seq![v, v], Option::<int>::None),
        ));
        assert(seq![v, v].skip(4 - 2) =~= Seq::<u8>::empty());
        assert(decoded_bytes(seq![v, v]) =~= seq![join_b0(v, v)]);
    }
}

/// Padding discipline, first half: once a valid padding sequence has
/// begun, any non-whitespace byte other than the single permitted second
/// `=` makes the input invalid.
pub proof fn theorem_padding_terminal(s: Seq<u8>, x: u8)
    requires
        !is_space(x),
        match run(s) {
            Result::Ok((sy, t)) => t is Some,
            Result::Err(_) => false,
        },
        !(x == PAD_BYTE && run(s)->Ok_0.1 == Option::Some(1int)),
    ensures
        decode_model(s.push(x)) is Err,
{
    crate::model::lemma_run_snoc(s, x);
}

/// Padding discipline, second half: a symbol count of one modulo four can
/// never decode, whatever else the input holds.
pub proof fn theorem_length_discipline(s: Seq<u8>)
    requires
        match run(s) {
            Result::Ok((sy, t)) => sy.len() % 4 == 1,
            Result::Err(_) => false,
        },
    ensures
        decode_model(s) == Result::<Seq<u8>, Error>::Err(Error::InvalidLength),
{
}

/// Line wrapping: the wrapped output is the first `l` characters, the
/// newline token, and the wrap of the rest — so a newline follows every
/// `l` output characters, through trailing padding included — and a short
/// final line is emitted as it stands.
pub proof fn theorem_line_wrapping(c: Seq<u8>, l: int, nl: Seq<u8>)
    requires
        l >= 1,
    ensures
        c.len() <= l ==> wrapped(c, l, nl) == c,
        c.len() > l ==> wrapped(c, l, nl) == c.take(l) + nl + wrapped(c.skip(l), l, nl),
    decreases c.len(),
{
    if c.len() == 0 {
        assert(wrapped(c, l, nl) =~= c);
    } else {
        let n = c.len() - 1;
        let front = c.take(n);
        theorem_line_wrapping(front, l, nl);
        assert(front.len() == n);
        if c.len() <= l {
            // no break can fire below the line length
            assert(!(n % l == 0 && n > 0)) by {
                if n > 0 {
                    vstd::arithmetic::div_mod::lemma_small_mod(n as nat, l as nat);
                }
            }
            assert(wrapped(c, l, nl) =~= front + seq![c[n]]);
            assert(front + seq![c[n]] =~= c);
        } else if c.len() == l + 1 {
            // the first break appears exactly after the first line
            vstd::arithmetic::div_mod::lemma_mod_multiples_basic(1, l);
            assert(n % l == 0 && n > 0);
            assert(wrapped(front, l, nl) == front);
            assert(c.skip(l) =~= seq![c[n]]);
            assert(seq![c[n]].take(0) =~= Seq::<u8>::empty());
            assert(wrapped(Seq::<u8>::empty(), l, nl) == Seq::<u8>::empty());
            assert(wrapped(seq![c[n]], l, nl) =~= seq![c[n]]);
            assert(c.take(l) =~= front);
            assert(wrapped(c, l, nl) =~= c.take(l) + nl + wrapped(c.skip(l), l, nl));
        } else {
            // both sides append the same last character to the same tail
            let ct = c.skip(l);
            let ft = front.skip(l);
            assert(ct =~= ft.push(c[n]));
            crate::model::lemma_mod_offset(l, n - l, l);
            vstd::arithmetic::div_mod::lemma_mod_multiples_basic(1, l);
            assert((n - l) % l == n % l);
            let m = ct.len() - 1;
            assert(ct.take(m) =~= ft);
            assert(ct[m] == c[n]);
            assert(wrapped(ct, l, nl) == wrapped(ft, l, nl) + (if m % l == 0 && m > 0 {
                nl
            } else {
                Seq::<u8>::empty()
            }) + seq![c[n]]);
            assert(m == n - l);
            assert(m % l == 0 && m > 0 <==> n % l == 0 && n > l);
            assert(n > l);
            assert(front.take(l) =~= c.take(l));
            assert(wrapped(c, l, nl) =~= c.take(l) + nl + wrapped(c.skip(l), l, nl));
        }
    }
}

} // verus!
