//! Reading back what the encoder writes: DEFLATE decoding stated as spec
//! functions, and proofs that encoded data decodes to itself.
use crate::bits::{bit, bytes_bits, lemma_bit_shift, lsb_bits};
use crate::code_length_table::{canonical_bits, kraft_sum, lemma_canonical_decodes_uniquely};
use crate::code_length_symbol::{cl_body_ok, cl_expand, cl_step, lemma_cl_body_valid, CodeLengthSymbol};
use crate::code_length_table::{
    cl_bits, cl_freqs, cl_order, code_lengths, meta_lengths_bits, table_header_ok,
};
use crate::symbolize_code_length::rle;
use crate::deflate::{blocks_ok, padded, stream_ok};
use crate::dynamic_huffman::dynamic_block_ok;
use crate::dynamic_huffman::{body_bits, canonical_codes, dist_freqs, lit_freqs};
use crate::symbolize::greedy_parse;
use crate::symbol::{
    copy_back, is_block_of, dist_base, dist_code, dist_code_ok, dist_extra, lemma_dist_step, lemma_len_step,
    len_base, len_extra, length_code, length_code_ok, lz77_body_ok, lz77_decode, symbol_bits,
    symbol_code, Symbol, MAX_DISTANCE, MAX_LENGTH,
};
use vstd::arithmetic::power2::*;
use vstd::prelude::*;

verus! {

/// The number whose bits, least significant first, are `b`.
pub open spec fn bits_value(b: Seq<bool>) -> nat
    decreases b.len(),
{
    if b.len() == 0 {
        0
    } else {
        (if b[0] {
            1nat
        } else {
            0nat
        }) + 2 * bits_value(b.drop_first())
    }
}

/// Reading `n` bits written least significant first gives the value back.
pub proof fn lemma_bits_value(v: nat, n: nat)
    requires
        v < pow2(n),
    ensures
        bits_value(lsb_bits(v, n)) == v,
    decreases n,
{
    lemma2_to64();
    if n > 0 {
        lemma_pow2_unfold(n);
        assert forall|k: int| 0 <= k < n - 1 implies #[trigger] lsb_bits(v, n).drop_first()[k]
            == lsb_bits(v / 2, (n - 1) as nat)[k] by {
            lemma_bit_shift(v, 1, k as nat);
            assert(lsb_bits(v, n).drop_first()[k] == bit(v, (k + 1) as nat));
        }
        assert(lsb_bits(v, n).drop_first() =~= lsb_bits(v / 2, (n - 1) as nat));
        lemma_bits_value(v / 2, (n - 1) as nat);
        assert(lsb_bits(v, n)[0] == bit(v, 0));
        assert(v / pow2(0) == v);
    }
}

/// The canonical code of symbol `s` of `t` is at the front of `bits`.
pub open spec fn huff_match(t: Seq<u8>, bits: Seq<bool>, s: int) -> bool {
    &&& 0 <= s < t.len()
    &&& t[s] > 0
    &&& t[s] <= bits.len()
    &&& bits.take(t[s] as int) == canonical_bits(t, s)
}

/// Reads the code at the front of `bits` in the canonical code of `t`: the
/// symbol and the bits after its code.
pub open spec fn huff_decode(t: Seq<u8>, bits: Seq<bool>) -> Option<(int, Seq<bool>)> {
    if exists|s: int| huff_match(t, bits, s) {
        let s = choose|s: int| huff_match(t, bits, s);
        Some((s, bits.skip(t[s] as int)))
    } else {
        None
    }
}

/// Lengths of a code that can be read: at most fifteen bits, within the
/// Kraft inequality.
pub open spec fn table_ok(t: Seq<u8>) -> bool {
    &&& forall|k: int| 0 <= k < t.len() ==> t[k] <= 15
    &&& kraft_sum(t, 15) <= pow2(15)
}

/// The code of a used symbol reads back as that symbol.
pub proof fn lemma_huff_decode(t: Seq<u8>, s: int, rest: Seq<bool>)
    requires
        table_ok(t),
        0 <= s < t.len(),
        t[s] > 0,
    ensures
        huff_decode(t, canonical_bits(t, s) + rest) == Some((s, rest)),
{
    let bits = canonical_bits(t, s) + rest;
    assert(bits.take(t[s] as int) =~= canonical_bits(t, s));
    assert(huff_match(t, bits, s));
    let s2 = choose|s2: int| huff_match(t, bits, s2);
    lemma_canonical_decodes_uniquely(t, bits, s, s2);
    assert(bits.skip(t[s] as int) =~= rest);
}

/// Reads symbols in the codes `lit` and `dist` up to the end of the block,
/// extending `out`: the output and the bits after the block, or `None` where
/// the bits do not read as a block (or `fuel` symbols do not reach its end).
pub open spec fn inflate_body(
    bits: Seq<bool>,
    lit: Seq<u8>,
    dist: Seq<u8>,
    out: Seq<u8>,
    fuel: nat,
) -> Option<(Seq<u8>, Seq<bool>)>
    decreases fuel,
{
    if fuel == 0 {
        None
    } else {
        match huff_decode(lit, bits) {
            None => None,
            Some((c, r1)) => if c < 256 {
                inflate_body(r1, lit, dist, out.push(c as u8), (fuel - 1) as nat)
            } else if c == 256 {
                Some((out, r1))
            } else if c > 285 {
                None
            } else {
                let e = len_extra(c as nat);
                let length = len_base(c as nat) + bits_value(r1.take(e as int));
                let r2 = r1.skip(e as int);
                match huff_decode(dist, r2) {
                    None => None,
                    Some((dc, r3)) => {
                        let de = dist_extra(dc as nat);
                        let distance = dist_base(dc as nat) + bits_value(r3.take(de as int));
                        let r4 = r3.skip(de as int);
                        if dc > 29 || e > r1.len() || de > r3.len() || distance > out.len() {
                            None
                        } else {
                            inflate_body(r4, lit, dist, copy_back(out, distance, length), (fuel - 1) as nat)
                        }
                    },
                }
            },
        }
    }
}

pub proof fn lemma_body_bits_concat(a: Seq<Symbol>, b: Seq<Symbol>, lit: Seq<Seq<bool>>, dist: Seq<Seq<bool>>)
    ensures
        body_bits(a + b, lit, dist) == body_bits(a, lit, dist) + body_bits(b, lit, dist),
    decreases b.len(),
{
    if b.len() == 0 {
        assert(a + b =~= a);
        assert(body_bits(a, lit, dist) + body_bits(b, lit, dist) =~= body_bits(a, lit, dist));
    } else {
        lemma_body_bits_concat(a, b.drop_last(), lit, dist);
        assert((a + b).drop_last() =~= a + b.drop_last());
    }
}

/// Copying within the data written after `pre` does not depend on `pre`.
pub proof fn lemma_copy_back_prefix(pre: Seq<u8>, o: Seq<u8>, d: nat, l: nat)
    requires
        1 <= d <= o.len(),
    ensures
        copy_back(pre + o, d, l) == pre + copy_back(o, d, l),
        copy_back(o, d, l).len() == o.len() + l,
    decreases l,
{
    if l > 0 {
        lemma_copy_back_prefix(pre, o, d, (l - 1) as nat);
        let c = copy_back(o, d, (l - 1) as nat);
        assert((pre + c)[(pre + c).len() - d] == c[c.len() - d]);
        assert((pre + c).push(c[c.len() - d]) =~= pre + c.push(c[c.len() - d]));
    }
}

/// A prefix of a well-formed body is well formed, and the symbol after it
/// reads only what the prefix wrote.
pub proof fn lemma_body_ok_prefix(syms: Seq<Symbol>, k: int)
    requires
        lz77_body_ok(syms),
        0 <= k < syms.len(),
    ensures
        lz77_body_ok(syms.take(k)),
        crate::symbol::data_symbol_ok(lz77_decode(syms.take(k)), syms[k]),
    decreases syms.len(),
{
    if k == syms.len() - 1 {
        assert(syms.take(k) =~= syms.drop_last());
    } else {
        lemma_body_ok_prefix(syms.drop_last(), k);
        assert(syms.drop_last().take(k) =~= syms.take(k));
    }
}

/// The symbols of a block, written in the canonical codes of two tables,
/// read back as the bytes they stand for, after any earlier output `pre`.
#[verifier::rlimit(80)]
pub proof fn lemma_inflate_body(
    pre: Seq<u8>,
    done: Seq<Symbol>,
    remaining: Seq<Symbol>,
    lit: Seq<u8>,
    dist: Seq<u8>,
    rest: Seq<bool>,
    fuel: nat,
)
    requires
        table_ok(lit),
        table_ok(dist),
        lit.len() == 286,
        dist.len() == 30,
        remaining.len() >= 1,
        remaining.last() is EndOfBlock,
        lz77_body_ok(done + remaining.drop_last()),
        forall|k: int| 0 <= k < remaining.len() ==> lit[symbol_code(#[trigger] remaining[k]) as int] > 0,
        forall|k: int|
            0 <= k < remaining.len() ==> (#[trigger] remaining[k] matches Symbol::Reference { distance, .. }
                ==> dist[dist_code(distance as nat) as int] > 0),
        fuel >= remaining.len(),
    ensures
        inflate_body(
            body_bits(remaining, canonical_codes(lit), canonical_codes(dist)) + rest,
            lit,
            dist,
            pre + lz77_decode(done),
            fuel,
        ) == Some((pre + lz77_decode(done + remaining.drop_last()), rest)),
    decreases remaining.len(),
{
    let lc_ = canonical_codes(lit);
    let dc_ = canonical_codes(dist);
    let x = remaining[0];
    let tail = remaining.drop_first();
    let all = done + remaining.drop_last();
    assert(remaining =~= seq![x] + tail);
    lemma_body_bits_concat(seq![x], tail, lc_, dc_);
    assert(seq![x].drop_last() =~= Seq::<Symbol>::empty());
    assert(seq![x].last() == x);
    assert(body_bits(seq![x].drop_last(), lc_, dc_) =~= Seq::<bool>::empty());
    assert(body_bits(seq![x], lc_, dc_) == body_bits(seq![x].drop_last(), lc_, dc_) + symbol_bits(
        x,
        lc_,
        dc_,
    ));
    assert(body_bits(seq![x], lc_, dc_) =~= symbol_bits(x, lc_, dc_));
    let b = body_bits(tail, lc_, dc_) + rest;
    assert(body_bits(remaining, lc_, dc_) + rest =~= symbol_bits(x, lc_, dc_) + b);
    let out = pre + lz77_decode(done);
    assert(lit[symbol_code(remaining[0]) as int] > 0);
    if remaining.len() > 1 {
        lemma_body_ok_prefix(all, done.len() as int);
        assert(all[done.len() as int] == x);
        assert(all.take(done.len() as int) =~= done);
    }
    match x {
        Symbol::EndOfBlock => {
            assert(remaining.len() == 1) by {
                if remaining.len() > 1 {
                    assert(!(x is EndOfBlock));
                }
            }
            assert(tail =~= Seq::<Symbol>::empty());
            assert(b =~= rest);
            lemma_huff_decode(lit, 256, rest);
            assert(all =~= done);
        },
        Symbol::Literal(v) => {
            lemma_huff_decode(lit, v as int, b);
            let done2 = done.push(x);
            assert(done2.drop_last() =~= done);
            assert(pre + lz77_decode(done2) =~= out.push(v));
            lemma_inflate_rest(pre, done, remaining, lit, dist, rest, fuel);
        },
        Symbol::Reference { length, distance } => {
            assert(dist[dist_code(distance as nat) as int] > 0);
            lemma_inflate_reference(out, x, b, lit, dist, fuel);
            lemma_copy_back_prefix(pre, lz77_decode(done), distance as nat, length as nat);
            let done2 = done.push(x);
            assert(done2.drop_last() =~= done);
            lemma_inflate_rest(pre, done, remaining, lit, dist, rest, fuel);
        },
    }
}

/// After the first symbol of `remaining`, reading goes on as for the rest.
proof fn lemma_inflate_rest(
    pre: Seq<u8>,
    done: Seq<Symbol>,
    remaining: Seq<Symbol>,
    lit: Seq<u8>,
    dist: Seq<u8>,
    rest: Seq<bool>,
    fuel: nat,
)
    requires
        table_ok(lit),
        table_ok(dist),
        lit.len() == 286,
        dist.len() == 30,
        remaining.len() >= 2,
        remaining.last() is EndOfBlock,
        lz77_body_ok(done + remaining.drop_last()),
        forall|k: int| 0 <= k < remaining.len() ==> lit[symbol_code(#[trigger] remaining[k]) as int] > 0,
        forall|k: int|
            0 <= k < remaining.len() ==> (#[trigger] remaining[k] matches Symbol::Reference { distance, .. }
                ==> dist[dist_code(distance as nat) as int] > 0),
        fuel >= remaining.len(),
    ensures
        inflate_body(
            body_bits(remaining.drop_first(), canonical_codes(lit), canonical_codes(dist)) + rest,
            lit,
            dist,
            pre + lz77_decode(done.push(remaining[0])),
            (fuel - 1) as nat,
        ) == Some((pre + lz77_decode(done + remaining.drop_last()), rest)),
    decreases remaining.len(), 0nat,
{
    let tail = remaining.drop_first();
    let done2 = done.push(remaining[0]);
    assert(done2 + tail.drop_last() =~= done + remaining.drop_last());
    assert forall|k: int| 0 <= k < tail.len() implies lit[symbol_code(#[trigger] tail[k]) as int] > 0 by {
        assert(tail[k] == remaining[k + 1]);
    }
    assert forall|k: int| 0 <= k < tail.len() implies (#[trigger] tail[k] matches Symbol::Reference {
        distance,
        ..
    } ==> dist[dist_code(distance as nat) as int] > 0) by {
        assert(tail[k] == remaining[k + 1]);
    }
    lemma_inflate_body(pre, done2, tail, lit, dist, rest, (fuel - 1) as nat);
}

/// Reading a back-reference copies its bytes.
#[verifier::rlimit(80)]
proof fn lemma_inflate_reference(
    out: Seq<u8>,
    x: Symbol,
    b: Seq<bool>,
    lit: Seq<u8>,
    dist: Seq<u8>,
    fuel: nat,
)
    requires
        table_ok(lit),
        table_ok(dist),
        lit.len() == 286,
        dist.len() == 30,
        fuel >= 1,
        crate::symbol::data_symbol_ok(out, x),
        x is Reference,
        lit[symbol_code(x) as int] > 0,
        x matches Symbol::Reference { distance, .. } ==> dist[dist_code(distance as nat) as int] > 0,
    ensures
        x matches Symbol::Reference { length, distance } ==> inflate_body(
            symbol_bits(x, canonical_codes(lit), canonical_codes(dist)) + b,
            lit,
            dist,
            out,
            fuel,
        ) == inflate_body(b, lit, dist, copy_back(out, distance as nat, length as nat), (fuel - 1) as nat),
{
    if let Symbol::Reference { length, distance } = x {
        let lc_ = canonical_codes(lit);
        let dc_ = canonical_codes(dist);
        let l = length as nat;
        let d = distance as nat;
        lemma_length_code_exists(l);
        lemma_dist_code_exists(d);
        let lc = length_code(l);
        let dc = dist_code(d);
        let e = len_extra(lc);
        let de = dist_extra(dc);
        let e1 = lsb_bits((l - len_base(lc)) as nat, e);
        let e2 = lsb_bits((d - dist_base(dc)) as nat, de);
        assert(symbol_code(x) == lc);
        let r1 = e1 + (dc_[dc as int] + (e2 + b));
        assert(symbol_bits(x, lc_, dc_) + b =~= lc_[lc as int] + r1);
        lemma_huff_decode(lit, lc as int, r1);
        assert(r1.take(e as int) =~= e1);
        lemma_bits_value((l - len_base(lc)) as nat, e);
        let r2 = dc_[dc as int] + (e2 + b);
        assert(r1.skip(e as int) =~= r2);
        lemma_huff_decode(dist, dc as int, e2 + b);
        let r3 = e2 + b;
        assert(r3.take(de as int) =~= e2);
        assert(r3.skip(de as int) =~= b);
        lemma_bits_value((d - dist_base(dc)) as nat, de);
    }
}

/// Reads code-length symbols in the canonical code of `meta` until `out`
/// holds `count` lengths: the lengths and the bits after them.
pub open spec fn inflate_lengths(
    bits: Seq<bool>,
    meta: Seq<u8>,
    out: Seq<u8>,
    count: nat,
    fuel: nat,
) -> Option<(Seq<u8>, Seq<bool>)>
    decreases fuel,
{
    if out.len() == count {
        Some((out, bits))
    } else if out.len() > count || fuel == 0 {
        None
    } else {
        match huff_decode(meta, bits) {
            None => None,
            Some((c, r1)) => if c < 16 {
                inflate_lengths(r1, meta, out.push(c as u8), count, (fuel - 1) as nat)
            } else if c == 16 {
                if out.len() == 0 || r1.len() < 2 {
                    None
                } else {
                    let n = 3 + bits_value(r1.take(2));
                    inflate_lengths(
                        r1.skip(2),
                        meta,
                        out + Seq::new(n, |k: int| out.last()),
                        count,
                        (fuel - 1) as nat,
                    )
                }
            } else if c == 17 {
                if r1.len() < 3 {
                    None
                } else {
                    let n = 3 + bits_value(r1.take(3));
                    inflate_lengths(r1.skip(3), meta, out + Seq::new(n, |k: int| 0u8), count, (fuel - 1) as nat)
                }
            } else if c == 18 {
                if r1.len() < 7 {
                    None
                } else {
                    let n = 11 + bits_value(r1.take(7));
                    inflate_lengths(r1.skip(7), meta, out + Seq::new(n, |k: int| 0u8), count, (fuel - 1) as nat)
                }
            } else {
                None
            },
        }
    }
}

pub proof fn lemma_cl_bits_concat(a: Seq<CodeLengthSymbol>, b: Seq<CodeLengthSymbol>, meta: Seq<u8>)
    ensures
        cl_bits(a + b, meta) == cl_bits(a, meta) + cl_bits(b, meta),
    decreases b.len(),
{
    if b.len() == 0 {
        assert(a + b =~= a);
        assert(cl_bits(a, meta) + cl_bits(b, meta) =~= cl_bits(a, meta));
    } else {
        lemma_cl_bits_concat(a, b.drop_last(), meta);
        assert((a + b).drop_last() =~= a + b.drop_last());
    }
}

/// Facts about the prefixes of a well-formed code-length sequence: each
/// next symbol can be sent, a copy has something before it, and every
/// symbol adds at least one length.
pub proof fn lemma_cl_prefix(s: Seq<CodeLengthSymbol>, k: int)
    requires
        cl_body_ok(s),
        0 <= k < s.len(),
    ensures
        cl_body_ok(s.take(k)),
        s[k].is_valid(),
        s[k] is CopyPrevious ==> cl_expand(s.take(k)).len() > 0,
        cl_expand(s.take(k + 1)) == cl_step(cl_expand(s.take(k)), s[k]),
        cl_expand(s).len() >= cl_expand(s.take(k)).len() + (s.len() - k),
    decreases s.len(),
{
    if k == s.len() - 1 {
        assert(s.take(k) =~= s.drop_last());
        assert(s.take(k + 1) =~= s);
    } else {
        lemma_cl_prefix(s.drop_last(), k);
        assert(s.drop_last().take(k) =~= s.take(k));
        assert(s.drop_last().take(k + 1) =~= s.take(k + 1));
    }
}

/// Code-length symbols sent in the canonical code of `meta` read back as
/// the lengths they stand for.
#[verifier::rlimit(80)]
pub proof fn lemma_inflate_lengths(
    done: Seq<CodeLengthSymbol>,
    remaining: Seq<CodeLengthSymbol>,
    meta: Seq<u8>,
    rest: Seq<bool>,
    count: nat,
    fuel: nat,
)
    requires
        table_ok(meta),
        meta.len() == 19,
        cl_body_ok(done + remaining),
        count == cl_expand(done + remaining).len(),
        forall|k: int| 0 <= k < remaining.len() ==> meta[(#[trigger] remaining[k]).code_spec() as int] > 0,
        fuel >= remaining.len(),
    ensures
        inflate_lengths(cl_bits(remaining, meta) + rest, meta, cl_expand(done), count, fuel) == Some(
            (cl_expand(done + remaining), rest),
        ),
    decreases remaining.len(),
{
    let all = done + remaining;
    if remaining.len() == 0 {
        assert(all =~= done);
        assert(cl_bits(remaining, meta) + rest =~= rest);
    } else {
        let x = remaining[0];
        let tail = remaining.drop_first();
        let k = done.len() as int;
        lemma_cl_prefix(all, k);
        assert(all.take(k) =~= done);
        assert(all[k] == x);
        let done2 = done.push(x);
        assert(all.take(k + 1) =~= done2);
        assert(done2 + tail =~= all);
        assert(remaining =~= seq![x] + tail);
        lemma_cl_bits_concat(seq![x], tail, meta);
        assert(seq![x].drop_last() =~= Seq::<CodeLengthSymbol>::empty());
        assert(seq![x].last() == x);
        assert(cl_bits(seq![x].drop_last(), meta) =~= Seq::<bool>::empty());
        let code = canonical_bits(meta, x.code_spec() as int);
        let extra = lsb_bits(x.extra_spec().0, x.extra_spec().1);
        assert(cl_bits(seq![x], meta) =~= code + extra);
        let b = cl_bits(tail, meta) + rest;
        assert(cl_bits(remaining, meta) + rest =~= code + (extra + b));
        assert(meta[x.code_spec() as int] > 0);
        lemma_huff_decode(meta, x.code_spec() as int, extra + b);
        let w = x.extra_spec().1;
        assert((extra + b).take(w as int) =~= extra);
        assert((extra + b).skip(w as int) =~= b);
        lemma2_to64();
        assert forall|j: int| 0 <= j < tail.len() implies meta[(#[trigger] tail[j]).code_spec() as int] > 0 by {
            assert(tail[j] == remaining[j + 1]);
        }
        match x {
            CodeLengthSymbol::Literal(l) => {
                assert(extra =~= Seq::<bool>::empty());
            },
            CodeLengthSymbol::CopyPrevious(n) => {
                lemma_bits_value((n - 3) as nat, 2);
            },
            CodeLengthSymbol::RepeatZero(n) => {
                if n < 11 {
                    lemma_bits_value((n - 3) as nat, 3);
                } else {
                    lemma_bits_value((n - 11) as nat, 7);
                }
            },
        }
        lemma_inflate_lengths(done2, tail, meta, rest, count, (fuel - 1) as nat);
    }
}

/// The code lengths of the fixed literal/length code.
pub open spec fn fixed_lit_lengths() -> Seq<u8> {
    Seq::new(
        288,
        |i: int|
            if i < 144 {
                8u8
            } else if i < 256 {
                9u8
            } else if i < 280 {
                7u8
            } else {
                8u8
            },
    )
}

/// The code lengths of the fixed distance code.
pub open spec fn fixed_dist_lengths() -> Seq<u8> {
    Seq::new(30, |i: int| 5u8)
}

/// Where the length of each symbol of the code-length alphabet is sent, in
/// three-bit fields after the counts.
pub open spec fn cl_order_inv() -> Seq<int> {
    seq![3, 17, 15, 13, 11, 9, 7, 5, 4, 6, 8, 10, 12, 14, 16, 18, 0, 1, 2]
}

/// The code-length code read from the first `n` three-bit fields of `bits`.
pub open spec fn read_meta(bits: Seq<bool>, n: nat) -> Seq<u8> {
    Seq::new(
        19,
        |i: int|
            {
                let k = cl_order_inv()[i];
                if k < n {
                    bits_value(bits.subrange(3 * k, 3 * k + 3)) as u8
                } else {
                    0u8
                }
            },
    )
}

/// Reads one block after the output `out`: whether it is the last one, the
/// output after it, and the bits after it.
pub open spec fn inflate_block(bits: Seq<bool>, out: Seq<u8>) -> Option<(bool, Seq<u8>, Seq<bool>)> {
    if bits.len() < 3 {
        None
    } else {
        let last = bits[0];
        let btype = bits_value(bits.subrange(1, 3));
        let r = bits.skip(3);
        if btype == 2 {
            if r.len() < 14 {
                None
            } else {
                let hlit = bits_value(r.take(5)) + 257;
                let hdist = bits_value(r.subrange(5, 10)) + 1;
                let hclen = bits_value(r.subrange(10, 14)) + 4;
                let r2 = r.skip(14);
                if r2.len() < 3 * hclen {
                    None
                } else {
                    let meta = read_meta(r2, hclen);
                    let r3 = r2.skip((3 * hclen) as int);
                    match inflate_lengths(r3, meta, Seq::empty(), hlit + hdist, r3.len()) {
                        None => None,
                        Some((lengths, r4)) => match inflate_body(
                            r4,
                            lengths.take(hlit as int),
                            lengths.skip(hlit as int),
                            out,
                            r4.len(),
                        ) {
                            None => None,
                            Some((o, r5)) => Some((last, o, r5)),
                        },
                    }
                }
            }
        } else if btype == 1 {
            match inflate_body(r, fixed_lit_lengths(), fixed_dist_lengths(), out, r.len()) {
                None => None,
                Some((o, r5)) => Some((last, o, r5)),
            }
        } else {
            None
        }
    }
}

proof fn lemma_cl_order_inv()
    ensures
        forall|i: int| 0 <= i < 19 ==> 0 <= #[trigger] cl_order_inv()[i] < 19 && cl_order()[cl_order_inv()[i]] == i,
{
    assert forall|i: int| 0 <= i < 19 implies 0 <= #[trigger] cl_order_inv()[i] < 19 && cl_order()[cl_order_inv()[i]] == i by {
        if i == 0 {} else if i == 1 {} else if i == 2 {} else if i == 3 {} else if i == 4 {} else if i == 5 {} else if i == 6 {} else if i == 7 {} else if i == 8 {} else if i == 9 {} else if i == 10 {} else if i == 11 {} else if i == 12 {} else if i == 13 {} else if i == 14 {} else if i == 15 {} else if i == 16 {} else if i == 17 {} else {}
    }
}

proof fn lemma_meta_lengths_bits(meta: Seq<u8>, n: int)
    requires
        0 <= n <= 19,
        meta.len() == 19,
    ensures
        meta_lengths_bits(meta, n).len() == 3 * n,
        forall|k: int|
            0 <= k < n ==> #[trigger] meta_lengths_bits(meta, n).subrange(3 * k, 3 * k + 3) == lsb_bits(
                meta[cl_order()[k]] as nat,
                3,
            ),
    decreases n,
{
    if n > 0 {
        lemma_meta_lengths_bits(meta, n - 1);
        let prev = meta_lengths_bits(meta, n - 1);
        let cur = meta_lengths_bits(meta, n);
        assert forall|k: int| 0 <= k < n implies #[trigger] cur.subrange(3 * k, 3 * k + 3) == lsb_bits(
            meta[cl_order()[k]] as nat,
            3,
        ) by {
            if k < n - 1 {
                assert(cur.subrange(3 * k, 3 * k + 3) =~= prev.subrange(3 * k, 3 * k + 3));
            } else {
                assert(cur.subrange(3 * k, 3 * k + 3) =~= lsb_bits(meta[cl_order()[k]] as nat, 3));
            }
        }
    }
}

/// The code-length code sent in a header reads back.
pub proof fn lemma_read_meta(meta: Seq<u8>, rest: Seq<bool>)
    requires
        meta.len() == 19,
        forall|k: int| 0 <= k < 19 ==> meta[k] <= 7,
    ensures
        read_meta(meta_lengths_bits(meta, 19) + rest, 19) == meta,
{
    lemma_meta_lengths_bits(meta, 19);
    lemma_cl_order_inv();
    lemma2_to64();
    let bits = meta_lengths_bits(meta, 19) + rest;
    assert forall|i: int| 0 <= i < 19 implies #[trigger] read_meta(bits, 19)[i] == meta[i] by {
        let k = cl_order_inv()[i];
        assert(bits.subrange(3 * k, 3 * k + 3) =~= meta_lengths_bits(meta, 19).subrange(3 * k, 3 * k + 3));
        lemma_bits_value(meta[i] as nat, 3);
    }
    assert(read_meta(bits, 19) =~= meta);
}

proof fn lemma_body_bits_len(syms: Seq<Symbol>, lit: Seq<u8>, dist: Seq<u8>)
    requires
        lit.len() == 286,
        forall|k: int| 0 <= k < syms.len() ==> (#[trigger] syms[k]).is_valid(),
        forall|k: int| 0 <= k < syms.len() ==> lit[symbol_code(#[trigger] syms[k]) as int] > 0,
    ensures
        body_bits(syms, canonical_codes(lit), canonical_codes(dist)).len() >= syms.len(),
    decreases syms.len(),
{
    if syms.len() > 0 {
        let x = syms.last();
        assert(x == syms[syms.len() - 1]);
        assert forall|k: int| 0 <= k < syms.len() - 1 implies (#[trigger] syms.drop_last()[k]).is_valid()
            && lit[symbol_code(syms.drop_last()[k]) as int] > 0 by {
            assert(syms.drop_last()[k] == syms[k]);
        }
        lemma_body_bits_len(syms.drop_last(), lit, dist);
        if let Symbol::Reference { length, distance } = x {
            lemma_length_code_exists(length as nat);
        }
        assert(symbol_code(x) < 286);
        assert(canonical_codes(lit)[symbol_code(x) as int].len() == lit[symbol_code(x) as int]);
    }
}

proof fn lemma_cl_bits_len(cls: Seq<CodeLengthSymbol>, meta: Seq<u8>)
    requires
        meta.len() == 19,
        forall|k: int| 0 <= k < cls.len() ==> (#[trigger] cls[k]).is_valid(),
        forall|k: int| 0 <= k < cls.len() ==> meta[(#[trigger] cls[k]).code_spec() as int] > 0,
    ensures
        cl_bits(cls, meta).len() >= cls.len(),
    decreases cls.len(),
{
    if cls.len() > 0 {
        let x = cls.last();
        assert(x == cls[cls.len() - 1]);
        assert forall|k: int| 0 <= k < cls.len() - 1 implies (#[trigger] cls.drop_last()[k]).is_valid()
            && meta[cls.drop_last()[k].code_spec() as int] > 0 by {
            assert(cls.drop_last()[k] == cls[k]);
        }
        lemma_cl_bits_len(cls.drop_last(), meta);
    }
}

/// A dynamic block written by the encoder reads back as its data, after
/// any earlier output.
#[verifier::rlimit(80)]
pub proof fn lemma_inflate_dynamic_block(
    blk: Seq<bool>,
    data: Seq<u8>,
    last: bool,
    pre: Seq<u8>,
    rest: Seq<bool>,
)
    requires
        dynamic_block_ok(blk, data, last),
    ensures
        inflate_block(blk + rest, pre) == Some((last, pre + data, rest)),
{
    let (syms, lit, dist, hdr) = choose|syms: Seq<Symbol>, lit: Seq<u8>, dist: Seq<u8>, hdr: Seq<bool>|
        {
            &&& is_block_of(syms, data)
            &&& syms == greedy_parse(data)
            &&& lit == code_lengths(lit_freqs(syms), 15)
            &&& dist == code_lengths(dist_freqs(syms), 15)
            &&& lit.len() == 286
            &&& dist.len() == 30
            &&& forall|c: int| 0 <= c < 286 ==> lit[c] <= 15
            &&& forall|c: int| 0 <= c < 30 ==> dist[c] <= 15
            &&& kraft_sum(lit, 15) == pow2(15)
            &&& kraft_sum(dist, 15) <= pow2(15)
            &&& forall|k: int| 0 <= k < syms.len() ==> lit[symbol_code(#[trigger] syms[k]) as int] > 0
            &&& forall|k: int|
                0 <= k < syms.len() ==> (#[trigger] syms[k] matches Symbol::Reference { distance, .. }
                    ==> dist[dist_code(distance as nat) as int] > 0)
            &&& table_header_ok(hdr, lit, dist)
            &&& blk == seq![last, false, true] + hdr + body_bits(
                syms,
                canonical_codes(lit),
                canonical_codes(dist),
            )
        };
    let (cls, meta) = choose|cls: Seq<CodeLengthSymbol>, meta: Seq<u8>|
        {
            &&& cls == rle(lit + dist)
            &&& meta == code_lengths(cl_freqs(cls), 7)
            &&& cl_body_ok(cls)
            &&& cl_expand(cls) == lit + dist
            &&& meta.len() == 19
            &&& forall|k: int| 0 <= k < 19 ==> meta[k] <= 7
            &&& kraft_sum(meta, 7) == pow2(7)
            &&& forall|k: int| 0 <= k < cls.len() ==> meta[#[trigger] cls[k].code_spec() as int] > 0
            &&& hdr == lsb_bits((lit.len() - 257) as nat, 5) + lsb_bits((dist.len() - 1) as nat, 5)
                + lsb_bits(15, 4) + meta_lengths_bits(meta, 19) + cl_bits(cls, meta)
        };
    assert(lit.len() - 257 == 29 && dist.len() - 1 == 30 - 1);
    assert(blk + rest =~= seq![last, false, true] + (lsb_bits(29, 5) + lsb_bits(29, 5) + lsb_bits(
        15,
        4,
    ) + meta_lengths_bits(meta, 19) + cl_bits(cls, meta)) + body_bits(
        syms,
        canonical_codes(lit),
        canonical_codes(dist),
    ) + rest);
    lemma_pow2_pos(15);
    lemma_inflate_dynamic_parts(syms, lit, dist, cls, meta, last, pre, rest);
}

#[verifier::rlimit(80)]
proof fn lemma_inflate_dynamic_parts(
    syms: Seq<Symbol>,
    lit: Seq<u8>,
    dist: Seq<u8>,
    cls: Seq<CodeLengthSymbol>,
    meta: Seq<u8>,
    last: bool,
    pre: Seq<u8>,
    rest: Seq<bool>,
)
    requires
        syms.len() >= 1,
        syms.last() is EndOfBlock,
        lz77_body_ok(syms.drop_last()),
        lit.len() == 286,
        dist.len() == 30,
        table_ok(lit),
        table_ok(dist),
        forall|k: int| 0 <= k < syms.len() ==> lit[symbol_code(#[trigger] syms[k]) as int] > 0,
        forall|k: int|
            0 <= k < syms.len() ==> (#[trigger] syms[k] matches Symbol::Reference { distance, .. }
                ==> dist[dist_code(distance as nat) as int] > 0),
        cl_body_ok(cls),
        cl_expand(cls) == lit + dist,
        meta.len() == 19,
        forall|k: int| 0 <= k < 19 ==> meta[k] <= 7,
        kraft_sum(meta, 7) == pow2(7),
        forall|k: int| 0 <= k < cls.len() ==> meta[#[trigger] cls[k].code_spec() as int] > 0,
    ensures
        inflate_block(
            seq![last, false, true] + (lsb_bits(29, 5) + lsb_bits(29, 5) + lsb_bits(15, 4)
                + meta_lengths_bits(meta, 19) + cl_bits(cls, meta)) + body_bits(
                syms,
                canonical_codes(lit),
                canonical_codes(dist),
            ) + rest,
            pre,
        ) == Some((last, pre + lz77_decode(syms.drop_last()), rest)),
{
    let body = body_bits(syms, canonical_codes(lit), canonical_codes(dist));
    let hdr = lsb_bits(29, 5) + lsb_bits(29, 5) + lsb_bits(15, 4) + meta_lengths_bits(meta, 19)
        + cl_bits(cls, meta);
    let bits = seq![last, false, true] + hdr + body + rest;
    let r = hdr + (body + rest);
    assert(bits =~= seq![last, false, true] + r);
    lemma_block_type(bits, r, last);
    assert(r =~= lsb_bits(29, 5) + lsb_bits(29, 5) + lsb_bits(15, 4) + meta_lengths_bits(meta, 19)
        + cl_bits(cls, meta) + (body + rest));
    lemma_read_header(cls, meta, lit, dist, body + rest);
    assert((lit + dist).take(286) =~= lit);
    assert((lit + dist).skip(286) =~= dist);
    crate::symbol::lemma_body_valid(syms.drop_last());
    assert forall|k: int| 0 <= k < syms.len() implies (#[trigger] syms[k]).is_valid() by {
        if k < syms.len() - 1 {
            assert(syms[k] == syms.drop_last()[k]);
        }
    }
    lemma_body_bits_len(syms, lit, dist);
    assert(Seq::<Symbol>::empty() + syms.drop_last() =~= syms.drop_last());
    assert(lz77_decode(Seq::<Symbol>::empty()) =~= Seq::<u8>::empty());
    assert(pre + Seq::<u8>::empty() =~= pre);
    lemma_inflate_body(pre, Seq::empty(), syms, lit, dist, rest, (body + rest).len());
}

proof fn lemma_block_type(bits: Seq<bool>, r: Seq<bool>, last: bool)
    requires
        bits == seq![last, false, true] + r,
    ensures
        bits.len() >= 3,
        bits[0] == last,
        bits_value(bits.subrange(1, 3)) == 2,
        bits.skip(3) == r,
{
    let t = bits.subrange(1, 3);
    assert(t =~= seq![false, true]);
    assert(t.drop_first() =~= seq![true]);
    assert(t.drop_first().drop_first() =~= Seq::<bool>::empty());
    assert(bits_value(t.drop_first().drop_first()) == 0);
    assert(bits_value(t.drop_first()) == 1);
    assert(bits.skip(3) =~= r);
}

/// The header of a dynamic block reads back as its tables.
#[verifier::rlimit(80)]
proof fn lemma_read_header(
    cls: Seq<CodeLengthSymbol>,
    meta: Seq<u8>,
    lit: Seq<u8>,
    dist: Seq<u8>,
    tail: Seq<bool>,
)
    requires
        lit.len() == 286,
        dist.len() == 30,
        cl_body_ok(cls),
        cl_expand(cls) == lit + dist,
        meta.len() == 19,
        forall|k: int| 0 <= k < 19 ==> meta[k] <= 7,
        kraft_sum(meta, 7) == pow2(7),
        forall|k: int| 0 <= k < cls.len() ==> meta[#[trigger] cls[k].code_spec() as int] > 0,
    ensures
        ({
            let r = lsb_bits(29, 5) + lsb_bits(29, 5) + lsb_bits(15, 4) + meta_lengths_bits(meta, 19)
                + cl_bits(cls, meta) + tail;
            let r2 = r.skip(14);
            let r3 = r2.skip(57);
            &&& r.len() >= 14
            &&& bits_value(r.take(5)) == 29
            &&& bits_value(r.subrange(5, 10)) == 29
            &&& bits_value(r.subrange(10, 14)) == 15
            &&& r2.len() >= 57
            &&& read_meta(r2, 19) == meta
            &&& inflate_lengths(r3, meta, Seq::empty(), 316, r3.len()) == Some((lit + dist, tail))
        }),
{
    lemma2_to64();
    let h1 = lsb_bits(29, 5);
    let h3 = lsb_bits(15, 4);
    let m = meta_lengths_bits(meta, 19);
    let c = cl_bits(cls, meta);
    lemma_meta_lengths_bits(meta, 19);
    let r = h1 + h1 + h3 + m + c + tail;
    assert(r.take(5) =~= h1);
    assert(r.subrange(5, 10) =~= h1);
    assert(r.subrange(10, 14) =~= h3);
    lemma_bits_value(29, 5);
    lemma_bits_value(15, 4);
    let r2 = m + (c + tail);
    assert(r.skip(14) =~= r2);
    lemma_read_meta(meta, c + tail);
    let r3 = c + tail;
    assert(r2.skip(57) =~= r3);
    lemma_cl_body_valid(cls);
    lemma_cl_bits_len(cls, meta);
    assert(Seq::<CodeLengthSymbol>::empty() + cls =~= cls);
    assert(cl_expand(Seq::<CodeLengthSymbol>::empty()) =~= Seq::<u8>::empty());
    lemma_pow2_strictly_increases(7, 15);
    crate::code_length_table::lemma_kraft_sum_scale(meta, 7, 15);
    lemma_pow2_adds(7, 8);
    assert(table_ok(meta));
    lemma_inflate_lengths(Seq::empty(), cls, meta, tail, 316, r3.len());
}

/// Reads blocks after the output `out` up to the last one: the output.
pub open spec fn inflate_blocks(bits: Seq<bool>, out: Seq<u8>, fuel: nat) -> Option<Seq<u8>>
    decreases fuel,
{
    if fuel == 0 {
        None
    } else {
        match inflate_block(bits, out) {
            None => None,
            Some((last, o, r)) => if last {
                Some(o)
            } else {
                inflate_blocks(r, o, (fuel - 1) as nat)
            },
        }
    }
}

/// The bytes that a DEFLATE stream stands for, or `None` where it does not
/// read as one; bits after the last block are ignored.
pub open spec fn inflate(bytes: Seq<u8>) -> Option<Seq<u8>> {
    inflate_blocks(bytes_bits(bytes), Seq::empty(), bytes_bits(bytes).len())
}

proof fn lemma_flatten_len(blks: Seq<Seq<bool>>, chunks: Seq<Seq<u8>>)
    requires
        blocks_ok(blks, chunks),
    ensures
        blks.flatten().len() >= blks.len(),
    decreases blks.len(),
{
    if blks.len() > 0 {
        assert(dynamic_block_ok(blks[0], chunks[0], false));
        assert(blocks_ok(blks.drop_first(), chunks.drop_first())) by {
            assert forall|k: int| 0 <= k < blks.drop_first().len() implies dynamic_block_ok(
                #[trigger] blks.drop_first()[k],
                chunks.drop_first()[k],
                false,
            ) by {
                assert(dynamic_block_ok(blks[k + 1], chunks[k + 1], false));
            }
        }
        lemma_flatten_len(blks.drop_first(), chunks.drop_first());
    }
}

/// Blocks for consecutive chunks, then an empty last block, read back as
/// the chunks one after the other.
pub proof fn lemma_inflate_blocks(
    blks: Seq<Seq<bool>>,
    chunks: Seq<Seq<u8>>,
    fin: Seq<bool>,
    pre: Seq<u8>,
    rest: Seq<bool>,
    fuel: nat,
)
    requires
        blocks_ok(blks, chunks),
        dynamic_block_ok(fin, Seq::<u8>::empty(), true),
        fuel > blks.len(),
    ensures
        inflate_blocks(blks.flatten() + fin + rest, pre, fuel) == Some(pre + chunks.flatten()),
    decreases blks.len(),
{
    if blks.len() == 0 {
        assert(blks.flatten() + fin + rest =~= fin + rest);
        lemma_inflate_dynamic_block(fin, Seq::<u8>::empty(), true, pre, rest);
        assert(pre + Seq::<u8>::empty() =~= pre);
        assert(pre + chunks.flatten() =~= pre);
    } else {
        let tail = blks.drop_first().flatten() + fin + rest;
        assert(blks.flatten() + fin + rest =~= blks[0] + tail);
        assert(dynamic_block_ok(blks[0], chunks[0], false));
        lemma_inflate_dynamic_block(blks[0], chunks[0], false, pre, tail);
        assert(blocks_ok(blks.drop_first(), chunks.drop_first())) by {
            assert forall|k: int| 0 <= k < blks.drop_first().len() implies dynamic_block_ok(
                #[trigger] blks.drop_first()[k],
                chunks.drop_first()[k],
                false,
            ) by {
                assert(dynamic_block_ok(blks[k + 1], chunks[k + 1], false));
            }
        }
        lemma_inflate_blocks(
            blks.drop_first(),
            chunks.drop_first(),
            fin,
            pre + chunks[0],
            rest,
            (fuel - 1) as nat,
        );
        assert(pre + chunks[0] + chunks.drop_first().flatten() =~= pre + chunks.flatten());
    }
}

/// Two blocks written one after the other, for `a` and then `b`, followed
/// by an empty last block and padding, read back as `a` followed by `b`:
/// the bits carried between blocks are joined without realignment.
#[verifier::rlimit(80)]
pub proof fn lemma_two_chunks(
    out: Seq<u8>,
    blk_a: Seq<bool>,
    blk_b: Seq<bool>,
    fin: Seq<bool>,
    a: Seq<u8>,
    b: Seq<u8>,
)
    requires
        dynamic_block_ok(blk_a, a, false),
        dynamic_block_ok(blk_b, b, false),
        dynamic_block_ok(fin, Seq::<u8>::empty(), true),
        padded(bytes_bits(out), blk_a + blk_b + fin),
    ensures
        inflate(out) == Some(a + b),
{
    let blks = seq![blk_a, blk_b];
    let chunks = seq![a, b];
    assert(blocks_ok(blks, chunks)) by {
        assert forall|k: int| 0 <= k < blks.len() implies dynamic_block_ok(
            #[trigger] blks[k],
            chunks[k],
            false,
        ) by {
            if k == 0 {
                assert(blks[k] == blk_a && chunks[k] == a);
            } else {
                assert(blks[k] == blk_b && chunks[k] == b);
            }
        }
    }
    assert(blks.drop_first().drop_first() =~= Seq::<Seq<bool>>::empty());
    assert(blks.drop_first().drop_first().flatten() == Seq::<bool>::empty());
    assert(blks.drop_first().first() == blk_b);
    assert(blks.drop_first().flatten() == blk_b + blks.drop_first().drop_first().flatten());
    assert(blks.first() == blk_a);
    assert(blks.flatten() == blk_a + blks.drop_first().flatten());
    assert(blks.flatten() =~= blk_a + blk_b);
    assert(chunks.drop_first().drop_first() =~= Seq::<Seq<u8>>::empty());
    assert(chunks.drop_first().drop_first().flatten() == Seq::<u8>::empty());
    assert(chunks.drop_first().first() == b);
    assert(chunks.drop_first().flatten() == b + chunks.drop_first().drop_first().flatten());
    assert(chunks.first() == a);
    assert(chunks.flatten() == a + chunks.drop_first().flatten());
    assert(chunks.flatten() =~= a + b);
    let bits = bytes_bits(out);
    let y = blk_a + blk_b + fin;
    let rest = Seq::new((bits.len() - y.len()) as nat, |k: int| false);
    assert(bits =~= blks.flatten() + fin + rest);
    lemma_flatten_len(blks, chunks);
    lemma_inflate_blocks(blks, chunks, fin, Seq::empty(), rest, bits.len());
    assert(Seq::<u8>::empty() + (a + b) =~= a + b);
}

/// A stream for `data` reads back as `data`.
#[verifier::rlimit(80)]
pub proof fn lemma_stream_round_trip(out: Seq<u8>, data: Seq<u8>)
    requires
        stream_ok(out, data),
    ensures
        inflate(out) == Some(data),
{
    let (chunks, blks, fin) = choose|chunks: Seq<Seq<u8>>, blks: Seq<Seq<bool>>, fin: Seq<bool>|
        #![trigger blocks_ok(blks, chunks), dynamic_block_ok(fin, Seq::<u8>::empty(), true)]
        {
            &&& blocks_ok(blks, chunks)
            &&& dynamic_block_ok(fin, Seq::<u8>::empty(), true)
            &&& chunks.flatten_alt() == data
            &&& padded(bytes_bits(out), blks.flatten_alt() + fin)
        };
    blks.lemma_flatten_and_flatten_alt_are_equivalent();
    chunks.lemma_flatten_and_flatten_alt_are_equivalent();
    let bits = bytes_bits(out);
    let y = blks.flatten() + fin;
    let rest = Seq::new((bits.len() - y.len()) as nat, |k: int| false);
    assert(bits =~= blks.flatten() + fin + rest);
    lemma_flatten_len(blks, chunks);
    lemma_inflate_blocks(blks, chunks, fin, Seq::empty(), rest, bits.len());
    assert(Seq::<u8>::empty() + chunks.flatten() =~= data);
}

proof fn lemma_len_cover(c: nat, l: nat)
    requires
        257 <= c <= 284,
        3 <= l < 258,
        l < len_base(c) + pow2(len_extra(c)),
    ensures
        exists|c2: nat| length_code_ok(c2, l),
    decreases c,
{
    if l >= len_base(c) {
        assert(length_code_ok(c, l));
    } else {
        lemma_len_step((c - 1) as nat);
        lemma_len_cover((c - 1) as nat, l);
    }
}

/// Every length the format allows has its code.
pub proof fn lemma_length_code_exists(l: nat)
    requires
        3 <= l <= MAX_LENGTH,
    ensures
        length_code_ok(length_code(l), l),
{
    lemma2_to64();
    if l == 258 {
        assert(length_code_ok(285, l));
    } else {
        assert(len_extra(284) == 5);
        assert(len_base(284) == 227);
        lemma_len_cover(284, l);
    }
}

proof fn lemma_dist_cover(c: nat, d: nat)
    requires
        c <= 29,
        1 <= d < dist_base(c) + pow2(dist_extra(c)),
    ensures
        exists|c2: nat| dist_code_ok(c2, d),
    decreases c,
{
    lemma2_to64();
    if d >= dist_base(c) {
        assert(dist_code_ok(c, d));
    } else {
        lemma_dist_step((c - 1) as nat);
        lemma_dist_cover((c - 1) as nat, d);
    }
}

/// Every distance the format allows has its code.
pub proof fn lemma_dist_code_exists(d: nat)
    requires
        1 <= d <= MAX_DISTANCE,
    ensures
        dist_code_ok(dist_code(d), d),
{
    lemma2_to64();
    assert(dist_extra(29) == 13);
    assert(dist_base(29) == 24577);
    lemma_dist_cover(29, d);
}

} // verus!
