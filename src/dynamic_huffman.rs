//! The block assembler: one dynamic-Huffman block for a run of bytes.
use crate::bits::Bits;
use crate::bits::lsb_bits;
use crate::code_length_symbol::{cl_body_ok, cl_expand, CodeLengthSymbol};
use crate::code_length_table::{
    canonical_bits, cl_bits, cl_freqs, code_lengths, kraft_sum, lemma_used_count_pos,
    meta_lengths_bits, table_header_ok, CodeLengthTable,
};
use crate::symbolize_code_length::rle;
use crate::symbol::{dist_code, is_block_of, lemma_body_valid, symbol_bits, symbol_code, Symbol};
use crate::symbolize::{greedy_parse, symbolize};
use vstd::arithmetic::power2::*;
use vstd::prelude::*;

verus! {

/// The canonical codes of every symbol of a table.
pub open spec fn canonical_codes(t: Seq<u8>) -> Seq<Seq<bool>> {
    Seq::new(t.len(), |s: int| canonical_bits(t, s))
}

/// The bits of a sequence of symbols, one after another.
pub open spec fn body_bits(syms: Seq<Symbol>, lit: Seq<Seq<bool>>, dist: Seq<Seq<bool>>) -> Seq<
    bool,
>
    decreases syms.len(),
{
    if syms.len() == 0 {
        Seq::empty()
    } else {
        body_bits(syms.drop_last(), lit, dist) + symbol_bits(syms.last(), lit, dist)
    }
}

/// How often each literal/length code occurs among `syms`.
pub open spec fn lit_freqs(syms: Seq<Symbol>) -> Seq<u64>
    decreases syms.len(),
{
    if syms.len() == 0 {
        Seq::new(286, |c: int| 0u64)
    } else {
        let f = lit_freqs(syms.drop_last());
        let c = symbol_code(syms.last()) as int;
        f.update(c, (f[c] + 1) as u64)
    }
}

/// How often each distance code occurs among the references of `syms`.
pub open spec fn dist_freqs(syms: Seq<Symbol>) -> Seq<u64>
    decreases syms.len(),
{
    if syms.len() == 0 {
        Seq::new(30, |c: int| 0u64)
    } else {
        let f = dist_freqs(syms.drop_last());
        match syms.last() {
            Symbol::Reference { distance, .. } => {
                let c = dist_code(distance as nat) as int;
                f.update(c, (f[c] + 1) as u64)
            },
            _ => f,
        }
    }
}

/// `blk` is a dynamic block that stands for `data`, flagged as the last of
/// its stream or not by `last`: its header bits, tables of lengths sent in
/// its header, and the symbols of a block for `data` in the canonical codes
/// of those tables, each symbol with a code of its own. The symbols are the
/// greedy parse of `data`, and the tables the code lengths assigned to their
/// frequencies.
pub open spec fn dynamic_block_ok(blk: Seq<bool>, data: Seq<u8>, last: bool) -> bool {
    exists|syms: Seq<Symbol>, lit: Seq<u8>, dist: Seq<u8>, hdr: Seq<bool>|
        {
            &&& is_block_of(syms, data)
            &&& syms == greedy_parse(data)
            &&& lit == code_lengths(lit_freqs(syms), 15)
            &&& dist == code_lengths(dist_freqs(syms), 15)
            &&& lit.len() == 286
            &&& dist.len() == 30
            &&& forall|c: int| 0 <= c < 286 ==> lit[c] <= 15
            &&& forall|c: int| 0 <= c < 30 ==> dist[c] <= 15
            &&& kraft_sum(lit, 15) == pow2(15)
            &&& kraft_sum(dist, 15) <= pow2(15)
            &&& forall|k: int| 0 <= k < syms.len() ==> lit[symbol_code(#[trigger] syms[k]) as int] > 0
            &&& forall|k: int|
                0 <= k < syms.len() ==> (#[trigger] syms[k] matches Symbol::Reference { distance, .. }
                    ==> dist[dist_code(distance as nat) as int] > 0)
            &&& table_header_ok(hdr, lit, dist)
            &&& blk == seq![last, false, true] + hdr + body_bits(
                syms,
                canonical_codes(lit),
                canonical_codes(dist),
            )
        }
}

/// A dynamic block for given data and flag is unique: it is built from the
/// greedy parse of the data and the code lengths of its frequencies, so
/// compressing the same data twice gives the same bits.
pub proof fn lemma_dynamic_block_unique(b1: Seq<bool>, b2: Seq<bool>, data: Seq<u8>, last: bool)
    requires
        dynamic_block_ok(b1, data, last),
        dynamic_block_ok(b2, data, last),
    ensures
        b1 == b2,
{
    let blk = b1;
    let (syms1, lit1, dist1, hdr1) = choose|syms: Seq<Symbol>, lit: Seq<u8>, dist: Seq<u8>, hdr: Seq<bool>|
        {
            &&& is_block_of(syms, data)
            &&& syms == greedy_parse(data)
            &&& lit == code_lengths(lit_freqs(syms), 15)
            &&& dist == code_lengths(dist_freqs(syms), 15)
            &&& lit.len() == 286
            &&& dist.len() == 30
            &&& forall|c: int| 0 <= c < 286 ==> lit[c] <= 15
            &&& forall|c: int| 0 <= c < 30 ==> dist[c] <= 15
            &&& kraft_sum(lit, 15) == pow2(15)
            &&& kraft_sum(dist, 15) <= pow2(15)
            &&& forall|k: int| 0 <= k < syms.len() ==> lit[symbol_code(#[trigger] syms[k]) as int] > 0
            &&& forall|k: int|
                0 <= k < syms.len() ==> (#[trigger] syms[k] matches Symbol::Reference { distance, .. }
                    ==> dist[dist_code(distance as nat) as int] > 0)
            &&& table_header_ok(hdr, lit, dist)
            &&& blk == seq![last, false, true] + hdr + body_bits(
                syms,
                canonical_codes(lit),
                canonical_codes(dist),
            )
        };
    let blk = b2;
    let (syms2, lit2, dist2, hdr2) = choose|syms: Seq<Symbol>, lit: Seq<u8>, dist: Seq<u8>, hdr: Seq<bool>|
        {
            &&& is_block_of(syms, data)
            &&& syms == greedy_parse(data)
            &&& lit == code_lengths(lit_freqs(syms), 15)
            &&& dist == code_lengths(dist_freqs(syms), 15)
            &&& lit.len() == 286
            &&& dist.len() == 30
            &&& forall|c: int| 0 <= c < 286 ==> lit[c] <= 15
            &&& forall|c: int| 0 <= c < 30 ==> dist[c] <= 15
            &&& kraft_sum(lit, 15) == pow2(15)
            &&& kraft_sum(dist, 15) <= pow2(15)
            &&& forall|k: int| 0 <= k < syms.len() ==> lit[symbol_code(#[trigger] syms[k]) as int] > 0
            &&& forall|k: int|
                0 <= k < syms.len() ==> (#[trigger] syms[k] matches Symbol::Reference { distance, .. }
                    ==> dist[dist_code(distance as nat) as int] > 0)
            &&& table_header_ok(hdr, lit, dist)
            &&& blk == seq![last, false, true] + hdr + body_bits(
                syms,
                canonical_codes(lit),
                canonical_codes(dist),
            )
        };
    lemma_table_header_unique(hdr1, hdr2, lit1, dist1);
}

/// The header that sends two tables is unique.
pub proof fn lemma_table_header_unique(h1: Seq<bool>, h2: Seq<bool>, lit: Seq<u8>, dist: Seq<u8>)
    requires
        table_header_ok(h1, lit, dist),
        table_header_ok(h2, lit, dist),
    ensures
        h1 == h2,
{
    let hdr = h1;
    let (c1, m1) = choose|cls: Seq<CodeLengthSymbol>, meta: Seq<u8>|
        {
            &&& cls == rle(lit + dist)
            &&& meta == code_lengths(cl_freqs(cls), 7)
            &&& cl_body_ok(cls)
            &&& cl_expand(cls) == lit + dist
            &&& meta.len() == 19
            &&& forall|k: int| 0 <= k < 19 ==> meta[k] <= 7
            &&& kraft_sum(meta, 7) == pow2(7)
            &&& forall|k: int| 0 <= k < cls.len() ==> meta[#[trigger] cls[k].code_spec() as int] > 0
            &&& hdr == lsb_bits((lit.len() - 257) as nat, 5) + lsb_bits((dist.len() - 1) as nat, 5)
                + lsb_bits(15, 4) + meta_lengths_bits(meta, 19) + cl_bits(cls, meta)
        };
    let hdr = h2;
    let (c2, m2) = choose|cls: Seq<CodeLengthSymbol>, meta: Seq<u8>|
        {
            &&& cls == rle(lit + dist)
            &&& meta == code_lengths(cl_freqs(cls), 7)
            &&& cl_body_ok(cls)
            &&& cl_expand(cls) == lit + dist
            &&& meta.len() == 19
            &&& forall|k: int| 0 <= k < 19 ==> meta[k] <= 7
            &&& kraft_sum(meta, 7) == pow2(7)
            &&& forall|k: int| 0 <= k < cls.len() ==> meta[#[trigger] cls[k].code_spec() as int] > 0
            &&& hdr == lsb_bits((lit.len() - 257) as nat, 5) + lsb_bits((dist.len() - 1) as nat, 5)
                + lsb_bits(15, 4) + meta_lengths_bits(meta, 19) + cl_bits(cls, meta)
        };
}

/// Appends to `output` one dynamic block, not the last, for `input`.
pub fn dynamic_huffman(input: &[u8], output: Bits) -> (r: Bits)
    requires
        output.wf(),
    ensures
        r.wf(),
        exists|blk: Seq<bool>| dynamic_block_ok(blk, input@, false) && r@ == output@ + blk,
{
    dynamic_block(input, output, false)
}

/// Appends to `output` one dynamic block for `input`, flagged as the last
/// of the stream when `last` holds.
pub fn dynamic_block(input: &[u8], output: Bits, last: bool) -> (r: Bits)
    requires
        output.wf(),
    ensures
        r.wf(),
        exists|blk: Seq<bool>| dynamic_block_ok(blk, input@, last) && r@ == output@ + blk,
{
    let mut bits = output;
    let head: Vec<bool> = vec![last, false, true];
    bits.add(head.as_slice());
    let symbols = symbolize(input);
    proof {
        lemma_body_valid(symbols@.drop_last());
        assert forall|k: int| 0 <= k < symbols@.len() implies (#[trigger] symbols@[k]).is_valid() by {
            if k < symbols@.len() - 1 {
                assert(symbols@[k] == symbols@.drop_last()[k]);
            }
        }
    }
    let n = symbols.len();
    let mut lit_weights: Vec<u64> = vec![0u64; 286];
    let mut dist_weights: Vec<u64> = vec![0u64; 30];
    let mut k: usize = 0;
    while k < n
        invariant
            n == symbols@.len(),
            k <= n,
            forall|m: int| 0 <= m < n ==> (#[trigger] symbols@[m]).is_valid(),
            lit_weights@.len() == 286,
            dist_weights@.len() == 30,
            forall|c: int| 0 <= c < 286 ==> lit_weights@[c] <= k,
            lit_weights@ == lit_freqs(symbols@.take(k as int)),
            dist_weights@ == dist_freqs(symbols@.take(k as int)),
            forall|c: int| 0 <= c < 30 ==> dist_weights@[c] <= k,
            forall|m: int| 0 <= m < k ==> symbol_code(#[trigger] symbols@[m]) < 286,
            forall|m: int|
                0 <= m < k ==> (#[trigger] symbols@[m] matches Symbol::Reference { distance, .. }
                    ==> dist_code(distance as nat) < 30),
            forall|m: int| 0 <= m < k ==> lit_weights@[symbol_code(#[trigger] symbols@[m]) as int] > 0,
            forall|m: int|
                0 <= m < k ==> (#[trigger] symbols@[m] matches Symbol::Reference { distance, .. }
                    ==> dist_weights@[dist_code(distance as nat) as int] > 0),
        decreases n - k,
    {
        let s = symbols[k];
        let c = s.code();
        proof {
            assert(symbols@.take(k + 1).drop_last() =~= symbols@.take(k as int));
            assert(symbols@.take(k + 1).last() == s);
        }
        lit_weights.set(c, lit_weights[c] + 1);
        if let Some(d) = s.dist_code() {
            dist_weights.set(d, dist_weights[d] + 1);
        }
        k = k + 1;
    }
    proof {
        lemma2_to64();
        lemma_pow2_strictly_increases(9, 15);
        assert(symbols@[n - 1] is EndOfBlock);
        assert(lit_weights@[symbol_code(symbols@[n - 1]) as int] > 0);
        lemma_used_count_pos(lit_weights@, 256);
    }
    proof {
        assert(symbols@.take(n as int) =~= symbols@);
    }
    let lit_table = CodeLengthTable::analyze(&lit_weights, 15);
    let dist_table = CodeLengthTable::analyze(&dist_weights, 15);
    proof {
        assert forall|m: int| 0 <= m < n implies lit_table@[symbol_code(#[trigger] symbols@[m]) as int]
            > 0 by {
            assert(lit_weights@[symbol_code(symbols@[m]) as int] > 0);
        }
        assert forall|m: int| 0 <= m < n implies (#[trigger] symbols@[m] matches Symbol::Reference {
            distance,
            ..
        } ==> dist_table@[dist_code(distance as nat) as int] > 0) by {
            if let Symbol::Reference { distance, .. } = symbols@[m] {
                let d = dist_code(distance as nat) as int;
                assert(dist_weights@[d] > 0);
                lemma_used_count_pos(dist_weights@, d);
            }
        }
    }
    let header = CodeLengthTable::encode(&lit_table, &dist_table);
    let ghost before_header = bits@;
    bits.extend(&header);
    let lit_encoder = lit_table.build_encoder();
    let dist_encoder = dist_table.build_encoder();
    proof {
        assert(lit_encoder@ =~= canonical_codes(lit_table@));
        assert(dist_encoder@ =~= canonical_codes(dist_table@));
    }
    let ghost mid = bits@;
    k = 0;
    while k < n
        invariant
            n == symbols@.len(),
            k <= n,
            forall|m: int| 0 <= m < n ==> (#[trigger] symbols@[m]).is_valid(),
            bits.wf(),
            lit_encoder.wf(),
            dist_encoder.wf(),
            lit_encoder.table@.len() == 286,
            dist_encoder.table@.len() == 30,
            bits@ == mid + body_bits(symbols@.take(k as int), lit_encoder@, dist_encoder@),
        decreases n - k,
    {
        let s = symbols[k];
        bits.append(&s.encode(&lit_encoder, &dist_encoder));
        proof {
            assert(symbols@.take(k + 1).drop_last() =~= symbols@.take(k as int));
        }
        k = k + 1;
    }
    proof {
        assert(symbols@.take(n as int) =~= symbols@);
        let blk = seq![last, false, true] + header@ + body_bits(
            symbols@,
            canonical_codes(lit_table@),
            canonical_codes(dist_table@),
        );
        assert(bits@ =~= output@ + blk);
        assert(dynamic_block_ok(blk, input@, last));
    }
    bits
}

} // verus!
