//! The symbols of a compressed block and the LZ77 reading of a symbol
//! sequence.
use crate::alphabet_encoder::AlphabetEncoder;
use crate::bits::{lsb_bits, ShortBits};
use vstd::arithmetic::div_mod::*;
use vstd::arithmetic::power2::*;
use vstd::prelude::*;

verus! {

/// The longest back-reference the format can express.
pub const MAX_LENGTH: usize = 258;

/// The farthest back-reference the format can express.
pub const MAX_DISTANCE: usize = 32768;

/// One symbol of a block: a literal byte, a back-reference, or the end of
/// the block.
#[derive(Debug, Clone, Copy)]
pub enum Symbol {
    Literal(u8),
    EndOfBlock,
    Reference { length: usize, distance: usize },
}

/// The number of extra bits after literal/length code `c`.
pub open spec fn len_extra(c: nat) -> nat {
    if c < 265 || c == 285 {
        0
    } else {
        ((c - 261) / 4) as nat
    }
}

/// The shortest length that literal/length code `c` stands for.
pub open spec fn len_base(c: nat) -> nat {
    if c < 265 {
        (c - 254) as nat
    } else if c == 285 {
        258
    } else {
        pow2(len_extra(c) + 2) + 3 + ((c - 261) % 4) as nat * pow2(len_extra(c))
    }
}

/// The number of extra bits after distance code `c`.
pub open spec fn dist_extra(c: nat) -> nat {
    if c < 4 {
        0
    } else {
        (c / 2 - 1) as nat
    }
}

/// The shortest distance that distance code `c` stands for.
pub open spec fn dist_base(c: nat) -> nat {
    if c < 4 {
        c + 1
    } else {
        pow2(dist_extra(c) + 1) + 1 + (c % 2) * pow2(dist_extra(c))
    }
}

/// `c` is the literal/length code of length `l`: `l` lies in its range, and
/// the longest length has a code of its own.
pub open spec fn length_code_ok(c: nat, l: nat) -> bool {
    &&& 257 <= c <= 285
    &&& len_base(c) <= l < len_base(c) + pow2(len_extra(c))
    &&& (l == 258 <==> c == 285)
}

/// `c` is the distance code of distance `d`.
pub open spec fn dist_code_ok(c: nat, d: nat) -> bool {
    &&& c <= 29
    &&& dist_base(c) <= d < dist_base(c) + pow2(dist_extra(c))
}

/// The literal/length code of length `l`.
pub open spec fn length_code(l: nat) -> nat {
    choose|c: nat| length_code_ok(c, l)
}

/// The distance code of distance `d`.
pub open spec fn dist_code(d: nat) -> nat {
    choose|c: nat| dist_code_ok(c, d)
}

/// The literal/length code of symbol `s`.
pub open spec fn symbol_code(s: Symbol) -> nat {
    match s {
        Symbol::Literal(b) => b as nat,
        Symbol::EndOfBlock => 256,
        Symbol::Reference { length, .. } => length_code(length as nat),
    }
}

/// The bits of symbol `s` with the literal/length codes `lit` and the
/// distance codes `dist`: the code of its literal/length symbol, then for a
/// reference the extra length bits, the distance code and the extra distance
/// bits.
pub open spec fn symbol_bits(s: Symbol, lit: Seq<Seq<bool>>, dist: Seq<Seq<bool>>) -> Seq<bool> {
    match s {
        Symbol::Literal(b) => lit[b as int],
        Symbol::EndOfBlock => lit[256],
        Symbol::Reference { length, distance } => {
            let lc = length_code(length as nat);
            let dc = dist_code(distance as nat);
            lit[lc as int] + lsb_bits((length - len_base(lc)) as nat, len_extra(lc)) + dist[dc as int]
                + lsb_bits((distance - dist_base(dc)) as nat, dist_extra(dc))
        },
    }
}

/// Consecutive length codes cover consecutive ranges.
pub proof fn lemma_len_step(c: nat)
    requires
        257 <= c < 284,
    ensures
        len_base(c) + pow2(len_extra(c)) == len_base(c + 1),
{
    lemma2_to64();
    if c == 264 {
        assert(len_extra(265) == 1);
        assert(len_base(265) == 11);
    } else if c >= 265 {
        let e = len_extra(c);
        let q = ((c - 261) % 4) as nat;
        let p = pow2(e);
        lemma_pow2_adds(e, 2);
        if q < 3 {
            assert(len_extra(c + 1) == e);
            assert(((c + 1 - 261) % 4) as nat == q + 1);
            assert((q + 1) * p == q * p + p) by (nonlinear_arith);
        } else {
            assert(len_extra(c + 1) == e + 1);
            assert(((c + 1 - 261) % 4) as nat == 0);
            lemma_pow2_adds(e + 1, 2);
            lemma_pow2_adds(e, 1);
            assert(3 * p + p == 4 * p) by (nonlinear_arith);
            assert(len_base(c + 1) == pow2(e + 3) + 3);
        }
    }
}

proof fn lemma_len_order(c1: nat, c2: nat)
    requires
        257 <= c1 < c2 <= 284,
    ensures
        len_base(c1) + pow2(len_extra(c1)) <= len_base(c2),
    decreases c2 - c1,
{
    lemma_len_step(c1);
    if c2 > c1 + 1 {
        lemma_len_order(c1 + 1, c2);
        lemma_pow2_pos(len_extra(c1 + 1));
    }
}

/// A length has one literal/length code.
pub proof fn lemma_length_code_unique(c: nat, l: nat)
    requires
        length_code_ok(c, l),
    ensures
        length_code(l) == c,
{
    let d = length_code(l);
    assert(length_code_ok(d, l));
    if l != 258 {
        if d < c {
            lemma_len_order(d, c);
        } else if c < d {
            lemma_len_order(c, d);
        }
    }
}

pub proof fn lemma_dist_step(c: nat)
    requires
        c < 29,
    ensures
        dist_base(c) + pow2(dist_extra(c)) == dist_base(c + 1),
{
    lemma2_to64();
    if c == 3 {
        assert(dist_extra(4) == 1);
        assert(dist_base(4) == 5);
    } else if c >= 4 {
        let e = dist_extra(c);
        let q = c % 2;
        let p = pow2(e);
        lemma_pow2_adds(e, 1);
        if q == 0 {
            assert(dist_extra(c + 1) == e);
            assert((c + 1) % 2 == 1);
            assert(q * p == 0) by (nonlinear_arith)
                requires
                    q == 0,
            ;
        } else {
            assert(dist_extra(c + 1) == e + 1);
            assert((c + 1) % 2 == 0);
            lemma_pow2_adds(e + 1, 1);
            assert(q * p == p) by (nonlinear_arith)
                requires
                    q == 1,
            ;
            assert(dist_base(c + 1) == pow2(e + 2) + 1);
        }
    }
}

proof fn lemma_dist_order(c1: nat, c2: nat)
    requires
        c1 < c2 <= 29,
    ensures
        dist_base(c1) + pow2(dist_extra(c1)) <= dist_base(c2),
    decreases c2 - c1,
{
    lemma_dist_step(c1);
    if c2 > c1 + 1 {
        lemma_dist_order(c1 + 1, c2);
        lemma_pow2_pos(dist_extra(c1 + 1));
    }
}

/// A distance has one distance code.
pub proof fn lemma_dist_code_unique(c: nat, d: nat)
    requires
        dist_code_ok(c, d),
    ensures
        dist_code(d) == c,
{
    let x = dist_code(d);
    assert(dist_code_ok(x, d));
    if x < c {
        lemma_dist_order(x, c);
    } else if c < x {
        lemma_dist_order(c, x);
    }
}

impl Symbol {
    /// A symbol the format can express.
    pub open spec fn is_valid(self) -> bool {
        match self {
            Symbol::Reference { length, distance } => 3 <= length <= MAX_LENGTH && 1 <= distance
                <= MAX_DISTANCE,
            _ => true,
        }
    }

    /// The code of the symbol and its extra bits, with the codes of the two
    /// encoders.
    pub fn encode(&self, lit_encoder: &AlphabetEncoder, dist_encoder: &AlphabetEncoder) -> (r:
        ShortBits)
        requires
            self.is_valid(),
            lit_encoder.wf(),
            dist_encoder.wf(),
            lit_encoder.table@.len() >= 286,
            dist_encoder.table@.len() >= 30,
        ensures
            r@ == symbol_bits(*self, lit_encoder@, dist_encoder@),
            r.size <= 48,
    {
        let c = lit_encoder.encode(self.code());
        let extra = self.additional_bits(dist_encoder);
        let r = c.concat(&extra);
        proof {
            assert(r@ =~= c@ + extra@);
            if let Symbol::Reference { length, distance } = *self {
                assert(r@ =~= lit_encoder@[symbol_code(*self) as int] + lsb_bits(
                    (length - len_base(length_code(length as nat))) as nat,
                    len_extra(length_code(length as nat)),
                ) + dist_encoder@[dist_code(distance as nat) as int] + lsb_bits(
                    (distance - dist_base(dist_code(distance as nat))) as nat,
                    dist_extra(dist_code(distance as nat)),
                ));
            }
        }
        r
    }

    /// The literal/length code of the symbol: the byte of a literal, 256 for
    /// the end of the block, the code of the length of a reference.
    pub fn code(&self) -> (r: usize)
        requires
            self.is_valid(),
        ensures
            r < 286,
            r == symbol_code(*self),
    {
        match *self {
            Symbol::Literal(l) => l as usize,
            Symbol::EndOfBlock => 256,
            Symbol::Reference { length, distance: _ } => {
                let c = length_symbol(length).0;
                proof {
                    lemma_length_code_unique(c as nat, length as nat);
                }
                c
            },
        }
    }

    /// The distance code of a reference.
    pub fn dist_code(&self) -> (r: Option<usize>)
        requires
            self.is_valid(),
        ensures
            self is Reference <==> r is Some,
            self matches Symbol::Reference { distance, .. } ==> r->Some_0 == dist_code(
                distance as nat,
            ) && r->Some_0 < 30,
    {
        match *self {
            Symbol::Reference { length: _, distance } => {
                let c = distance_symbol(distance).0;
                proof {
                    lemma_dist_code_unique(c as nat, distance as nat);
                }
                Some(c)
            },
            _ => None,
        }
    }

    /// What follows the literal/length code: nothing, or for a reference the
    /// extra length bits, the distance code and the extra distance bits.
    pub fn additional_bits(&self, dist_encoder: &AlphabetEncoder) -> (r: ShortBits)
        requires
            self.is_valid(),
            dist_encoder.wf(),
            dist_encoder.table@.len() >= 30,
        ensures
            r.size <= 33,
            !(self is Reference) ==> r@ == Seq::<bool>::empty(),
            self matches Symbol::Reference { length, distance } ==> r@ == lsb_bits(
                (length - len_base(length_code(length as nat))) as nat,
                len_extra(length_code(length as nat)),
            ) + dist_encoder@[dist_code(distance as nat) as int] + lsb_bits(
                (distance - dist_base(dist_code(distance as nat))) as nat,
                dist_extra(dist_code(distance as nat)),
            ),
    {
        match *self {
            Symbol::Reference { length, distance } => {
                let l = length_extra_bits(length);
                let d = distance_bits(distance, dist_encoder);
                let r = l.concat(&d);
                proof {
                    assert(r@ =~= l@ + d@);
                }
                r
            },
            _ => ShortBits::zero(),
        }
    }
}

/// The literal/length code of length `l`, the value of its extra bits and
/// their number.
fn length_symbol(l: usize) -> (r: (usize, u64, u8))
    requires
        3 <= l <= MAX_LENGTH,
    ensures
        length_code_ok(r.0 as nat, l as nat),
        r.1 == l - len_base(r.0 as nat),
        r.2 == len_extra(r.0 as nat),
        r.2 <= 5,
{
    proof {
        lemma2_to64();
    }
    if l < 11 {
        return (l + 254, 0, 0);
    }
    if l == MAX_LENGTH {
        return (285, 0, 0);
    }
    let mut e: u8 = 1;
    let mut p: usize = 2;
    while l - 3 >= 8 * p
        invariant
            11 <= l < 258,
            1 <= e <= 5,
            p == pow2(e as nat),
            4 * p <= l - 3,
        decreases 6 - e,
    {
        proof {
            lemma2_to64();
            lemma_pow2_unfold((e + 1) as nat);
        }
        e = e + 1;
        p = p * 2;
    }
    let size = l - 3 - 4 * p;
    let q = size / p;
    let extra = size % p;
    proof {
        lemma_fundamental_div_mod(size as int, p as int);
        assert(q < 4) by (nonlinear_arith)
            requires
                size < 4 * p,
                q == size / p,
                p > 0,
        ;
        lemma_pow2_adds(e as nat, 2);
        let c = (261 + 4 * e + q) as nat;
        assert(len_extra(c) == e);
        assert((c - 261) % 4 == q);
        lemma_mod_pos_bound(size as int, p as int);
        assert(size == q * p + extra) by (nonlinear_arith)
            requires
                size == p * (size / p) + size % p,
                q == size / p,
                extra == size % p,
        ;
        assert(len_base(c) == 4 * p + 3 + q * p);
    }
    (261 + 4 * (e as usize) + q, extra as u64, e)
}

/// The distance code of distance `d`, the value of its extra bits and their
/// number.
fn distance_symbol(d: usize) -> (r: (usize, u64, u8))
    requires
        1 <= d <= MAX_DISTANCE,
    ensures
        dist_code_ok(r.0 as nat, d as nat),
        r.1 == d - dist_base(r.0 as nat),
        r.2 == dist_extra(r.0 as nat),
        r.2 <= 13,
{
    proof {
        lemma2_to64();
    }
    if d < 5 {
        return (d - 1, 0, 0);
    }
    let mut e: u8 = 1;
    let mut p: usize = 2;
    while d - 1 >= 4 * p
        invariant
            5 <= d <= 32768,
            1 <= e <= 13,
            p == pow2(e as nat),
            2 * p <= d - 1,
        decreases 14 - e,
    {
        proof {
            lemma2_to64();
            lemma_pow2_unfold((e + 1) as nat);
        }
        e = e + 1;
        p = p * 2;
    }
    let size = d - 1 - 2 * p;
    let q = size / p;
    let extra = size % p;
    proof {
        lemma_fundamental_div_mod(size as int, p as int);
        assert(q < 2) by (nonlinear_arith)
            requires
                size < 2 * p,
                q == size / p,
                p > 0,
        ;
        lemma_pow2_unfold((e + 1) as nat);
        let c = (2 + 2 * e + q) as nat;
        assert(dist_extra(c) == e);
        assert(c % 2 == q);
        lemma_mod_pos_bound(size as int, p as int);
        assert(size == q * p + extra) by (nonlinear_arith)
            requires
                size == p * (size / p) + size % p,
                q == size / p,
                extra == size % p,
        ;
        assert(dist_base(c) == 2 * p + 1 + q * p);
    }
    (2 + 2 * (e as usize) + q, extra as u64, e)
}

/// The extra bits of length `l`.
fn length_extra_bits(l: usize) -> (r: ShortBits)
    requires
        3 <= l <= MAX_LENGTH,
    ensures
        r.size <= 5,
        r.size == len_extra(length_code(l as nat)),
        r.body == l - len_base(length_code(l as nat)),
        r@ == lsb_bits(
            (l - len_base(length_code(l as nat))) as nat,
            len_extra(length_code(l as nat)),
        ),
{
    let (c, extra, width) = length_symbol(l);
    proof {
        lemma_length_code_unique(c as nat, l as nat);
    }
    ShortBits::data(extra, width)
}

/// The distance code of distance `d` and its extra bits.
fn distance_bits(d: usize, dist_encoder: &AlphabetEncoder) -> (r: ShortBits)
    requires
        1 <= d <= MAX_DISTANCE,
        dist_encoder.wf(),
        dist_encoder.table@.len() >= 30,
    ensures
        r.size <= 28,
        r@ == dist_encoder@[dist_code(d as nat) as int] + lsb_bits(
            (d - dist_base(dist_code(d as nat))) as nat,
            dist_extra(dist_code(d as nat)),
        ),
{
    let (c, extra, width) = distance_symbol(d);
    proof {
        lemma_dist_code_unique(c as nat, d as nat);
    }
    let code = dist_encoder.encode(c);
    let r = code.concat(&ShortBits::data(extra, width));
    proof {
        assert(r@ =~= dist_encoder@[c as int] + lsb_bits((d - dist_base(c as nat)) as nat, dist_extra(c as nat)));
    }
    r
}

/// `out` extended by `length` bytes, each copied from `distance` bytes
/// before it (the copy may overlap what it writes).
pub open spec fn copy_back(out: Seq<u8>, distance: nat, length: nat) -> Seq<u8>
    decreases length,
{
    if length == 0 {
        out
    } else {
        let o = copy_back(out, distance, (length - 1) as nat);
        o.push(o[o.len() - distance])
    }
}

/// The output after reading one more symbol.
pub open spec fn lz77_step(out: Seq<u8>, s: Symbol) -> Seq<u8> {
    match s {
        Symbol::Literal(b) => out.push(b),
        Symbol::EndOfBlock => out,
        Symbol::Reference { length, distance } => copy_back(out, distance as nat, length as nat),
    }
}

/// The bytes that a sequence of symbols stands for.
pub open spec fn lz77_decode(syms: Seq<Symbol>) -> Seq<u8>
    decreases syms.len(),
{
    if syms.len() == 0 {
        Seq::empty()
    } else {
        lz77_step(lz77_decode(syms.drop_last()), syms.last())
    }
}

/// A data symbol the format can express, reading only bytes already
/// written when it follows the output `out`.
pub open spec fn data_symbol_ok(out: Seq<u8>, s: Symbol) -> bool {
    match s {
        Symbol::Literal(_) => true,
        Symbol::EndOfBlock => false,
        Symbol::Reference { length, distance } => 3 <= length <= MAX_LENGTH && 1 <= distance
            <= MAX_DISTANCE && distance <= out.len(),
    }
}

/// Every symbol is a data symbol that the format can express and that reads
/// only bytes already written.
pub open spec fn lz77_body_ok(syms: Seq<Symbol>) -> bool
    decreases syms.len(),
{
    if syms.len() == 0 {
        true
    } else {
        lz77_body_ok(syms.drop_last()) && data_symbol_ok(lz77_decode(syms.drop_last()), syms.last())
    }
}

/// `syms` is one block for `data`: data symbols that read back as `data`,
/// then the end of the block.
pub open spec fn is_block_of(syms: Seq<Symbol>, data: Seq<u8>) -> bool {
    &&& syms.len() >= 1
    &&& syms.last() is EndOfBlock
    &&& lz77_body_ok(syms.drop_last())
    &&& lz77_decode(syms.drop_last()) == data
}

/// The bytes `k` places after `i` and after `j` are equal.
pub open spec fn same_at(data: Seq<u8>, i: int, j: int, k: int) -> bool {
    data[i + k] == data[j + k]
}

/// The data symbols of a well-formed body can all be sent.
pub proof fn lemma_body_valid(syms: Seq<Symbol>)
    requires
        lz77_body_ok(syms),
    ensures
        forall|k: int| 0 <= k < syms.len() ==> (#[trigger] syms[k]).is_valid() && !(syms[k] is EndOfBlock),
    decreases syms.len(),
{
    if syms.len() > 0 {
        lemma_body_valid(syms.drop_last());
        assert forall|k: int| 0 <= k < syms.len() implies (#[trigger] syms[k]).is_valid() && !(
        syms[k] is EndOfBlock) by {
            if k < syms.len() - 1 {
                assert(syms[k] == syms.drop_last()[k]);
            }
        }
    }
}

/// Copying `length` bytes from `i - loc` back, where the data repeats
/// itself, writes the next `length` bytes of the data.
pub proof fn lemma_copy_back(data: Seq<u8>, i: nat, loc: nat, length: nat)
    requires
        loc < i,
        i + length <= data.len(),
        forall|k: int| 0 <= k < length ==> #[trigger] same_at(data, i as int, loc as int, k),
    ensures
        copy_back(data.take(i as int), (i - loc) as nat, length) == data.take((i + length) as int),
    decreases length,
{
    if length > 0 {
        lemma_copy_back(data, i, loc, (length - 1) as nat);
        let o = data.take((i + length - 1) as int);
        assert(same_at(data, i as int, loc as int, length - 1));
        assert(o.push(o[o.len() - (i - loc)]) =~= data.take((i + length) as int));
    } else {
        assert(data.take(i as int) =~= data.take((i + length) as int));
    }
}

} // verus!
