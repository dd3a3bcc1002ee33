//! Code-length tables: assigning lengths from weights, building canonical
//! codes from lengths, and sending a pair of tables in a block header.
use crate::alphabet_encoder::AlphabetEncoder;
use crate::bits::{bit, lemma_bit_shift, lsb_bits, msb_bits, Bits, ShortBits};
use crate::code_length_symbol::{cl_body_ok, cl_expand, lemma_cl_body_valid, CodeLengthSymbol};
use crate::symbolize_code_length::{rle, symbolize_code_length};
use vstd::arithmetic::power2::*;
use vstd::bits::*;
use vstd::prelude::*;

verus! {

/// The share of the code space that a code of length `len` takes, counted in
/// leaves of depth `max` (nothing for an unused symbol).
pub open spec fn kraft_term(len: u8, max: nat) -> nat {
    if len == 0 {
        0
    } else {
        pow2((max - len) as nat)
    }
}

/// The Kraft sum of a table of code lengths, counted in leaves of depth
/// `max`: the code is complete when it equals `pow2(max)`.
pub open spec fn kraft_sum(t: Seq<u8>, max: nat) -> nat
    decreases t.len(),
{
    if t.len() == 0 {
        0
    } else {
        kraft_sum(t.drop_last(), max) + kraft_term(t.last(), max)
    }
}

/// How many weights are nonzero.
pub open spec fn used_count(w: Seq<u64>) -> nat
    decreases w.len(),
{
    if w.len() == 0 {
        0
    } else {
        used_count(w.drop_last()) + if w.last() > 0 {
            1nat
        } else {
            0nat
        }
    }
}

pub proof fn lemma_kraft_sum_concat(a: Seq<u8>, b: Seq<u8>, max: nat)
    ensures
        kraft_sum(a + b, max) == kraft_sum(a, max) + kraft_sum(b, max),
    decreases b.len(),
{
    if b.len() == 0 {
        assert(a + b =~= a);
    } else {
        lemma_kraft_sum_concat(a, b.drop_last(), max);
        assert((a + b).drop_last() =~= a + b.drop_last());
    }
}

pub proof fn lemma_kraft_sum_update(t: Seq<u8>, j: int, v: u8, max: nat)
    requires
        0 <= j < t.len(),
    ensures
        kraft_sum(t.update(j, v), max) + kraft_term(t[j], max) == kraft_sum(t, max) + kraft_term(
            v,
            max,
        ),
    decreases t.len(),
{
    if j < t.len() - 1 {
        lemma_kraft_sum_update(t.drop_last(), j, v, max);
        assert(t.update(j, v).drop_last() =~= t.drop_last().update(j, v));
    } else {
        assert(t.update(j, v).drop_last() =~= t.drop_last());
    }
}

/// Counting in deeper leaves scales the sum.
pub proof fn lemma_kraft_sum_scale(t: Seq<u8>, max: nat, deeper: nat)
    requires
        max <= deeper,
        forall|k: int| 0 <= k < t.len() ==> t[k] <= max,
    ensures
        kraft_sum(t, deeper) == kraft_sum(t, max) * pow2((deeper - max) as nat),
    decreases t.len(),
{
    vstd::arithmetic::mul::lemma_mul_basics(pow2((deeper - max) as nat) as int);
    if t.len() > 0 {
        lemma_kraft_sum_scale(t.drop_last(), max, deeper);
        assert(t.drop_last().len() == t.len() - 1);
        let l = t.last();
        assert(t[t.len() - 1] <= max);
        if l > 0 {
            let e1 = (max - l) as nat;
            let e2 = (deeper - max) as nat;
            lemma_pow2_adds(e1, e2);
            assert(e1 + e2 == (deeper - l) as nat);
            assert(pow2((deeper - l) as nat) == pow2(e1) * pow2(e2));
            assert(kraft_term(l, deeper) == pow2((deeper - l) as nat));
            assert(kraft_term(l, max) == pow2(e1));
            assert(kraft_term(l, deeper) == kraft_term(l, max) * pow2((deeper - max) as nat));
        } else {
            vstd::arithmetic::mul::lemma_mul_basics(pow2((deeper - max) as nat) as int);
        }
        vstd::arithmetic::mul::lemma_mul_is_distributive_add_other_way(
            pow2((deeper - max) as nat) as int,
            kraft_sum(t.drop_last(), max) as int,
            kraft_term(l, max) as int,
        );
    }
}

pub proof fn lemma_used_count_le(w: Seq<u64>)
    ensures
        used_count(w) <= w.len(),
    decreases w.len(),
{
    if w.len() > 0 {
        lemma_used_count_le(w.drop_last());
    }
}

/// The sum, over the first `n` symbols whose codes are shorter than `l`, of
/// the number of codes of length `l` that each one covers.
pub open spec fn pre_sum(t: Seq<u8>, n: int, l: nat) -> nat
    decreases n,
{
    if n <= 0 {
        0
    } else {
        pre_sum(t, n - 1, l) + if 0 < t[n - 1] < l {
            pow2((l - t[n - 1]) as nat)
        } else {
            0
        }
    }
}

/// How many of the first `n` symbols have length `l`.
pub open spec fn count_eq(t: Seq<u8>, n: int, l: nat) -> nat
    decreases n,
{
    if n <= 0 {
        0
    } else {
        count_eq(t, n - 1, l) + if t[n - 1] == l {
            1nat
        } else {
            0nat
        }
    }
}

/// The canonical code of symbol `s`: codes are numbered in order of length,
/// then of symbol index, and a longer code continues from the shorter ones
/// shifted left.
pub open spec fn canonical_code(t: Seq<u8>, s: int) -> nat {
    pre_sum(t, t.len() as int, t[s] as nat) + count_eq(t, s, t[s] as nat)
}

/// The bits of the canonical code of symbol `s`, most significant first;
/// empty for an unused symbol.
pub open spec fn canonical_bits(t: Seq<u8>, s: int) -> Seq<bool> {
    if t[s] == 0 {
        Seq::empty()
    } else {
        msb_bits(canonical_code(t, s), t[s] as nat)
    }
}

pub proof fn lemma_pre_sum_step(t: Seq<u8>, n: int, l: nat)
    requires
        l >= 1,
        n <= t.len(),
    ensures
        pre_sum(t, n, l + 1) == 2 * (pre_sum(t, n, l) + count_eq(t, n, l)),
        pre_sum(t, n, 1) == 0,
    decreases n,
{
    if n > 0 {
        lemma_pre_sum_step(t, n - 1, l);
        let v = t[n - 1];
        if 0 < v < l {
            lemma_pow2_unfold((l + 1 - v) as nat);
        } else if v == l {
            lemma2_to64();
        }
    }
}

pub proof fn lemma_pre_sum_bound(t: Seq<u8>, n: int, l: nat)
    requires
        0 <= n <= t.len(),
    ensures
        pre_sum(t, n, l) <= n * pow2(l),
        count_eq(t, n, l) <= n,
    decreases n,
{
    if n > 0 {
        lemma_pre_sum_bound(t, n - 1, l);
        let v = t[n - 1];
        if 0 < v < l {
            lemma_pow2_strictly_increases((l - v) as nat, l);
        }
        vstd::arithmetic::mul::lemma_mul_is_distributive_add_other_way(pow2(l) as int, n - 1, 1);
    }
}

/// The order in which the lengths of the code-length alphabet are sent.
pub open spec fn cl_order() -> Seq<int> {
    seq![16, 17, 18, 0, 8, 7, 9, 6, 10, 5, 11, 4, 12, 3, 13, 2, 14, 1, 15]
}

/// The first `k` lengths of the code-length alphabet, three bits each, in
/// the order of `cl_order`.
pub open spec fn meta_lengths_bits(meta: Seq<u8>, k: int) -> Seq<bool>
    decreases k,
{
    if k <= 0 {
        Seq::empty()
    } else {
        meta_lengths_bits(meta, k - 1) + lsb_bits(meta[cl_order()[k - 1]] as nat, 3)
    }
}

/// Code-length symbols sent with the canonical code of the lengths `meta`,
/// each followed by its raw field.
pub open spec fn cl_bits(cls: Seq<CodeLengthSymbol>, meta: Seq<u8>) -> Seq<bool>
    decreases cls.len(),
{
    if cls.len() == 0 {
        Seq::empty()
    } else {
        cl_bits(cls.drop_last(), meta) + canonical_bits(meta, cls.last().code_spec() as int)
            + lsb_bits(cls.last().extra_spec().0, cls.last().extra_spec().1)
    }
}

/// How often each symbol of the code-length alphabet occurs in `cls`.
pub open spec fn cl_freqs(cls: Seq<CodeLengthSymbol>) -> Seq<u64>
    decreases cls.len(),
{
    if cls.len() == 0 {
        Seq::new(19, |c: int| 0u64)
    } else {
        let f = cl_freqs(cls.drop_last());
        let c = cls.last().code_spec() as int;
        f.update(c, (f[c] + 1) as u64)
    }
}

/// `hdr` sends the tables `lit` and `dist`: their sizes, the lengths `meta`
/// of a complete code over the code-length alphabet, then the code lengths of
/// both tables, run-length encoded as `cls` and sent in that code. The
/// code-length code is the one assigned to the frequencies of `cls`.
pub open spec fn table_header_ok(hdr: Seq<bool>, lit: Seq<u8>, dist: Seq<u8>) -> bool {
    exists|cls: Seq<CodeLengthSymbol>, meta: Seq<u8>|
        {
            &&& cls == rle(lit + dist)
            &&& meta == code_lengths(cl_freqs(cls), 7)
            &&& cl_body_ok(cls)
            &&& cl_expand(cls) == lit + dist
            &&& meta.len() == 19
            &&& forall|k: int| 0 <= k < 19 ==> meta[k] <= 7
            &&& kraft_sum(meta, 7) == pow2(7)
            &&& forall|k: int| 0 <= k < cls.len() ==> meta[#[trigger] cls[k].code_spec() as int] > 0
            &&& hdr == lsb_bits((lit.len() - 257) as nat, 5) + lsb_bits((dist.len() - 1) as nat, 5)
                + lsb_bits(15, 4) + meta_lengths_bits(meta, 19) + cl_bits(cls, meta)
        }
}

pub proof fn lemma_used_count_pos(w: Seq<u64>, j: int)
    requires
        0 <= j < w.len(),
        w[j] > 0,
    ensures
        used_count(w) >= 1,
    decreases w.len(),
{
    if j < w.len() - 1 {
        lemma_used_count_pos(w.drop_last(), j);
    }
}

/// Symbol `c` comes before symbol `s` in canonical order: it is used, and
/// its code is shorter, or as long with a smaller index.
pub open spec fn canonical_before(t: Seq<u8>, c: int, s: int) -> bool {
    0 < t[c] && (t[c] < t[s] || (t[c] == t[s] && c < s))
}

/// The code space, in leaves of depth fifteen, taken by the first `n`
/// symbols that come before `s`.
pub open spec fn before_sum(t: Seq<u8>, n: int, s: int) -> nat
    decreases n,
{
    if n <= 0 {
        0
    } else {
        before_sum(t, n - 1, s) + if canonical_before(t, n - 1, s) {
            pow2((15 - t[n - 1]) as nat)
        } else {
            0
        }
    }
}

proof fn lemma_before_sum_split(t: Seq<u8>, n: int, s: int)
    requires
        0 <= n <= t.len(),
        0 <= s < t.len(),
        1 <= t[s] <= 15,
        forall|k: int| 0 <= k < t.len() ==> t[k] <= 15,
    ensures
        before_sum(t, n, s) == (pre_sum(t, n, t[s] as nat) + count_eq(
            t,
            if n < s {
                n
            } else {
                s
            },
            t[s] as nat,
        )) * pow2((15 - t[s]) as nat),
    decreases n,
{
    let ls = t[s] as nat;
    let p = pow2((15 - ls) as nat);
    if n == 0 {
        vstd::arithmetic::mul::lemma_mul_basics(p as int);
    } else {
        lemma_before_sum_split(t, n - 1, s);
        let v = t[n - 1];
        let m1 = if n - 1 < s {
            n - 1
        } else {
            s
        };
        let m = if n < s {
            n
        } else {
            s
        };
        let a = pre_sum(t, n - 1, ls);
        let b = count_eq(t, m1, ls);
        if 0 < v < ls {
            lemma_pow2_adds((ls - v) as nat, (15 - ls) as nat);
            assert(m == m1 || (m == n && n - 1 < s && v != ls));
            assert(count_eq(t, m, ls) == b);
            vstd::arithmetic::mul::lemma_mul_is_distributive_add_other_way(
                p as int,
                (a + b) as int,
                pow2((ls - v) as nat) as int,
            );
        } else if v == ls && n - 1 < s {
            assert(m == n);
            lemma2_to64();
            vstd::arithmetic::mul::lemma_mul_is_distributive_add_other_way(p as int, (a + b) as int, 1);
        } else {
            if n - 1 < s {
                assert(count_eq(t, n, ls) == count_eq(t, n - 1, ls));
            }
        }
    }
}

proof fn lemma_before_sum_order(t: Seq<u8>, n: int, a: int, b: int)
    requires
        0 <= n <= t.len(),
        0 <= a < t.len(),
        0 <= b < t.len(),
        canonical_before(t, a, b),
        forall|k: int| 0 <= k < t.len() ==> t[k] <= 15,
    ensures
        before_sum(t, n, a) + (if a < n {
            pow2((15 - t[a]) as nat)
        } else {
            0
        }) <= before_sum(t, n, b),
    decreases n,
{
    if n > 0 {
        lemma_before_sum_order(t, n - 1, a, b);
    }
}

proof fn lemma_before_sum_kraft(t: Seq<u8>, n: int, s: int)
    requires
        0 <= n <= t.len(),
        0 <= s < t.len(),
        forall|k: int| 0 <= k < t.len() ==> t[k] <= 15,
    ensures
        before_sum(t, n, s) + (if s < n && t[s] > 0 {
            pow2((15 - t[s]) as nat)
        } else {
            0
        }) <= kraft_sum(t.take(n), 15),
    decreases n,
{
    if n > 0 {
        lemma_before_sum_kraft(t, n - 1, s);
        assert(t.take(n).drop_last() =~= t.take(n - 1));
        assert(t.take(n).last() == t[n - 1]);
    }
}

pub proof fn lemma_low_bits_injective(x: nat, y: nat, m: nat)
    requires
        x < pow2(m),
        y < pow2(m),
        lsb_bits(x, m) == lsb_bits(y, m),
    ensures
        x == y,
    decreases m,
{
    lemma2_to64();
    if m > 0 {
        lemma_pow2_unfold(m);
        assert(lsb_bits(x, m)[0] == bit(x, 0));
        assert(lsb_bits(y, m)[0] == bit(y, 0));
        assert(bit(x, 0) == bit(y, 0));
        assert(x / pow2(0) == x);
        assert(y / pow2(0) == y);
        assert(x % 2 == y % 2);
        assert(x / 2 < pow2((m - 1) as nat));
        assert(y / 2 < pow2((m - 1) as nat));
        assert forall|k: int| 0 <= k < m - 1 implies #[trigger] lsb_bits(x / 2, (m - 1) as nat)[k]
            == lsb_bits(y / 2, (m - 1) as nat)[k] by {
            lemma_bit_shift(x, 1, k as nat);
            lemma_bit_shift(y, 1, k as nat);
            assert(pow2(1) == 2);
            assert(lsb_bits(x, m)[k + 1] == lsb_bits(y, m)[k + 1]);
            assert(lsb_bits(x, m)[k + 1] == bit(x, (k + 1) as nat));
            assert(lsb_bits(y, m)[k + 1] == bit(y, (k + 1) as nat));
            assert(lsb_bits(x / 2, (m - 1) as nat)[k] == bit(x / 2, k as nat));
            assert(lsb_bits(y / 2, (m - 1) as nat)[k] == bit(y / 2, k as nat));
        }
        assert(lsb_bits(x / 2, (m - 1) as nat) =~= lsb_bits(y / 2, (m - 1) as nat));
        lemma_low_bits_injective(x / 2, y / 2, (m - 1) as nat);
    } else {
        assert(pow2(0) == 1);
    }
}

/// The canonical code of a used symbol, scaled to depth fifteen, is the code
/// space taken by the symbols before it; it fits in its length.
proof fn lemma_canonical_interval(t: Seq<u8>, s: int)
    requires
        0 <= s < t.len(),
        1 <= t[s],
        forall|k: int| 0 <= k < t.len() ==> t[k] <= 15,
        kraft_sum(t, 15) <= pow2(15),
    ensures
        canonical_code(t, s) * pow2((15 - t[s]) as nat) == before_sum(t, t.len() as int, s),
        canonical_code(t, s) < pow2(t[s] as nat),
{
    lemma_before_sum_split(t, t.len() as int, s);
    lemma_before_sum_kraft(t, t.len() as int, s);
    assert(t.take(t.len() as int) =~= t);
    let ls = t[s] as nat;
    let c = canonical_code(t, s);
    let p = pow2((15 - ls) as nat);
    lemma_pow2_pos((15 - ls) as nat);
    lemma_pow2_adds(ls, (15 - ls) as nat);
    assert(c < pow2(ls)) by {
        if c >= pow2(ls) {
            vstd::arithmetic::mul::lemma_mul_inequality(pow2(ls) as int, c as int, p as int);
        }
    }
}

/// Canonical codes for lengths that satisfy the Kraft inequality are
/// prefix-free: the code of one used symbol never begins the code of
/// another.
#[verifier::rlimit(80)]
pub proof fn lemma_canonical_prefix_free(t: Seq<u8>, a: int, b: int)
    requires
        forall|k: int| 0 <= k < t.len() ==> t[k] <= 15,
        kraft_sum(t, 15) <= pow2(15),
        0 <= a < t.len(),
        0 <= b < t.len(),
        a != b,
        t[a] > 0,
        t[b] > 0,
        t[a] <= t[b],
    ensures
        canonical_bits(t, b).take(t[a] as int) != canonical_bits(t, a),
{
    let la = t[a] as nat;
    let lb = t[b] as nat;
    let d = (lb - la) as nat;
    let ca = canonical_code(t, a);
    let cb = canonical_code(t, b);
    lemma_canonical_interval(t, a);
    lemma_canonical_interval(t, b);
    if canonical_bits(t, b).take(la as int) == canonical_bits(t, a) {
        let q = cb / pow2(d);
        assert forall|k: int| 0 <= k < la implies #[trigger] lsb_bits(q, la)[k] == lsb_bits(ca, la)[k] by {
            let j = (la - 1 - k) as nat;
            assert(canonical_bits(t, b).take(la as int)[k] == canonical_bits(t, a)[k]);
            assert(lb - 1 - k == j + d);
            lemma_bit_shift(cb, d, j);
            assert(lsb_bits(ca, la)[k] == bit(ca, k as nat));
            assert(msb_bits(ca, la)[(la - 1 - k) as int] == bit(ca, k as nat));
            assert(msb_bits(cb, lb)[(la - 1 - k) as int] == bit(cb, (k + d) as nat));
            assert(canonical_bits(t, b).take(la as int)[(la - 1 - k) as int] == canonical_bits(
                t,
                a,
            )[(la - 1 - k) as int]);
            lemma_bit_shift(cb, d, k as nat);
        }
        assert(lsb_bits(q, la) =~= lsb_bits(ca, la));
        lemma_pow2_pos(d);
        lemma_pow2_adds(la, d);
        vstd::arithmetic::div_mod::lemma_div_is_ordered(cb as int, pow2(lb) as int, pow2(d) as int);
        vstd::arithmetic::div_mod::lemma_div_multiples_vanish(pow2(la) as int, pow2(d) as int);
        vstd::arithmetic::mul::lemma_mul_is_commutative(pow2(la) as int, pow2(d) as int);
        assert(q <= pow2(la));
        assert(q < pow2(la)) by {
            if q == pow2(la) {
                vstd::arithmetic::div_mod::lemma_fundamental_div_mod(cb as int, pow2(d) as int);
                vstd::arithmetic::div_mod::lemma_mod_pos_bound(cb as int, pow2(d) as int);
                assert(cb >= pow2(d) * pow2(la)) by (nonlinear_arith)
                    requires
                        cb == pow2(d) * q + cb % pow2(d),
                        cb % pow2(d) >= 0,
                        q == pow2(la),
                ;
            }
        }
        lemma_low_bits_injective(q, ca, la);
        // The scaled intervals of the two codes overlap.
        let pa = pow2((15 - la) as nat);
        let pb = pow2((15 - lb) as nat);
        lemma_pow2_adds(d, (15 - lb) as nat);
        assert(pa == pow2(d) * pb);
        vstd::arithmetic::div_mod::lemma_fundamental_div_mod(cb as int, pow2(d) as int);
        vstd::arithmetic::div_mod::lemma_mod_pos_bound(cb as int, pow2(d) as int);
        lemma_pow2_pos((15 - lb) as nat);
        assert(ca * pa <= cb * pb && cb * pb < ca * pa + pa) by (nonlinear_arith)
            requires
                cb == pow2(d) * ca + cb % pow2(d),
                0 <= cb % pow2(d) < pow2(d),
                pa == pow2(d) * pb,
                pb > 0,
        ;
        if canonical_before(t, a, b) {
            lemma_before_sum_order(t, t.len() as int, a, b);
        } else {
            assert(canonical_before(t, b, a));
            lemma_before_sum_order(t, t.len() as int, b, a);
        }
    }
}

/// A stream of bits that begins with the code of a used symbol begins with
/// the code of no other used symbol: reading a code identifies its symbol.
pub proof fn lemma_canonical_decodes_uniquely(t: Seq<u8>, bits: Seq<bool>, a: int, b: int)
    requires
        forall|k: int| 0 <= k < t.len() ==> t[k] <= 15,
        kraft_sum(t, 15) <= pow2(15),
        0 <= a < t.len(),
        0 <= b < t.len(),
        t[a] > 0,
        t[b] > 0,
        t[a] <= bits.len(),
        t[b] <= bits.len(),
        bits.take(t[a] as int) == canonical_bits(t, a),
        bits.take(t[b] as int) == canonical_bits(t, b),
    ensures
        a == b,
{
    if a != b {
        if t[a] <= t[b] {
            lemma_canonical_prefix_free(t, a, b);
            assert(canonical_bits(t, b).take(t[a] as int) =~= bits.take(t[a] as int));
        } else {
            lemma_canonical_prefix_free(t, b, a);
            assert(canonical_bits(t, a).take(t[b] as int) =~= bits.take(t[b] as int));
        }
    }
}

/// Entry `a` is given its length before entry `b`: it is heavier, or as
/// heavy with a smaller symbol index.
pub open spec fn heavier_first(a: (usize, u64), b: (usize, u64)) -> bool {
    a.1 > b.1 || (a.1 == b.1 && a.0 < b.0)
}

/// The used symbols with their weights, in order of symbol index.
pub open spec fn used_entries(w: Seq<u64>) -> Seq<(usize, u64)>
    decreases w.len(),
{
    if w.len() == 0 {
        Seq::empty()
    } else if w.last() > 0 {
        used_entries(w.drop_last()).push(((w.len() - 1) as usize, w.last()))
    } else {
        used_entries(w.drop_last())
    }
}

/// `s` with `x` inserted after the last entry that it does not come
/// before.
pub open spec fn insert_back(s: Seq<(usize, u64)>, x: (usize, u64)) -> Seq<(usize, u64)>
    decreases s.len(),
{
    if s.len() > 0 && heavier_first(x, s.last()) {
        insert_back(s.drop_last(), x).push(s.last())
    } else {
        s.push(x)
    }
}

/// The entries sorted heaviest first, ties by symbol index, by insertion.
pub open spec fn sort_entries(s: Seq<(usize, u64)>) -> Seq<(usize, u64)>
    decreases s.len(),
{
    if s.len() == 0 {
        Seq::empty()
    } else {
        insert_back(sort_entries(s.drop_last()), s.last())
    }
}

/// The total weight of `stat[lo..hi]`.
pub open spec fn weight_sum(stat: Seq<(usize, u64)>, lo: int, hi: int) -> nat
    decreases hi - lo,
{
    if hi <= lo {
        0
    } else {
        weight_sum(stat, lo, hi - 1) + stat[hi - 1].1 as nat
    }
}

/// Where `stat[lo..hi]` is split, growing the left group from `i` with
/// weight `left`: each group holds at most `cap` symbols and neither is
/// empty, and the left group grows while it holds less than half of `total`
/// (counting half of the next weight).
pub open spec fn split_from(
    stat: Seq<(usize, u64)>,
    lo: int,
    hi: int,
    cap: int,
    total: nat,
    i: int,
    left: nat,
) -> int
    decreases hi - i,
{
    if i >= hi - 1 || i - lo >= cap {
        i
    } else if hi - i <= cap && left + (stat[i].1 as nat) / 2 >= total / 2 {
        i
    } else {
        split_from(stat, lo, hi, cap, total, i + 1, left + stat[i].1 as nat)
    }
}

/// The lengths of `stat[lo..hi]`, whose symbols sit at depth `depth` of
/// the code tree: a lone symbol is a leaf there, more are split in two and
/// each group placed one level deeper.
pub open spec fn bisect(stat: Seq<(usize, u64)>, lo: int, hi: int, max: nat, depth: nat) -> Seq<u8>
    decreases hi - lo,
{
    if hi - lo <= 1 {
        Seq::new((hi - lo) as nat, |k: int| depth as u8)
    } else {
        let cap = pow2((max - depth - 1) as nat) as int;
        let s = split_from(stat, lo, hi, cap, weight_sum(stat, lo, hi), lo + 1, stat[lo].1 as nat);
        if lo < s < hi {
            bisect(stat, lo, s, max, depth + 1) + bisect(stat, s, hi, max, depth + 1)
        } else {
            Seq::empty()
        }
    }
}

/// `t` with the first `k` entries of `stat` given the lengths `lens`.
pub open spec fn place(t: Seq<u8>, stat: Seq<(usize, u64)>, lens: Seq<u8>, k: int) -> Seq<u8>
    decreases k,
{
    if k <= 0 {
        t
    } else {
        place(t, stat, lens, k - 1).update(stat[k - 1].0 as int, lens[k - 1])
    }
}

/// The code lengths assigned to weights `w` with at most `max` bits: the
/// used symbols sorted heaviest first are bisected; a lone used symbol gets
/// length one, and so does its next neighbour (its previous one at the
/// end of the alphabet).
pub open spec fn code_lengths(w: Seq<u64>, max: nat) -> Seq<u8> {
    let stat = sort_entries(used_entries(w));
    let zeros = Seq::new(w.len(), |i: int| 0u8);
    if stat.len() == 0 {
        zeros
    } else if stat.len() == 1 {
        let j = stat[0].0 as int;
        let adjacent = if j + 1 < w.len() {
            j + 1
        } else {
            j - 1
        };
        zeros.update(j, 1).update(adjacent, 1)
    } else {
        place(zeros, stat, bisect(stat, 0, stat.len() as int, max, 0), stat.len() as int)
    }
}

/// Swapping two neighbouring entries keeps each entry's facts, the
/// distinct indices and every used symbol present.
proof fn lemma_swap_entries(s0: Seq<(usize, u64)>, s1: Seq<(usize, u64)>, j: int, w: Seq<u64>)
    requires
        1 <= j < s0.len(),
        s1 == s0.update(j - 1, s0[j]).update(j, s0[j - 1]),
        forall|c: int|
            0 <= c < s0.len() ==> #[trigger] s0[c].0 < w.len() && w[s0[c].0 as int] == s0[c].1
                && s0[c].1 > 0,
        forall|a: int, b: int|
            0 <= a < s0.len() && 0 <= b < s0.len() && a != b ==> #[trigger] s0[a].0
                != #[trigger] s0[b].0,
        forall|x: int|
            0 <= x < w.len() && w[x] > 0 ==> exists|c: int| 0 <= c < s0.len() && #[trigger] s0[c].0 == x,
    ensures
        forall|c: int|
            0 <= c < s1.len() ==> #[trigger] s1[c].0 < w.len() && w[s1[c].0 as int] == s1[c].1
                && s1[c].1 > 0,
        forall|a: int, b: int|
            0 <= a < s1.len() && 0 <= b < s1.len() && a != b ==> #[trigger] s1[a].0
                != #[trigger] s1[b].0,
        forall|x: int|
            0 <= x < w.len() && w[x] > 0 ==> exists|c: int| 0 <= c < s1.len() && #[trigger] s1[c].0 == x,
{
    let n = s0.len();
    assert forall|c: int| 0 <= c < n implies #[trigger] s1[c].0 < w.len() && w[s1[c].0 as int]
        == s1[c].1 && s1[c].1 > 0 by {
        if c == j - 1 {
            assert(s1[c] == s0[j]);
            assert(s0[j].0 < w.len());
        } else if c == j {
            assert(s1[c] == s0[j - 1]);
            assert(s0[j - 1].0 < w.len());
        } else {
            assert(s1[c] == s0[c]);
            assert(s0[c].0 < w.len());
        }
    }
    assert forall|a: int, b: int|
        0 <= a < n && 0 <= b < n && a != b implies #[trigger] s1[a].0 != #[trigger] s1[b].0 by {
        let a0 = if a == j - 1 {
            j
        } else if a == j {
            j - 1
        } else {
            a
        };
        let b0 = if b == j - 1 {
            j
        } else if b == j {
            j - 1
        } else {
            b
        };
        assert(s1[a] == s0[a0]);
        assert(s1[b] == s0[b0]);
        assert(s0[a0].0 != s0[b0].0);
    }
    assert forall|x: int| 0 <= x < w.len() && w[x] > 0 implies exists|c: int|
        0 <= c < n && #[trigger] s1[c].0 == x by {
        let c = choose|c: int| 0 <= c < n && #[trigger] s0[c].0 == x;
        if c == j - 1 {
            assert(s1[j].0 == x);
        } else if c == j {
            assert(s1[j - 1].0 == x);
        } else {
            assert(s1[c].0 == x);
        }
    }
}

proof fn lemma_insert_back_len(s: Seq<(usize, u64)>, x: (usize, u64))
    ensures
        insert_back(s, x).len() == s.len() + 1,
    decreases s.len(),
{
    if s.len() > 0 && heavier_first(x, s.last()) {
        lemma_insert_back_len(s.drop_last(), x);
    }
}

proof fn lemma_sort_len(s: Seq<(usize, u64)>)
    ensures
        sort_entries(s).len() == s.len(),
    decreases s.len(),
{
    if s.len() > 0 {
        lemma_sort_len(s.drop_last());
        lemma_insert_back_len(sort_entries(s.drop_last()), s.last());
    }
}

proof fn lemma_insert_back_split(p: Seq<(usize, u64)>, x: (usize, u64), j: int)
    requires
        0 <= j <= p.len(),
        forall|i: int| j <= i < p.len() ==> heavier_first(x, #[trigger] p[i]),
    ensures
        insert_back(p, x) == insert_back(p.take(j), x) + p.skip(j),
    decreases p.len() - j,
{
    if j == p.len() {
        assert(p.take(j) =~= p);
        assert(insert_back(p, x) + p.skip(j) =~= insert_back(p, x));
    } else {
        lemma_insert_back_split(p.drop_last(), x, j);
        assert(p.drop_last().take(j) =~= p.take(j));
        assert(heavier_first(x, p[p.len() - 1]));
        assert(insert_back(p.take(j), x) + p.drop_last().skip(j) + seq![p.last()] =~= insert_back(
            p.take(j),
            x,
        ) + p.skip(j));
    }
}

/// Code lengths, one per symbol of an alphabet; zero marks an unused symbol.
pub struct CodeLengthTable {
    table: Vec<u8>,
}

impl View for CodeLengthTable {
    type V = Seq<u8>;

    closed spec fn view(&self) -> Seq<u8> {
        self.table@
    }
}

impl CodeLengthTable {
    /// Lengths of at most fifteen bits that satisfy the Kraft inequality,
    /// so that canonical codes for them exist.
    pub open spec fn wf(&self) -> bool {
        &&& forall|k: int| 0 <= k < self@.len() ==> self@[k] <= 15
        &&& kraft_sum(self@, 15) <= pow2(15)
    }

    /// Assigns each symbol a code length of at most `max_length` bits from
    /// its weight, by recursive bisection of the symbols sorted by weight.
    /// Used symbols get nonzero lengths and unused ones zero, and the code is
    /// complete. A lone used symbol gets length one, and so does one unused
    /// neighbour, so that the alphabet has two codes.
    #[verifier::rlimit(80)]
    pub fn analyze(weights: &Vec<u64>, max_length: u8) -> (r: Self)
        requires
            max_length <= 15,
            2 <= weights@.len() <= pow2(max_length as nat),
        ensures
            r@ == code_lengths(weights@, max_length as nat),
            r.wf(),
            r@.len() == weights@.len(),
            forall|k: int| 0 <= k < r@.len() ==> r@[k] <= max_length,
            used_count(weights@) >= 1 ==> kraft_sum(r@, max_length as nat) == pow2(
                max_length as nat,
            ),
            used_count(weights@) == 0 ==> forall|k: int| 0 <= k < r@.len() ==> r@[k] == 0,
            used_count(weights@) >= 2 ==> forall|k: int|
                0 <= k < r@.len() ==> (r@[k] > 0 <==> weights@[k] > 0),
            used_count(weights@) == 1 ==> forall|k: int|
                0 <= k < r@.len() ==> (weights@[k] > 0 ==> r@[k] == 1) && (r@[k] <= 1) && (r@[k]
                    == 1 && weights@[k] == 0 ==> (k > 0 && weights@[k - 1] > 0) || (k + 1
                    < weights@.len() && weights@[k + 1] > 0)),
    {
        let n = weights.len();
        let mut stat: Vec<(usize, u64)> = Vec::new();
        let mut i: usize = 0;
        while i < n
            invariant
                n == weights@.len(),
                i <= n,
                stat@ == used_entries(weights@.take(i as int)),
                stat@.len() == used_count(weights@.take(i as int)),
                forall|k: int|
                    0 <= k < stat@.len() ==> #[trigger] stat@[k].0 < i && weights@[stat@[k].0 as int]
                        == stat@[k].1 && stat@[k].1 > 0,
                forall|a: int, b: int|
                    0 <= a < b < stat@.len() ==> #[trigger] stat@[a].0 < #[trigger] stat@[b].0,
                forall|j: int|
                    0 <= j < i && weights@[j] > 0 ==> exists|k: int|
                        0 <= k < stat@.len() && #[trigger] stat@[k].0 == j,
            decreases n - i,
        {
            proof {
                assert(weights@.take(i + 1).drop_last() =~= weights@.take(i as int));
            }
            let ghost s0 = stat@;
            if weights[i] > 0 {
                stat.push((i, weights[i]));
                proof {
                    assert(stat@[stat@.len() - 1].0 == i);
                    assert forall|j: int| 0 <= j < i + 1 && weights@[j] > 0 implies exists|k: int|
                        0 <= k < stat@.len() && #[trigger] stat@[k].0 == j by {
                        if j < i {
                            let c = choose|c: int| 0 <= c < s0.len() && #[trigger] s0[c].0 == j;
                            assert(stat@[c].0 == j);
                        } else {
                            assert(stat@[stat@.len() - 1].0 == j);
                        }
                    }
                }
            }
            i = i + 1;
        }
        proof {
            assert(weights@.take(n as int) =~= weights@);
        }
        let m = stat.len();
        Self::sort_by_weight(&mut stat, Ghost(weights@));
        let mut table: Vec<u8> = vec![0u8; n];
        let ghost zeros = Seq::new(n as nat, |i: int| 0u8);
        proof {
            assert(table@ =~= zeros);
            lemma_kraft_sum_zero(table@, max_length as nat);
            lemma_kraft_sum_zero(table@, 15);
            lemma_pow2_pos(15);
            lemma_used_count_le(weights@);
            lemma2_to64();
        }
        if m == 0 {
            return CodeLengthTable { table };
        }
        if m == 1 {
            let j = stat[0].0;
            let adjacent = if j + 1 < n {
                j + 1
            } else {
                j - 1
            };
            let ghost t0 = table@;
            table.set(j, 1);
            let ghost t1 = table@;
            table.set(adjacent, 1);
            proof {
                lemma_kraft_sum_update(t0, j as int, 1, max_length as nat);
                lemma_kraft_sum_update(t1, adjacent as int, 1, max_length as nat);
                lemma_pow2_unfold(max_length as nat);
                lemma_kraft_sum_scale(table@, max_length as nat, 15);
                lemma_pow2_adds(max_length as nat, (15 - max_length) as nat);
                assert forall|k: int| 0 <= k < n && weights@[k] > 0 implies k == j by {
                    let c = choose|c: int| 0 <= c < stat@.len() && #[trigger] stat@[c].0 == k;
                }
            }
            return CodeLengthTable { table };
        }
        let mut lens: Vec<u8> = vec![0u8; m];
        Self::decide_code_lengths(&stat, 0, m, max_length, 0, &mut lens);
        proof {
            assert(lens@ =~= lens@.subrange(0, m as int));
        }
        let mut k: usize = 0;
        while k < m
            invariant
                table@ == place(zeros, stat@, lens@, k as int),
                m == stat@.len() == lens@.len(),
                2 <= m,
                n == weights@.len() == table@.len(),
                k <= m,
                forall|c: int|
                    0 <= c < m ==> #[trigger] stat@[c].0 < n && weights@[stat@[c].0 as int]
                        == stat@[c].1 && stat@[c].1 > 0,
                forall|a: int, b: int|
                    0 <= a < m && 0 <= b < m && a != b ==> #[trigger] stat@[a].0
                        != #[trigger] stat@[b].0,
                forall|c: int| 0 <= c < m ==> 1 <= #[trigger] lens@[c] <= max_length,
                forall|c: int| 0 <= c < k ==> table@[#[trigger] stat@[c].0 as int] == lens@[c],
                forall|c: int| k <= c < m ==> table@[#[trigger] stat@[c].0 as int] == 0,
                forall|j: int| 0 <= j < n && table@[j] != 0 ==> weights@[j] > 0,
                forall|j: int| 0 <= j < n ==> table@[j] <= max_length,
                kraft_sum(table@, max_length as nat) == kraft_sum(
                    lens@.take(k as int),
                    max_length as nat,
                ),
            decreases m - k,
        {
            let ghost t0 = table@;
            table.set(stat[k].0, lens[k]);
            proof {
                lemma_kraft_sum_update(t0, stat@[k as int].0 as int, lens@[k as int], max_length as nat);
                assert(lens@.take(k + 1).drop_last() =~= lens@.take(k as int));
            }
            k = k + 1;
        }
        proof {
            assert(lens@.take(m as int) =~= lens@);
            lemma_kraft_sum_scale(table@, max_length as nat, 15);
            lemma_pow2_adds(max_length as nat, (15 - max_length) as nat);
            assert forall|j: int| 0 <= j < n && weights@[j] > 0 implies table@[j] > 0 by {
                let c = choose|c: int| 0 <= c < stat@.len() && #[trigger] stat@[c].0 == j;
                assert(table@[stat@[c].0 as int] == lens@[c]);
            }
        }
        CodeLengthTable { table }
    }

    /// The header of a dynamic block after its first three bits: the sizes
    /// of the two tables, a code for the code-length alphabet built from the
    /// frequencies of its symbols, and the run-length encoded lengths of both
    /// tables in that code.
    #[verifier::rlimit(80)]
    pub fn encode(lit_table: &Self, dist_table: &Self) -> (r: Bits)
        requires
            257 <= lit_table@.len() <= 286,
            1 <= dist_table@.len() <= 30,
            forall|k: int| 0 <= k < lit_table@.len() ==> lit_table@[k] <= 15,
            forall|k: int| 0 <= k < dist_table@.len() ==> dist_table@[k] <= 15,
        ensures
            r.wf(),
            table_header_ok(r@, lit_table@, dist_table@),
    {
        let mut bits = Bits::new();
        bits.append(&ShortBits::data(lit_table.table.len() as u64 - 257, 5));
        bits.append(&ShortBits::data(dist_table.table.len() as u64 - 1, 5));
        bits.append(&ShortBits::data(19 - 4, 4));
        let ghost head = bits@;
        let mut lengths: Vec<u8> = Vec::new();
        let mut k: usize = 0;
        while k < lit_table.table.len()
            invariant
                k <= lit_table@.len(),
                lengths@ == lit_table@.take(k as int),
            decreases lit_table@.len() - k,
        {
            lengths.push(lit_table.table[k]);
            k = k + 1;
            proof {
                assert(lengths@ =~= lit_table@.take(k as int));
            }
        }
        k = 0;
        while k < dist_table.table.len()
            invariant
                k <= dist_table@.len(),
                lengths@ == lit_table@ + dist_table@.take(k as int),
            decreases dist_table@.len() - k,
        {
            proof {
                assert(lit_table@.take(lit_table@.len() as int) =~= lit_table@);
            }
            lengths.push(dist_table.table[k]);
            k = k + 1;
            proof {
                assert(lengths@ =~= lit_table@ + dist_table@.take(k as int));
            }
        }
        proof {
            assert(lit_table@.take(lit_table@.len() as int) =~= lit_table@);
            assert(dist_table@.take(dist_table@.len() as int) =~= dist_table@);
            assert(lengths@ =~= lit_table@ + dist_table@);
        }
        let cls = symbolize_code_length(lengths.as_slice());
        proof {
            lemma_cl_body_valid(cls@);
        }
        let mut weights: Vec<u64> = vec![0u64; 19];
        k = 0;
        while k < cls.len()
            invariant
                k <= cls@.len(),
                forall|m: int| 0 <= m < cls@.len() ==> (#[trigger] cls@[m]).is_valid(),
                weights@.len() == 19,
                forall|c: int| 0 <= c < 19 ==> weights@[c] <= k,
                weights@ == cl_freqs(cls@.take(k as int)),
                forall|m: int| 0 <= m < k ==> weights@[(#[trigger] cls@[m]).code_spec() as int] > 0,
            decreases cls@.len() - k,
        {
            let c = cls[k].code();
            proof {
                assert(cls@.take(k + 1).drop_last() =~= cls@.take(k as int));
                assert(cls@.take(k + 1).last() == cls@[k as int]);
            }
            weights.set(c, weights[c] + 1);
            k = k + 1;
        }
        proof {
            lemma2_to64();
        }
        proof {
            assert(cls@.take(cls@.len() as int) =~= cls@);
        }
        let meta = Self::analyze(&weights, 7);
        proof {
            assert(cls@.len() > 0) by {
                if cls@.len() == 0 {
                    assert(cl_expand(cls@).len() == 0);
                }
            }
            assert(weights@[cls@[0].code_spec() as int] > 0);
            lemma_used_count_pos(weights@, cls@[0].code_spec() as int);
            assert forall|m: int| 0 <= m < cls@.len() implies meta@[#[trigger] cls@[m].code_spec() as int]
                > 0 by {
                assert(weights@[cls@[m].code_spec() as int] > 0);
            }
        }
        let meta_encoder = meta.build_encoder();
        let order: [usize; 19] = [16, 17, 18, 0, 8, 7, 9, 6, 10, 5, 11, 4, 12, 3, 13, 2, 14, 1, 15];
        proof {
            assert(order@ =~= seq![16usize, 17, 18, 0, 8, 7, 9, 6, 10, 5, 11, 4, 12, 3, 13, 2, 14, 1, 15]);
        }
        k = 0;
        while k < 19
            invariant
                k <= 19,
                bits.wf(),
                meta@.len() == 19,
                meta.table@ == meta@,
                order@ == seq![16usize, 17, 18, 0, 8, 7, 9, 6, 10, 5, 11, 4, 12, 3, 13, 2, 14, 1, 15],
                bits@ == head + meta_lengths_bits(meta@, k as int),
            decreases 19 - k,
        {
            let o = order[k];
            proof {
                assert(o == cl_order()[k as int]);
            }
            bits.append(&ShortBits::data(meta.table[o] as u64, 3));
            k = k + 1;
        }
        let ghost mid = bits@;
        k = 0;
        while k < cls.len()
            invariant
                k <= cls@.len(),
                bits.wf(),
                bits@ == mid + cl_bits(cls@.take(k as int), meta@),
                forall|m: int| 0 <= m < cls@.len() ==> (#[trigger] cls@[m]).is_valid(),
                meta_encoder.table@.len() == 19,
                forall|s: int|
                    0 <= s < 19 ==> (#[trigger] meta_encoder.table@[s]).size == meta@[s]
                        && meta_encoder.table@[s]@ == canonical_bits(meta@, s),
                forall|s: int| 0 <= s < 19 ==> meta@[s] <= 7,
            decreases cls@.len() - k,
        {
            let s = cls[k];
            let c = meta_encoder.encode(s.code());
            bits.append(&c);
            bits.append(&s.additional_bits());
            proof {
                assert(cls@.take(k + 1).drop_last() =~= cls@.take(k as int));
            }
            k = k + 1;
        }
        proof {
            assert(cls@.take(cls@.len() as int) =~= cls@);
        }
        bits
    }

    /// The canonical Huffman code of each symbol for these lengths.
    pub fn build_encoder(&self) -> (r: AlphabetEncoder)
        requires
            self@.len() <= 288,
            forall|k: int| 0 <= k < self@.len() ==> self@[k] <= 15,
        ensures
            r.table@.len() == self@.len(),
            forall|s: int|
                0 <= s < self@.len() ==> (#[trigger] r.table@[s]).size == self@[s] && r.table@[s]@
                    == canonical_bits(self@, s),
    {
        let n = self.table.len();
        let ghost t = self@;
        let mut bl_count: Vec<u64> = vec![0u64; 16];
        let mut k: usize = 0;
        while k < n
            invariant
                n == t.len() <= 288,
                t == self@,
                forall|m: int| 0 <= m < n ==> t[m] <= 15,
                k <= n,
                bl_count@.len() == 16,
                forall|l: int| 0 <= l < 16 ==> #[trigger] bl_count@[l] == count_eq(t, k as int, l as nat),
            decreases n - k,
        {
            let l = self.table[k] as usize;
            proof {
                lemma_pre_sum_bound(t, k as int, l as nat);
            }
            bl_count.set(l, bl_count[l] + 1);
            k = k + 1;
        }
        let mut next_code: Vec<u64> = vec![0u64; 16];
        let mut code: u64 = 0;
        let mut l: usize = 1;
        proof {
            lemma_pre_sum_step(t, n as int, 1);
        }
        while l < 16
            invariant
                n == t.len() <= 288,
                1 <= l <= 16,
                bl_count@.len() == 16,
                next_code@.len() == 16,
                forall|l2: int| 0 <= l2 < 16 ==> #[trigger] bl_count@[l2] == count_eq(t, n as int, l2 as nat),
                code == pre_sum(t, n as int, l as nat),
                forall|l2: int| 1 <= l2 < l ==> #[trigger] next_code@[l2] == pre_sum(t, n as int, l2 as nat),
            decreases 16 - l,
        {
            next_code.set(l, code);
            proof {
                lemma_pre_sum_step(t, n as int, l as nat);
                lemma_pre_sum_bound(t, n as int, l as nat);
                lemma_pre_sum_bound(t, n as int, (l + 1) as nat);
                lemma2_to64();
                if l < 15 {
                    lemma_pow2_strictly_increases((l + 1) as nat, 16);
                }
                vstd::arithmetic::mul::lemma_mul_inequality(n as int, 288, pow2((l + 1) as nat) as int);
                vstd::arithmetic::mul::lemma_mul_inequality(pow2((l + 1) as nat) as int, 65536, 288);
            }
            code = (code + bl_count[l]) * 2;
            l = l + 1;
        }
        let mut table: Vec<ShortBits> = Vec::new();
        let mut s: usize = 0;
        while s < n
            invariant
                n == t.len() <= 288,
                t == self@,
                forall|m: int| 0 <= m < n ==> t[m] <= 15,
                s <= n,
                table@.len() == s,
                next_code@.len() == 16,
                forall|l2: int|
                    1 <= l2 < 16 ==> #[trigger] next_code@[l2] == pre_sum(t, n as int, l2 as nat)
                        + count_eq(t, s as int, l2 as nat),
                forall|s2: int|
                    0 <= s2 < s ==> (#[trigger] table@[s2]).size == t[s2] && table@[s2]@
                        == canonical_bits(t, s2),
            decreases n - s,
        {
            let len = self.table[s];
            if len == 0 {
                let c = ShortBits::code(0, 0);
                proof {
                    assert(c@ =~= canonical_bits(t, s as int));
                }
                table.push(c);
            } else {
                proof {
                    lemma_pre_sum_bound(t, n as int, len as nat);
                    lemma_pre_sum_bound(t, s as int, len as nat);
                    lemma2_to64();
                    if len < 15 {
                        lemma_pow2_strictly_increases(len as nat, 15);
                    }
                    vstd::arithmetic::mul::lemma_mul_inequality(n as int, 288, pow2(len as nat) as int);
                    vstd::arithmetic::mul::lemma_mul_inequality(pow2(len as nat) as int, 32768, 288);
                }
                let v = next_code[len as usize];
                table.push(ShortBits::code(v, len));
                next_code.set(len as usize, v + 1);
            }
            s = s + 1;
        }
        AlphabetEncoder::new(table)
    }

    /// Sorts by descending weight, ties by ascending symbol index; the
    /// entries stay the same.
    fn sort_by_weight(stat: &mut Vec<(usize, u64)>, Ghost(w): Ghost<Seq<u64>>)
        requires
            forall|k: int|
                0 <= k < old(stat)@.len() ==> #[trigger] old(stat)@[k].0 < w.len() && w[old(stat)@[k].0 as int] == old(stat)@[k].1 && old(stat)@[k].1 > 0,
            forall|a: int, b: int|
                0 <= a < old(stat)@.len() && 0 <= b < old(stat)@.len() && a != b
                    ==> #[trigger] old(stat)@[a].0 != #[trigger] old(stat)@[b].0,
            forall|j: int|
                0 <= j < w.len() && w[j] > 0 ==> exists|k: int|
                    0 <= k < old(stat)@.len() && #[trigger] old(stat)@[k].0 == j,
        ensures
            final(stat)@ == sort_entries(old(stat)@),
            final(stat)@.len() == old(stat)@.len(),
            forall|k: int|
                0 <= k < final(stat)@.len() ==> #[trigger] final(stat)@[k].0 < w.len() && w[final(stat)@[k].0 as int] == final(stat)@[k].1 && final(stat)@[k].1 > 0,
            forall|a: int, b: int|
                0 <= a < final(stat)@.len() && 0 <= b < final(stat)@.len() && a != b
                    ==> #[trigger] final(stat)@[a].0 != #[trigger] final(stat)@[b].0,
            forall|j: int|
                0 <= j < w.len() && w[j] > 0 ==> exists|k: int|
                    0 <= k < final(stat)@.len() && #[trigger] final(stat)@[k].0 == j,
    {
        let n = stat.len();
        let ghost orig = stat@;
        let mut k: usize = 0;
        proof {
            assert(stat@.take(0) =~= sort_entries(orig.take(0)));
            assert(stat@.skip(0) =~= orig);
        }
        while k < n
            invariant
                n == stat@.len() == orig.len(),
                k <= n,
                stat@.take(k as int) == sort_entries(orig.take(k as int)),
                stat@.skip(k as int) == orig.skip(k as int),
                forall|c: int|
                    0 <= c < n ==> #[trigger] stat@[c].0 < w.len() && w[stat@[c].0 as int]
                        == stat@[c].1 && stat@[c].1 > 0,
                forall|a: int, b: int|
                    0 <= a < n && 0 <= b < n && a != b ==> #[trigger] stat@[a].0
                        != #[trigger] stat@[b].0,
                forall|j: int|
                    0 <= j < w.len() && w[j] > 0 ==> exists|c: int|
                        0 <= c < n && #[trigger] stat@[c].0 == j,
            decreases n - k,
        {
            let ghost p = sort_entries(orig.take(k as int));
            let ghost x = orig[k as int];
            proof {
                lemma_sort_len(orig.take(k as int));
                assert(stat@ =~= stat@.take(k as int) + stat@.skip(k as int));
                assert(orig.skip(k as int) =~= seq![x] + orig.skip(k + 1));
                assert(stat@ =~= p.take(k as int) + seq![x] + p.skip(k as int) + orig.skip(k + 1));
            }
            let mut j: usize = k;
            while j > 0 && (stat[j].1 > stat[j - 1].1 || (stat[j].1 == stat[j - 1].1 && stat[j].0
                < stat[j - 1].0))
                invariant
                    n == stat@.len() == orig.len(),
                    j <= k < n,
                    p.len() == k,
                    stat@ == p.take(j as int) + seq![x] + p.skip(j as int) + orig.skip(k + 1),
                    forall|i: int| j <= i < k ==> heavier_first(x, #[trigger] p[i]),
                    forall|c: int|
                        0 <= c < n ==> #[trigger] stat@[c].0 < w.len() && w[stat@[c].0 as int]
                            == stat@[c].1 && stat@[c].1 > 0,
                    forall|a: int, b: int|
                        0 <= a < n && 0 <= b < n && a != b ==> #[trigger] stat@[a].0
                            != #[trigger] stat@[b].0,
                    forall|x: int|
                        0 <= x < w.len() && w[x] > 0 ==> exists|c: int|
                            0 <= c < n && #[trigger] stat@[c].0 == x,
                decreases j,
            {
                let ghost s0 = stat@;
                let a = stat[j - 1];
                let b = stat[j];
                stat.set(j - 1, b);
                stat.set(j, a);
                proof {
                    assert(b == x);
                    assert(a == p[j - 1]);
                    lemma_swap_entries(s0, stat@, j as int, w);
                    assert(stat@ =~= p.take(j - 1) + seq![x] + p.skip(j - 1) + orig.skip(k + 1));
                }
                j = j - 1;
            }
            proof {
                lemma_insert_back_split(p, x, j as int);
                if j > 0 {
                    assert(p.take(j as int).last() == p[j - 1]);
                }
                assert(insert_back(p.take(j as int), x) =~= p.take(j as int).push(x));
                assert(orig.take(k + 1).drop_last() =~= orig.take(k as int));
                assert(orig.take(k + 1).last() == x);
                assert(stat@.take(k + 1) =~= p.take(j as int) + seq![x] + p.skip(j as int));
                assert(stat@.skip(k + 1) =~= orig.skip(k + 1));
            }
            k = k + 1;
        }
        proof {
            assert(stat@ =~= stat@.take(n as int));
            assert(orig =~= orig.take(n as int));
        }
    }

    /// Gives the symbols `stat[lo..hi]`, which sit at depth `depth` of the
    /// code tree, their lengths in `lens`: a lone symbol is a leaf at this
    /// depth; more are split in two groups, each small enough for the space
    /// below it, and the left one grown while it holds less than half the
    /// weight.
    fn decide_code_lengths(
        stat: &Vec<(usize, u64)>,
        lo: usize,
        hi: usize,
        max_length: u8,
        depth: u8,
        lens: &mut Vec<u8>,
    )
        requires
            lo < hi <= stat@.len() == old(lens)@.len(),
            max_length <= 15,
            depth <= max_length,
            hi - lo <= pow2((max_length - depth) as nat),
            hi - lo == 1 ==> depth >= 1,
        ensures
            final(lens)@.len() == old(lens)@.len(),
            forall|k: int| lo <= k < hi ==> depth <= #[trigger] final(lens)@[k] <= max_length,
            forall|k: int| lo <= k < hi ==> 1 <= #[trigger] final(lens)@[k],
            forall|k: int|
                0 <= k < final(lens)@.len() && !(lo <= k < hi) ==> #[trigger] final(lens)@[k]
                    == old(lens)@[k],
            kraft_sum(final(lens)@.subrange(lo as int, hi as int), max_length as nat) == pow2(
                (max_length - depth) as nat,
            ),
            final(lens)@.subrange(lo as int, hi as int) == bisect(
                stat@,
                lo as int,
                hi as int,
                max_length as nat,
                depth as nat,
            ),
        decreases hi - lo,
    {
        if hi - lo == 1 {
            lens.set(lo, depth);
            proof {
                let sub = lens@.subrange(lo as int, hi as int);
                assert(sub.drop_last() =~= Seq::<u8>::empty());
                assert(sub.last() == depth);
                assert(kraft_sum(sub.drop_last(), max_length as nat) == 0);
                assert(sub =~= bisect(stat@, lo as int, hi as int, max_length as nat, depth as nat));
            }
            return;
        }
        proof {
            lemma2_to64();
            if max_length == depth {
                assert(pow2(0) == 1);
            }
        }
        let e: u8 = max_length - depth - 1;
        proof {
            lemma_usize_pow2_no_overflow(e as nat);
            lemma_usize_shl_is_mul(1, e as usize);
            lemma_pow2_unfold((max_length - depth) as nat);
            if max_length - depth < 15 {
                lemma_pow2_strictly_increases((max_length - depth) as nat, 15);
            }
        }
        let side_cap: usize = 1usize << e;
        let mut total: u128 = 0;
        let mut k: usize = lo;
        while k < hi
            invariant
                lo <= k <= hi <= stat@.len(),
                hi - lo <= 32768,
                total <= (k - lo) * 0x1_0000_0000_0000_0000,
                total == weight_sum(stat@, lo as int, k as int),
            decreases hi - k,
        {
            total = total + stat[k].1 as u128;
            k = k + 1;
        }
        let mut left: u128 = stat[lo].1 as u128;
        let mut i: usize = lo + 1;
        let mut done = false;
        while !done && i < hi - 1 && i - lo < side_cap
            invariant
                lo + 1 <= i <= hi - 1,
                hi <= stat@.len(),
                i - lo <= side_cap,
                hi - lo <= 2 * side_cap,
                hi - lo <= 32768,
                left <= (i - lo) * 0x1_0000_0000_0000_0000,
                done ==> hi - i <= side_cap,
                total == weight_sum(stat@, lo as int, hi as int),
                side_cap == pow2(e as nat),
                e == max_length - depth - 1,
                split_from(
                    stat@,
                    lo as int,
                    hi as int,
                    side_cap as int,
                    total as nat,
                    lo + 1,
                    stat@[lo as int].1 as nat,
                ) == if done {
                    i as int
                } else {
                    split_from(stat@, lo as int, hi as int, side_cap as int, total as nat, i as int, left as nat)
                },
            decreases hi - i + if done {
                0int
            } else {
                1int
            },
        {
            let w = stat[i].1 as u128;
            if hi - i <= side_cap && left + w / 2 >= total / 2 {
                done = true;
            } else {
                left = left + w;
                i = i + 1;
            }
        }
        Self::decide_code_lengths(stat, lo, i, max_length, depth + 1, lens);
        let ghost mid = lens@;
        Self::decide_code_lengths(stat, i, hi, max_length, depth + 1, lens);
        proof {
            assert(lens@.subrange(lo as int, i as int) =~= mid.subrange(lo as int, i as int));
            assert(lens@.subrange(lo as int, hi as int) =~= lens@.subrange(lo as int, i as int)
                + lens@.subrange(i as int, hi as int));
            lemma_kraft_sum_concat(
                lens@.subrange(lo as int, i as int),
                lens@.subrange(i as int, hi as int),
                max_length as nat,
            );
            assert(split_from(
                stat@,
                lo as int,
                hi as int,
                side_cap as int,
                total as nat,
                lo + 1,
                stat@[lo as int].1 as nat,
            ) == i);
        }
    }
}

pub proof fn lemma_kraft_sum_zero(t: Seq<u8>, max: nat)
    requires
        forall|k: int| 0 <= k < t.len() ==> t[k] == 0,
    ensures
        kraft_sum(t, max) == 0,
    decreases t.len(),
{
    if t.len() > 0 {
        lemma_kraft_sum_zero(t.drop_last(), max);
    }
}

} // verus!
