//! Bit-level values: short bit fields and a least-significant-bit-first
//! accumulator that packs them into bytes.
use vstd::arithmetic::div_mod::*;
use vstd::arithmetic::mul::*;
use vstd::arithmetic::power2::*;
use vstd::bits::*;
use vstd::prelude::*;

verus! {

/// Bit `k` of `x`, counting from the least significant bit.
pub open spec fn bit(x: nat, k: nat) -> bool {
    (x / pow2(k)) % 2 == 1
}

/// The low `n` bits of `v`, least significant bit first.
pub open spec fn lsb_bits(v: nat, n: nat) -> Seq<bool> {
    Seq::new(n, |k: int| bit(v, k as nat))
}

/// The low `n` bits of `v`, most significant bit first.
pub open spec fn msb_bits(v: nat, n: nat) -> Seq<bool> {
    Seq::new(n, |k: int| bit(v, (n - 1 - k) as nat))
}

/// The bits of a byte sequence, each byte least significant bit first.
pub open spec fn bytes_bits(bytes: Seq<u8>) -> Seq<bool> {
    Seq::new(8 * bytes.len(), |k: int| bit(bytes[k / 8] as nat, (k % 8) as nat))
}

/// Placing `o` above the `s` low bits held by `a` keeps the bits of both.
pub proof fn lemma_bit_split(a: nat, o: nat, s: nat, k: nat)
    requires
        a < pow2(s),
    ensures
        bit(a + o * pow2(s), k) == if k < s {
            bit(a, k)
        } else {
            bit(o, (k - s) as nat)
        },
{
    let x = a + o * pow2(s);
    lemma_pow2_pos(k);
    lemma_pow2_pos(s);
    if k < s {
        let d = pow2(k);
        let e = (s - k) as nat;
        lemma_pow2_adds(k, e);
        lemma_pow2_unfold(e);
        lemma_pow2_pos((e - 1) as nat);
        let j = o * pow2((e - 1) as nat);
        assert(o * pow2(s) == (2 * j) * d) by {
            lemma_mul_is_associative(o as int, pow2(e) as int, d as int);
            lemma_mul_is_commutative(pow2(k) as int, pow2(e) as int);
            lemma_mul_is_associative(o as int, 2, pow2((e - 1) as nat) as int);
            lemma_mul_is_commutative(o as int, 2);
            lemma_mul_is_associative(2, o as int, pow2((e - 1) as nat) as int);
        }
        lemma_fundamental_div_mod(a as int, d as int);
        assert(x == (2 * j + a / d) * d + a % d) by {
            lemma_mul_is_distributive_add_other_way(d as int, (2 * j) as int, (a / d) as int);
            lemma_mul_is_commutative(d as int, (a / d) as int);
        }
        lemma_mod_pos_bound(a as int, d as int);
        lemma_fundamental_div_mod_converse(x as int, d as int, (2 * j + a / d) as int, (a % d) as int);
        lemma_mod_multiples_vanish(j as int, (a / d) as int, 2);
    } else {
        let e = (k - s) as nat;
        lemma_pow2_adds(s, e);
        lemma_pow2_pos(e);
        lemma_div_denominator(x as int, pow2(s) as int, pow2(e) as int);
        lemma_mul_is_commutative(o as int, pow2(s) as int);
        lemma_div_multiples_vanish_fancy(o as int, a as int, pow2(s) as int);
    }
}

/// Dropping the `d` low bits of `x` moves each higher bit down by `d`.
pub proof fn lemma_bit_shift(x: nat, d: nat, j: nat)
    ensures
        bit(x, j + d) == bit(x / pow2(d), j),
{
    lemma_pow2_pos(d);
    lemma_pow2_pos(j);
    lemma_pow2_adds(d, j);
    lemma_div_denominator(x as int, pow2(d) as int, pow2(j) as int);
}

/// Reducing `v` modulo `2^s` keeps its low `s` bits.
pub proof fn lemma_bits_mod(v: nat, s: nat)
    ensures
        lsb_bits(v % pow2(s), s) == lsb_bits(v, s),
{
    lemma_pow2_pos(s);
    lemma_fundamental_div_mod(v as int, pow2(s) as int);
    lemma_mod_pos_bound(v as int, pow2(s) as int);
    lemma_mul_is_commutative((v / pow2(s)) as int, pow2(s) as int);
    assert forall|k: int| 0 <= k < s implies #[trigger] lsb_bits(v % pow2(s), s)[k] == lsb_bits(v, s)[k] by {
        lemma_bit_split(v % pow2(s), v / pow2(s), s, k as nat);
    }
    assert(lsb_bits(v % pow2(s), s) =~= lsb_bits(v, s));
}

/// Setting bit `i` above a value of `i` bits appends that bit.
pub proof fn lemma_lsb_push(v: nat, i: nat, b: bool)
    requires
        v < pow2(i),
    ensures
        v + (if b {
            pow2(i)
        } else {
            0
        }) < pow2(i + 1),
        lsb_bits(
            v + (if b {
                pow2(i)
            } else {
                0
            }),
            i + 1,
        ) == lsb_bits(v, i).push(b),
{
    let o: nat = if b {
        1
    } else {
        0
    };
    let w = v + (if b {
        pow2(i)
    } else {
        0
    });
    lemma_pow2_unfold(i + 1);
    lemma2_to64();
    assert(w == v + o * pow2(i));
    assert forall|k: int| 0 <= k < i + 1 implies #[trigger] lsb_bits(w, i + 1)[k] == lsb_bits(
        v,
        i,
    ).push(b)[k] by {
        lemma_bit_split(v, o, i, k as nat);
        if k == i {
            assert(o / pow2(0) == o);
            assert(lsb_bits(v, i).push(b)[k] == b);
        } else {
            assert(lsb_bits(v, i).push(b)[k] == lsb_bits(v, i)[k]);
        }
    }
    assert(lsb_bits(w, i + 1) =~= lsb_bits(v, i).push(b));
}

/// Appending a byte appends its eight bits.
pub proof fn lemma_bytes_bits_push(bytes: Seq<u8>, x: u8)
    ensures
        bytes_bits(bytes.push(x)) == bytes_bits(bytes) + lsb_bits(x as nat, 8),
{
    let l = bytes.len();
    assert forall|k: int| 0 <= k < 8 * (l + 1) implies #[trigger] bytes_bits(bytes.push(x))[k] == (
    bytes_bits(bytes) + lsb_bits(x as nat, 8))[k] by {
        if k < 8 * l {
            assert(k / 8 < l);
        } else {
            assert(k / 8 == l);
            assert(k % 8 == k - 8 * l);
        }
    }
    assert(bytes_bits(bytes.push(x)) =~= bytes_bits(bytes) + lsb_bits(x as nat, 8));
}

/// The bits of two byte sequences one after the other.
pub proof fn lemma_bytes_bits_concat(a: Seq<u8>, b: Seq<u8>)
    ensures
        bytes_bits(a + b) == bytes_bits(a) + bytes_bits(b),
    decreases b.len(),
{
    if b.len() == 0 {
        assert(a + b =~= a);
        assert(bytes_bits(b) =~= Seq::<bool>::empty());
        assert(bytes_bits(a) + bytes_bits(b) =~= bytes_bits(a));
    } else {
        lemma_bytes_bits_concat(a, b.drop_last());
        assert(a + b =~= (a + b.drop_last()).push(b.last()));
        assert(b =~= b.drop_last().push(b.last()));
        lemma_bytes_bits_push(a + b.drop_last(), b.last());
        lemma_bytes_bits_push(b.drop_last(), b.last());
    }
}

/// Bit `k` of a 64-bit value.
fn bit_at(v: u64, k: u8) -> (r: bool)
    requires
        k < 64,
    ensures
        r == bit(v as nat, k as nat),
{
    proof {
        lemma_u64_shr_is_div(v, k as u64);
    }
    (v >> k) % 2 == 1
}

/// A stream of bits under construction: whole bytes, then a partial byte
/// of `i` bits held in the low bits of `bits`.
pub struct Bits {
    bytes: Vec<u8>,
    bits: u8,
    i: usize,
}

impl View for Bits {
    type V = Seq<bool>;

    closed spec fn view(&self) -> Seq<bool> {
        bytes_bits(self.bytes@) + lsb_bits(self.bits as nat, self.i as nat)
    }
}

impl Bits {
    /// The partial byte holds fewer than eight bits, and nothing above them.
    pub closed spec fn wf(&self) -> bool {
        self.i < 8 && self.bits < pow2(self.i as nat)
    }

    /// Bits that do not yet fill a byte.
    pub closed spec fn is_partial(&self) -> bool {
        self.bytes@.len() == 0
    }

    /// An empty stream.
    pub fn new() -> (r: Self)
        ensures
            r.wf(),
            r.is_partial(),
            r@ == Seq::<bool>::empty(),
    {
        proof {
            lemma2_to64();
            assert(bytes_bits(Seq::<u8>::empty()) + lsb_bits(0, 0) =~= Seq::<bool>::empty());
        }
        Bits { bytes: Vec::new(), bits: 0, i: 0 }
    }

    fn push_bit(&mut self, b: bool)
        requires
            old(self).wf(),
        ensures
            final(self).wf(),
            final(self)@ == old(self)@.push(b),
    {
        proof {
            lemma_lsb_push(self.bits as nat, self.i as nat, b);
            lemma2_to64();
            lemma_pow2_strictly_increases(self.i as nat, 8);
            lemma_u8_pow2_no_overflow(self.i as nat);
            lemma_u8_shl_is_mul(1, self.i as u8);
        }
        if b {
            self.bits = self.bits + (1u8 << (self.i as u8));
        }
        self.i = self.i + 1;
        if self.i == 8 {
            proof {
                lemma_bytes_bits_push(self.bytes@, self.bits);
            }
            self.bytes.push(self.bits);
            self.i = 0;
            self.bits = 0;
            proof {
                assert(lsb_bits(0, 0) =~= Seq::<bool>::empty());
            }
        }
        proof {
            assert(self@ =~= old(self)@.push(b));
        }
    }

    /// Appends the given bits, in order.
    pub fn add(&mut self, bits: &[bool])
        requires
            old(self).wf(),
        ensures
            final(self).wf(),
            final(self)@ == old(self)@ + bits@,
    {
        let mut k: usize = 0;
        while k < bits.len()
            invariant
                self.wf(),
                k <= bits@.len(),
                self@ == old(self)@ + bits@.subrange(0, k as int),
            decreases bits.len() - k,
        {
            self.push_bit(bits[k]);
            k = k + 1;
            proof {
                assert(bits@.subrange(0, k as int) =~= bits@.subrange(0, k - 1).push(bits@[k - 1]));
            }
        }
        proof {
            assert(bits@.subrange(0, k as int) =~= bits@);
        }
    }

    /// Appends the bits of a short field.
    pub fn append(&mut self, another: &ShortBits)
        requires
            old(self).wf(),
            another.size <= 64,
        ensures
            final(self).wf(),
            final(self)@ == old(self)@ + another@,
    {
        let mut j: u8 = 0;
        while j < another.size
            invariant
                self.wf(),
                j <= another.size <= 64,
                self@ == old(self)@ + lsb_bits(another.body as nat, j as nat),
            decreases another.size - j,
        {
            let b = bit_at(another.body, j);
            self.push_bit(b);
            proof {
                assert(lsb_bits(another.body as nat, (j + 1) as nat) =~= lsb_bits(
                    another.body as nat,
                    j as nat,
                ).push(b));
            }
            j = j + 1;
        }
    }

    /// Appends all bits of another stream, without aligning to a byte.
    pub fn extend(&mut self, another: &Self)
        requires
            old(self).wf(),
            another.wf(),
        ensures
            final(self).wf(),
            final(self)@ == old(self)@ + another@,
    {
        let mut k: usize = 0;
        while k < another.bytes.len()
            invariant
                self.wf(),
                k <= another.bytes@.len(),
                self@ == old(self)@ + bytes_bits(another.bytes@.subrange(0, k as int)),
            decreases another.bytes.len() - k,
        {
            let byte = another.bytes[k];
            self.append(&ShortBits::data(byte as u64, 8));
            proof {
                lemma_bytes_bits_push(another.bytes@.subrange(0, k as int), byte);
                assert(another.bytes@.subrange(0, k + 1) =~= another.bytes@.subrange(
                    0,
                    k as int,
                ).push(byte));
            }
            k = k + 1;
        }
        proof {
            assert(another.bytes@.subrange(0, k as int) =~= another.bytes@);
        }
        self.append(&ShortBits::data(another.bits as u64, another.i as u8));
        proof {
            assert(self@ =~= old(self)@ + another@);
        }
    }

    /// Hands out the whole bytes and keeps the partial byte.
    pub fn drain_bytes(self) -> (r: (Vec<u8>, Self))
        requires
            self.wf(),
        ensures
            r.1.wf(),
            r.1.is_partial(),
            bytes_bits(r.0@) + r.1@ == self@,
    {
        let rest = Bits { bytes: Vec::new(), bits: self.bits, i: self.i };
        proof {
            assert(bytes_bits(Seq::<u8>::empty()) =~= Seq::<bool>::empty());
            assert(rest@ =~= lsb_bits(self.bits as nat, self.i as nat));
        }
        (self.bytes, rest)
    }

    /// The final partial byte, its unused high bits zero; `None` when the
    /// stream ends on a byte boundary.
    pub fn last(self) -> (r: Option<u8>)
        requires
            self.wf(),
            self.is_partial(),
        ensures
            self@.len() < 8,
            r is None <==> self@.len() == 0,
            r matches Some(b) ==> lsb_bits(b as nat, 8) == self@ + Seq::new(
                (8 - self@.len()) as nat,
                |k: int| false,
            ),
    {
        proof {
            assert(bytes_bits(self.bytes@) =~= Seq::<bool>::empty());
            assert(self@ =~= lsb_bits(self.bits as nat, self.i as nat));
        }
        if self.i == 0 {
            None
        } else {
            proof {
                lemma2_to64();
                lemma_pow2_strictly_increases(self.i as nat, 8);
                let pad = Seq::new((8 - self.i) as nat, |k: int| false);
                assert forall|k: int| 0 <= k < 8 implies #[trigger] lsb_bits(self.bits as nat, 8)[k]
                    == (self@ + pad)[k] by {
                    if k >= self.i {
                        lemma_bit_split(self.bits as nat, 0, self.i as nat, k as nat);
                        lemma_pow2_pos((k - self.i) as nat);
                    }
                }
                assert(lsb_bits(self.bits as nat, 8) =~= self@ + pad);
            }
            Some(self.bits)
        }
    }
}

/// A field of at most 64 bits, held in the low `size` bits of `body`; the
/// field is written out starting from the least significant bit.
#[derive(Clone, Copy, Debug)]
pub struct ShortBits {
    pub body: u64,
    pub size: u8,
}

impl View for ShortBits {
    type V = Seq<bool>;

    open spec fn view(&self) -> Seq<bool> {
        lsb_bits(self.body as nat, self.size as nat)
    }
}

impl ShortBits {
    /// A Huffman code: the low `size` bits of `rev_body`, written most
    /// significant bit first.
    pub fn code(rev_body: u64, size: u8) -> (r: Self)
        requires
            size <= 64,
        ensures
            r.size == size,
            r.body < pow2(size as nat),
            r@ == msb_bits(rev_body as nat, size as nat),
    {
        let mut body: u64 = 0;
        let mut j: u8 = 0;
        proof {
            lemma2_to64();
            assert(lsb_bits(0, 0) =~= msb_bits(rev_body as nat, 0));
        }
        while j < size
            invariant
                j <= size <= 64,
                body < pow2(j as nat),
                lsb_bits(body as nat, j as nat) == msb_bits(rev_body as nat, j as nat),
            decreases size - j,
        {
            let b = bit_at(rev_body, j);
            let v: u64 = if b {
                1
            } else {
                0
            };
            proof {
                lemma_pow2_unfold((j + 1) as nat);
                lemma2_to64();
                lemma2_to64_rest();
                if j + 1 < 64 {
                    lemma_pow2_strictly_increases((j + 1) as nat, 64);
                }
                assert(pow2(1) == 2) by {
                    lemma2_to64();
                }
                assert(v < pow2(1));
                assert forall|k: int| 0 <= k < j + 1 implies #[trigger] lsb_bits(
                    (v + body * 2) as nat,
                    (j + 1) as nat,
                )[k] == msb_bits(rev_body as nat, (j + 1) as nat)[k] by {
                    lemma_bit_split(v as nat, body as nat, 1, k as nat);
                    if k == 0 {
                        assert(v as nat / pow2(0) == v) by {
                            lemma2_to64();
                        }
                    } else {
                        assert(lsb_bits(body as nat, j as nat)[k - 1] == msb_bits(
                            rev_body as nat,
                            j as nat,
                        )[k - 1]);
                    }
                }
                assert(lsb_bits((v + body * 2) as nat, (j + 1) as nat) =~= msb_bits(
                    rev_body as nat,
                    (j + 1) as nat,
                ));
            }
            body = v + body * 2;
            j = j + 1;
        }
        ShortBits { body, size }
    }

    /// A raw field: the low `size` bits of `body`, least significant first.
    pub fn data(body: u64, size: u8) -> (r: Self)
        ensures
            r.body == body,
            r.size == size,
            r@ == lsb_bits(body as nat, size as nat),
    {
        ShortBits { body, size }
    }

    /// The same field with the bits above `size` cleared.
    pub fn trim(self) -> (r: Self)
        ensures
            r.size == self.size,
            r@ == self@,
            r.body < pow2(self.size as nat),
            r.body == (self.body as nat) % pow2(self.size as nat),
    {
        if self.size >= 64 {
            proof {
                lemma2_to64_rest();
                if self.size > 64 {
                    lemma_pow2_strictly_increases(64, self.size as nat);
                }
                lemma_small_mod(self.body as nat, pow2(self.size as nat));
            }
            self
        } else {
            proof {
                lemma_u64_pow2_no_overflow(self.size as nat);
                lemma_u64_shl_is_mul(1, self.size as u64);
                lemma_bits_mod(self.body as nat, self.size as nat);
                lemma_mod_pos_bound(self.body as int, pow2(self.size as nat) as int);
            }
            let m: u64 = 1u64 << self.size;
            ShortBits { body: self.body % m, size: self.size }
        }
    }

    /// The empty field.
    pub fn zero() -> (r: Self)
        ensures
            r.size == 0,
            r@ == Seq::<bool>::empty(),
    {
        proof {
            assert(lsb_bits(0, 0) =~= Seq::<bool>::empty());
        }
        ShortBits { body: 0, size: 0 }
    }

    /// The bits of `self` followed by the bits of `another`.
    pub fn concat(&self, another: &Self) -> (r: Self)
        requires
            self.size + another.size <= 64,
        ensures
            r.size == self.size + another.size,
            r@ == self@ + another@,
            self.body < pow2(self.size as nat) && another.body < pow2(another.size as nat) ==> r.body
                == self.body + another.body * pow2(self.size as nat),
    {
        let a = self.trim();
        proof {
            lemma_pow2_pos(self.size as nat);
            lemma_pow2_pos(another.size as nat);
            if self.body < pow2(self.size as nat) {
                lemma_small_mod(self.body as nat, pow2(self.size as nat));
            }
            if another.body < pow2(another.size as nat) {
                lemma_small_mod(another.body as nat, pow2(another.size as nat));
            }
        }
        if self.size == 64 {
            proof {
                if another.body < pow2(another.size as nat) {
                    lemma2_to64();
                    assert(another.body == 0);
                }
                assert(another@ =~= Seq::<bool>::empty());
                assert(self@ + another@ =~= self@);
            }
            return a;
        }
        let o = another.trim();
        let s = self.size;
        let size = self.size + another.size;
        proof {
            lemma_u64_pow2_no_overflow(s as nat);
            lemma_pow2_adds(s as nat, another.size as nat);
            lemma2_to64_rest();
            if size < 64 {
                lemma_pow2_strictly_increases(size as nat, 64);
            }
            lemma_mul_inequality(o.body as int + 1, pow2(another.size as nat) as int, pow2(s as nat) as int);
            lemma_mul_is_distributive_add_other_way(pow2(s as nat) as int, o.body as int, 1);
            lemma_mul_is_commutative(pow2(another.size as nat) as int, pow2(s as nat) as int);
            lemma_u64_shl_is_mul(o.body, s as u64);
        }
        let body: u64 = a.body + (o.body << s);
        proof {
            assert forall|k: int| 0 <= k < size implies #[trigger] lsb_bits(body as nat, size as nat)[k]
                == (self@ + another@)[k] by {
                lemma_bit_split(a.body as nat, o.body as nat, s as nat, k as nat);
            }
            assert(lsb_bits(body as nat, size as nat) =~= self@ + another@);
        }
        ShortBits { body, size }
    }
}

} // verus!
