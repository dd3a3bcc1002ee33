//! CRC-32 (the polynomial of gzip), table driven.
use vstd::prelude::*;

verus! {

/// `c` after `i` rounds of shifting out one bit and folding the reversed
/// polynomial back in when that bit was set.
pub open spec fn crc_rounds(c: u32, i: nat) -> u32
    decreases i,
{
    if i == 0 {
        c
    } else {
        let p = crc_rounds(c, (i - 1) as nat);
        if p & 1 == 1 {
            0xedb88320u32 ^ (p >> 1u32)
        } else {
            p >> 1u32
        }
    }
}

/// Entry `n` of the byte table.
pub open spec fn crc_table_entry(n: nat) -> u32 {
    crc_rounds(n as u32, 8)
}

/// The register after reading `data` from register value `c`.
pub open spec fn crc_update(c: u32, data: Seq<u8>) -> u32
    decreases data.len(),
{
    if data.len() == 0 {
        c
    } else {
        let p = crc_update(c, data.drop_last());
        crc_table_entry(((p ^ (data.last() as u32)) & 0xffu32) as nat) ^ (p >> 8u32)
    }
}

/// A running CRC-32 register with its byte table.
pub struct Crc {
    value: u32,
    table: Vec<u32>,
}

impl Crc {
    /// The register value, before the final inversion.
    pub closed spec fn value(&self) -> u32 {
        self.value
    }

    /// The byte table is in place.
    pub closed spec fn wf(&self) -> bool {
        &&& self.table@.len() == 256
        &&& forall|n: int| 0 <= n < 256 ==> #[trigger] self.table@[n] == crc_table_entry(n as nat)
    }

    /// A register for an empty input.
    pub fn new() -> (r: Self)
        ensures
            r.wf(),
            r.value() == 0xffff_ffffu32,
    {
        Crc { value: 0xffff_ffff, table: make_table() }
    }

    /// The register after reading `data` too.
    pub fn append(self, data: &[u8]) -> (r: Self)
        requires
            self.wf(),
        ensures
            r.wf(),
            r.value() == crc_update(self.value(), data@),
    {
        let mut c = self.value;
        let mut k: usize = 0;
        while k < data.len()
            invariant
                self.wf(),
                k <= data@.len(),
                c == crc_update(self.value, data@.take(k as int)),
            decreases data@.len() - k,
        {
            proof {
                assert(data@.take(k + 1).drop_last() =~= data@.take(k as int));
            }
            let d = data[k];
            let i = (c ^ (d as u32)) & 0xff;
            assert(((c ^ (d as u32)) & 0xffu32) < 256u32) by (bit_vector);
            c = self.table[i as usize] ^ (c >> 8);
            k = k + 1;
        }
        proof {
            assert(data@.take(data@.len() as int) =~= data@);
        }
        Crc { value: c, table: self.table }
    }

    /// The checksum so far, least significant byte first.
    pub fn get(&self) -> (r: [u8; 4])
        ensures
            r@ == le_bytes(self.value() ^ 0xffff_ffffu32),
    {
        let v = self.value ^ 0xffff_ffff;
        let r = [(v % 256) as u8, ((v / 256) % 256) as u8, ((v / 65536) % 256) as u8, (v / 16777216)
            as u8];
        proof {
            assert(r@ =~= le_bytes(v));
        }
        r
    }
}

/// The four bytes of `v`, least significant first.
pub open spec fn le_bytes(v: u32) -> Seq<u8> {
    seq![(v % 256) as u8, ((v / 256) % 256) as u8, ((v / 65536) % 256) as u8, (v / 16777216) as u8]
}

/// The byte table.
fn make_table() -> (r: Vec<u32>)
    ensures
        r@.len() == 256,
        forall|n: int| 0 <= n < 256 ==> #[trigger] r@[n] == crc_table_entry(n as nat),
{
    let mut t: Vec<u32> = Vec::new();
    let mut n: usize = 0;
    while n < 256
        invariant
            n <= 256,
            t@.len() == n,
            forall|m: int| 0 <= m < n ==> #[trigger] t@[m] == crc_table_entry(m as nat),
        decreases 256 - n,
    {
        t.push(table_elem(n));
        n = n + 1;
    }
    t
}

/// Entry `n` of the byte table.
fn table_elem(n: usize) -> (r: u32)
    requires
        n < 256,
    ensures
        r == crc_table_entry(n as nat),
{
    let mut c = n as u32;
    let mut i: usize = 0;
    while i < 8
        invariant
            n < 256,
            i <= 8,
            c == crc_rounds(n as u32, i as nat),
        decreases 8 - i,
    {
        if c & 1 == 1 {
            c = 0xedb88320 ^ (c >> 1);
        } else {
            c = c >> 1;
        }
        i = i + 1;
    }
    c
}

} // verus!
