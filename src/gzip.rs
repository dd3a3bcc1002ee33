//! The gzip member around a DEFLATE stream: a fixed header, the stream, and
//! a trailer of checksum and size.
use crate::crc::{crc_update, le_bytes, Crc};
use crate::deflate::{deflate_bytes, stream_in_chunks, stream_ok};
use crate::inflate::inflate;
use vstd::prelude::*;

verus! {

const ID1: u8 = 0x1f;

const ID2: u8 = 0x8b;

const CM: u8 = 0x08;

const XFL: u8 = 0x0;

const OS_UNKNOWN: u8 = 0xff;

/// The flag byte of the header: no optional fields.
pub struct Flg {}

impl Flg {
    pub fn byte(&self) -> (r: u8)
        ensures
            r == 0,
    {
        0
    }
}

/// The ten header bytes for modification time `mtime` (seconds since the
/// epoch; its low 32 bits are sent).
pub open spec fn header_spec(mtime: i64) -> Seq<u8> {
    seq![0x1fu8, 0x8bu8, 0x08u8, 0u8] + le_bytes((mtime & 0xffff_ffffi64) as u32) + seq![0u8, 0xffu8]
}

/// The gzip header.
pub fn header(mtime: i64) -> (r: Vec<u8>)
    ensures
        r@ == header_spec(mtime),
{
    let mut h: Vec<u8> = Vec::new();
    h.push(ID1);
    h.push(ID2);
    h.push(CM);
    h.push(Flg {}.byte());
    let t = (mtime & 0xffff_ffff) as u32;
    h.push((t % 256) as u8);
    h.push(((t / 256) % 256) as u8);
    h.push(((t / 65536) % 256) as u8);
    h.push((t / 16777216) as u8);
    h.push(XFL);
    h.push(OS_UNKNOWN);
    proof {
        assert(h@ =~= header_spec(mtime));
    }
    h
}

/// The CRC-32 and the size, modulo 2^32, of the bytes read so far.
pub struct Checksum {
    crc: Crc,
    isize: u32,
}

impl Checksum {
    /// The register of the checksum so far.
    pub closed spec fn crc_value(&self) -> u32 {
        self.crc.value()
    }

    /// The size so far, modulo 2^32.
    pub closed spec fn size(&self) -> u32 {
        self.isize
    }

    pub closed spec fn wf(&self) -> bool {
        self.crc.wf()
    }

    /// Nothing read yet.
    pub fn new() -> (r: Self)
        ensures
            r.wf(),
            r.crc_value() == 0xffff_ffffu32,
            r.size() == 0,
    {
        Checksum { crc: Crc::new(), isize: 0 }
    }

    /// Accounts for `data`, read after what came before.
    pub fn update(&mut self, data: &[u8])
        requires
            old(self).wf(),
        ensures
            final(self).wf(),
            final(self).crc_value() == crc_update(old(self).crc_value(), data@),
            final(self).size() == (old(self).size() as int + data@.len()) % 0x1_0000_0000,
    {
        let mut crc = Crc::new();
        std::mem::swap(&mut self.crc, &mut crc);
        self.crc = crc.append(data);
        let add = (data.len() as u64) % 0x1_0000_0000;
        self.isize = ((self.isize as u64 + add) % 0x1_0000_0000) as u32;
    }

    /// The checksum, least significant byte first.
    pub fn crc_bytes(&self) -> (r: [u8; 4])
        ensures
            r@ == le_bytes(self.crc_value() ^ 0xffff_ffffu32),
    {
        self.crc.get()
    }

    /// The size modulo 2^32, least significant byte first.
    pub fn isize_bytes(&self) -> (r: [u8; 4])
        ensures
            r@ == le_bytes(self.size()),
    {
        let v = self.isize;
        let r = [(v % 256) as u8, ((v / 256) % 256) as u8, ((v / 65536) % 256) as u8, (v / 16777216)
            as u8];
        proof {
            assert(r@ =~= le_bytes(v));
        }
        r
    }
}

/// A whole gzip member for `data`: the header, a DEFLATE stream with one
/// block per chunk of `buf_size` bytes, the CRC-32 of `data` and its size
/// modulo 2^32.
pub fn gzip_bytes(data: &[u8], mtime: i64, buf_size: usize) -> (r: Vec<u8>)
    requires
        buf_size > 0,
    ensures
        exists|body: Seq<u8>|
            stream_ok(body, data@) && stream_in_chunks(body, data@, buf_size as nat) && inflate(body)
                == Some(data@) && r@ == header_spec(mtime) + body + le_bytes(
                crc_update(0xffff_ffffu32, data@) ^ 0xffff_ffffu32,
            ) + le_bytes((data@.len() % 0x1_0000_0000) as u32),
{
    let mut out = header(mtime);
    let body = deflate_bytes(data, buf_size);
    let mut check = Checksum::new();
    check.update(data);
    let crc = check.crc_bytes();
    let size = check.isize_bytes();
    let ghost h = out@;
    let mut j: usize = 0;
    while j < body.len()
        invariant
            j <= body@.len(),
            out@ == h + body@.take(j as int),
        decreases body@.len() - j,
    {
        out.push(body[j]);
        j = j + 1;
        proof {
            assert(out@ =~= h + body@.take(j as int));
        }
    }
    proof {
        assert(body@.take(body@.len() as int) =~= body@);
    }
    let ghost hb = out@;
    j = 0;
    while j < 4
        invariant
            j <= 4,
            out@ == hb + crc@.take(j as int),
        decreases 4 - j,
    {
        out.push(crc[j]);
        j = j + 1;
        proof {
            assert(out@ =~= hb + crc@.take(j as int));
        }
    }
    proof {
        assert(crc@.take(4) =~= crc@);
    }
    let ghost hbc = out@;
    j = 0;
    while j < 4
        invariant
            j <= 4,
            out@ == hbc + size@.take(j as int),
        decreases 4 - j,
    {
        out.push(size[j]);
        j = j + 1;
        proof {
            assert(out@ =~= hbc + size@.take(j as int));
        }
    }
    proof {
        assert(size@.take(4) =~= size@);
    }
    out
}

} // verus!
