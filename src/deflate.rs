//! A DEFLATE stream: one dynamic block per chunk of input, then an empty
//! last block, packed into bytes.
use crate::bits::{bytes_bits, lemma_bytes_bits_concat, lemma_bytes_bits_push, Bits};
use crate::bits::{bit, lsb_bits};
use crate::code_length_table::lemma_low_bits_injective;
use crate::dynamic_huffman::{
    dynamic_block, dynamic_block_ok, dynamic_huffman, lemma_dynamic_block_unique,
};
use vstd::arithmetic::power2::*;
use crate::inflate::{inflate, lemma_stream_round_trip};
use vstd::prelude::*;

verus! {

/// Each of `blks` is a dynamic block for the chunk at the same place.
pub open spec fn blocks_ok(blks: Seq<Seq<bool>>, chunks: Seq<Seq<u8>>) -> bool {
    &&& blks.len() == chunks.len()
    &&& forall|k: int| 0 <= k < blks.len() ==> dynamic_block_ok(#[trigger] blks[k], chunks[k], false)
}

/// `x` is `y` followed by fewer than eight zero bits.
pub open spec fn padded(x: Seq<bool>, y: Seq<bool>) -> bool {
    &&& y.len() <= x.len() < y.len() + 8
    &&& x == y + Seq::new((x.len() - y.len()) as nat, |k: int| false)
}

/// `out` is a whole stream for `data`: dynamic blocks for consecutive chunks
/// of `data`, an empty last block `fin`, and zero bits up to a byte
/// boundary.
pub open spec fn stream_ok(out: Seq<u8>, data: Seq<u8>) -> bool {
    exists|chunks: Seq<Seq<u8>>, blks: Seq<Seq<bool>>, fin: Seq<bool>|
        #![trigger blocks_ok(blks, chunks), dynamic_block_ok(fin, Seq::<u8>::empty(), true)]
        {
            &&& blocks_ok(blks, chunks)
            &&& dynamic_block_ok(fin, Seq::<u8>::empty(), true)
            &&& chunks.flatten_alt() == data
            &&& padded(bytes_bits(out), blks.flatten_alt() + fin)
        }
}

/// `data` cut into consecutive chunks of `buf` bytes, the last one
/// shorter.
pub open spec fn chunked(data: Seq<u8>, buf: nat) -> Seq<Seq<u8>>
    decreases data.len(),
{
    if data.len() == 0 {
        Seq::empty()
    } else if data.len() <= buf || buf == 0 {
        seq![data]
    } else {
        seq![data.take(buf as int)] + chunked(data.skip(buf as int), buf)
    }
}

/// `out` is the stream for `data` cut into chunks of `buf` bytes: one
/// dynamic block per chunk, an empty last block and zero padding.
pub open spec fn stream_in_chunks(out: Seq<u8>, data: Seq<u8>, buf: nat) -> bool {
    exists|blks: Seq<Seq<bool>>, fin: Seq<bool>|
        #![trigger blocks_ok(blks, chunked(data, buf)), dynamic_block_ok(fin, Seq::<u8>::empty(), true)]
        {
            &&& blocks_ok(blks, chunked(data, buf))
            &&& dynamic_block_ok(fin, Seq::<u8>::empty(), true)
            &&& padded(bytes_bits(out), blks.flatten_alt() + fin)
        }
}

/// Byte sequences of one length with the same bits are equal.
pub proof fn lemma_bytes_bits_injective(a: Seq<u8>, b: Seq<u8>)
    requires
        a.len() == b.len(),
        bytes_bits(a) == bytes_bits(b),
    ensures
        a == b,
{
    assert forall|k: int| 0 <= k < a.len() implies a[k] == b[k] by {
        assert forall|j: int| 0 <= j < 8 implies #[trigger] lsb_bits(a[k] as nat, 8)[j] == lsb_bits(
            b[k] as nat,
            8,
        )[j] by {
            let x = 8 * k + j;
            assert(x / 8 == k);
            assert(x % 8 == j);
            assert(0 <= x < 8 * a.len());
            assert(bytes_bits(a)[x] == bit(a[k] as nat, j as nat));
            assert(bytes_bits(b)[x] == bit(b[k] as nat, j as nat));
            assert(bytes_bits(a)[x] == bytes_bits(b)[x]);
        }
        assert(lsb_bits(a[k] as nat, 8) =~= lsb_bits(b[k] as nat, 8));
        lemma2_to64();
        lemma_low_bits_injective(a[k] as nat, b[k] as nat, 8);
    }
    assert(a =~= b);
}

/// Compressing the same data with the same chunk size twice gives the same
/// bytes.
pub proof fn lemma_deflate_deterministic(o1: Seq<u8>, o2: Seq<u8>, data: Seq<u8>, buf: nat)
    requires
        stream_in_chunks(o1, data, buf),
        stream_in_chunks(o2, data, buf),
    ensures
        o1 == o2,
{
    let chunks = chunked(data, buf);
    let (b1, f1) = choose|blks: Seq<Seq<bool>>, fin: Seq<bool>|
        #![trigger blocks_ok(blks, chunked(data, buf)), dynamic_block_ok(fin, Seq::<u8>::empty(), true)]
        {
            &&& blocks_ok(blks, chunked(data, buf))
            &&& dynamic_block_ok(fin, Seq::<u8>::empty(), true)
            &&& padded(bytes_bits(o1), blks.flatten_alt() + fin)
        };
    let (b2, f2) = choose|blks: Seq<Seq<bool>>, fin: Seq<bool>|
        #![trigger blocks_ok(blks, chunked(data, buf)), dynamic_block_ok(fin, Seq::<u8>::empty(), true)]
        {
            &&& blocks_ok(blks, chunked(data, buf))
            &&& dynamic_block_ok(fin, Seq::<u8>::empty(), true)
            &&& padded(bytes_bits(o2), blks.flatten_alt() + fin)
        };
    assert forall|k: int| 0 <= k < b1.len() implies b1[k] == b2[k] by {
        assert(dynamic_block_ok(b1[k], chunks[k], false));
        assert(dynamic_block_ok(b2[k], chunks[k], false));
        lemma_dynamic_block_unique(b1[k], b2[k], chunks[k], false);
    }
    assert(b1 =~= b2);
    lemma_dynamic_block_unique(f1, f2, Seq::<u8>::empty(), true);
    let y = b1.flatten_alt() + f1;
    assert(8 * o1.len() == bytes_bits(o1).len());
    assert(8 * o2.len() == bytes_bits(o2).len());
    assert(o1.len() == o2.len()) by (nonlinear_arith)
        requires
            y.len() <= 8 * o1.len() < y.len() + 8,
            y.len() <= 8 * o2.len() < y.len() + 8,
    ;
    assert(bytes_bits(o1) =~= bytes_bits(o2));
    lemma_bytes_bits_injective(o1, o2);
}

/// Appends a block for `chunk` after `bits` and hands out the whole bytes,
/// keeping the partial byte for the next call.
pub fn deflate_chunk(chunk: &[u8], bits: Bits) -> (r: (Vec<u8>, Bits))
    requires
        bits.wf(),
    ensures
        r.1.wf(),
        r.1.is_partial(),
        exists|blk: Seq<bool>|
            dynamic_block_ok(blk, chunk@, false) && bytes_bits(r.0@) + r.1@ == bits@ + blk,
{
    dynamic_huffman(chunk, bits).drain_bytes()
}

/// Ends a stream: appends an empty last block and hands out every byte,
/// the last one padded with zero bits.
pub fn deflate_finish(bits: Bits) -> (r: Vec<u8>)
    requires
        bits.wf(),
    ensures
        exists|fin: Seq<bool>|
            dynamic_block_ok(fin, Seq::<u8>::empty(), true) && padded(bytes_bits(r@), bits@ + fin),
{
    let empty: Vec<u8> = Vec::new();
    let bits = dynamic_block(empty.as_slice(), bits, true);
    let ghost all = bits@;
    let (mut out, rest) = bits.drain_bytes();
    let ghost out0 = out@;
    let ghost rest_bits = rest@;
    match rest.last() {
        Some(b) => {
            out.push(b);
            proof {
                lemma_bytes_bits_push(out0, b);
                let pad = (8 - rest_bits.len()) as nat;
                assert(bytes_bits(out@) =~= all + Seq::new(pad, |k: int| false));
            }
        },
        None => {
            proof {
                assert(bytes_bits(out@) =~= all + Seq::new(0, |k: int| false));
            }
        },
    }
    proof {
        assert(empty@ =~= Seq::<u8>::empty());
    }
    out
}

/// Compresses `data` as a stream with one block per chunk of `buf_size`
/// bytes; it decompresses to `data`.
pub fn deflate_bytes(data: &[u8], buf_size: usize) -> (r: Vec<u8>)
    requires
        buf_size > 0,
    ensures
        stream_ok(r@, data@),
        stream_in_chunks(r@, data@, buf_size as nat),
        inflate(r@) == Some(data@),
{
    let n = data.len();
    let mut out: Vec<u8> = Vec::new();
    let mut bits = Bits::new();
    let mut pos: usize = 0;
    let ghost mut chunks: Seq<Seq<u8>> = Seq::empty();
    let ghost mut blks: Seq<Seq<bool>> = Seq::empty();
    proof {
        assert(bytes_bits(out@) =~= Seq::<bool>::empty());
        assert(data@.take(0) =~= Seq::<u8>::empty());
        assert(data@.skip(0) =~= data@);
        assert(Seq::<Seq<u8>>::empty() + chunked(data@, buf_size as nat) =~= chunked(
            data@,
            buf_size as nat,
        ));
    }
    while pos < n
        invariant
            n == data@.len(),
            pos <= n,
            buf_size > 0,
            bits.wf(),
            blocks_ok(blks, chunks),
            chunks.flatten_alt() == data@.take(pos as int),
            chunks + chunked(data@.skip(pos as int), buf_size as nat) == chunked(data@, buf_size as nat),
            bytes_bits(out@) + bits@ == blks.flatten_alt(),
        decreases n - pos,
    {
        let end: usize = if n - pos > buf_size {
            pos + buf_size
        } else {
            n
        };
        let mut chunk: Vec<u8> = Vec::new();
        let mut k: usize = pos;
        while k < end
            invariant
                pos <= k <= end <= n == data@.len(),
                chunk@ == data@.subrange(pos as int, k as int),
            decreases end - k,
        {
            chunk.push(data[k]);
            k = k + 1;
            proof {
                assert(chunk@ =~= data@.subrange(pos as int, k as int));
            }
        }
        let ghost out0 = out@;
        let ghost bits0 = bits@;
        let (bytes, rest) = deflate_chunk(chunk.as_slice(), bits);
        let ghost blk = choose|blk: Seq<bool>|
            dynamic_block_ok(blk, chunk@, false) && bytes_bits(bytes@) + rest@ == bits0 + blk;
        let mut j: usize = 0;
        while j < bytes.len()
            invariant
                j <= bytes@.len(),
                out@ == out0 + bytes@.take(j as int),
            decreases bytes@.len() - j,
        {
            out.push(bytes[j]);
            j = j + 1;
            proof {
                assert(out@ =~= out0 + bytes@.take(j as int));
            }
        }
        proof {
            assert(bytes@.take(bytes@.len() as int) =~= bytes@);
            lemma_bytes_bits_concat(out0, bytes@);
            let c2 = chunks.push(chunk@);
            let b2 = blks.push(blk);
            let rest0 = data@.skip(pos as int);
            assert(rest0.len() > 0);
            if end == n {
                assert(rest0 =~= chunk@);
                assert(data@.skip(end as int) =~= Seq::<u8>::empty());
                assert(chunked(rest0, buf_size as nat) =~= seq![chunk@]);
            } else {
                assert(rest0.take(buf_size as int) =~= chunk@);
                assert(rest0.skip(buf_size as int) =~= data@.skip(end as int));
            }
            assert(c2 + chunked(data@.skip(end as int), buf_size as nat) =~= chunks + chunked(
                rest0,
                buf_size as nat,
            ));
            assert(c2.drop_last() =~= chunks);
            assert(b2.drop_last() =~= blks);
            assert(c2.flatten_alt() =~= data@.take(end as int));
            assert(bytes_bits(out@) == bytes_bits(out0) + bytes_bits(bytes@));
            assert(bytes_bits(out0) + bits0 == blks.flatten_alt());
            assert(bytes_bits(bytes@) + rest@ == bits0 + blk);
            assert(b2.flatten_alt() == blks.flatten_alt() + blk);
            assert((bytes_bits(out0) + bytes_bits(bytes@)) + rest@ =~= bytes_bits(out0) + (bytes_bits(
                bytes@,
            ) + rest@));
            assert((bytes_bits(out0) + bits0) + blk =~= bytes_bits(out0) + (bits0 + blk));
            assert(bytes_bits(out@) + rest@ =~= b2.flatten_alt());
            assert forall|k2: int| 0 <= k2 < b2.len() implies dynamic_block_ok(#[trigger] b2[k2], c2[k2], false) by {
                if k2 < blks.len() {
                    assert(b2[k2] == blks[k2]);
                    assert(c2[k2] == chunks[k2]);
                }
            }
            chunks = c2;
            blks = b2;
        }
        bits = rest;
        pos = end;
    }
    let ghost out0 = out@;
    let fin = deflate_finish(bits);
    let mut j: usize = 0;
    while j < fin.len()
        invariant
            j <= fin@.len(),
            out@ == out0 + fin@.take(j as int),
        decreases fin@.len() - j,
    {
        out.push(fin[j]);
        j = j + 1;
        proof {
            assert(out@ =~= out0 + fin@.take(j as int));
        }
    }
    proof {
        assert(fin@.take(fin@.len() as int) =~= fin@);
        lemma_bytes_bits_concat(out0, fin@);
        assert(data@.take(n as int) =~= data@);
        let last = choose|last: Seq<bool>|
            dynamic_block_ok(last, Seq::<u8>::empty(), true) && padded(bytes_bits(fin@), bits@ + last);
        let pad = (bytes_bits(fin@).len() - (bits@ + last).len()) as nat;
        assert(bytes_bits(out@) =~= blks.flatten_alt() + last + Seq::new(pad, |k: int| false));
        assert(padded(bytes_bits(out@), blks.flatten_alt() + last));
        assert(data@.skip(n as int) =~= Seq::<u8>::empty());
        assert(chunks + chunked(Seq::<u8>::empty(), buf_size as nat) =~= chunks);
        assert(chunks == chunked(data@, buf_size as nat));
        assert(blocks_ok(blks, chunked(data@, buf_size as nat)));
        assert(blocks_ok(blks, chunks) && dynamic_block_ok(last, Seq::<u8>::empty(), true));
        lemma_stream_round_trip(out@, data@);
    }
    out
}

/// Streams for the same data, however it was split into chunks, decompress
/// to the same bytes.
pub proof fn lemma_chunk_invariance(a: Seq<u8>, b: Seq<u8>, data: Seq<u8>)
    requires
        stream_ok(a, data),
        stream_ok(b, data),
    ensures
        inflate(a) == inflate(b),
        inflate(a) == Some(data),
{
    lemma_stream_round_trip(a, data);
    lemma_stream_round_trip(b, data);
}

} // verus!
