//! The wire format of a block on its way to the client.
//!
//! An envelope is the concatenation of the block's number within its query,
//! the number of blocks of the query, the key of the query and the payload.
//! Integers are little-endian and of fixed width; the key is preceded by its
//! length in bytes as a 64-bit integer. The integers and the key are written
//! by `bincode`; what it writes for them is stated here and not proved.

use vstd::prelude::*;
use vstd::bytes::{
    lemma_auto_spec_u32_to_from_le_bytes, lemma_auto_spec_u64_to_from_le_bytes,
    spec_u32_from_le_bytes, spec_u32_to_le_bytes, spec_u64_from_le_bytes, spec_u64_to_le_bytes,
    u32_from_le_bytes, u64_from_le_bytes,
};
use vstd::slice::{slice_subrange, slice_to_vec};
use vstd::string::StringSliceAdditionalSpecFns;

verus! {

/// `bincode::serialize` of a `u32`: its four bytes, least significant first.
/// Nothing can fail on the way, as the encoding has no size limit and writes
/// to memory.
#[verifier::external_body]
pub(crate) fn encode_u32(v: u32) -> (r: Vec<u8>)
    ensures
        r@ == spec_u32_to_le_bytes(v),
{
    match bincode::serialize(&v) {
        Ok(bytes) => bytes,
        Err(_) => Vec::new(),
    }
}

/// `bincode::serialize` of a `u64`: its eight bytes, least significant first.
#[verifier::external_body]
pub(crate) fn encode_u64(v: u64) -> (r: Vec<u8>)
    ensures
        r@ == spec_u64_to_le_bytes(v),
{
    match bincode::serialize(&v) {
        Ok(bytes) => bytes,
        Err(_) => Vec::new(),
    }
}

/// `bincode::serialize` of a string slice: the length of its UTF-8 encoding
/// as a `u64`, then the encoding.
#[verifier::external_body]
pub(crate) fn encode_str(s: &str) -> (r: Vec<u8>)
    ensures
        r@ == sized(s.spec_bytes()),
{
    match bincode::serialize(s) {
        Ok(bytes) => bytes,
        Err(_) => Vec::new(),
    }
}

/// `bincode::serialize` of a vector of bytes: its length as a `u64`, then the
/// bytes.
#[verifier::external_body]
pub(crate) fn encode_bytes(v: &Vec<u8>) -> (r: Vec<u8>)
    ensures
        r@ == sized(v@),
{
    match bincode::serialize(v) {
        Ok(bytes) => bytes,
        Err(_) => Vec::new(),
    }
}

/// The bytes, preceded by their number as a little-endian `u64`.
pub open spec fn sized(bytes: Seq<u8>) -> Seq<u8> {
    spec_u64_to_le_bytes(bytes.len() as u64) + bytes
}

/// The envelope of a block: its number, the number of blocks of its query,
/// the key of the query with its length, and the payload.
pub open spec fn envelope_spec(block_id: u32, nblocks: u32, key: Seq<u8>, payload: Seq<u8>) -> Seq<
    u8,
> {
    spec_u32_to_le_bytes(block_id) + spec_u32_to_le_bytes(nblocks) + sized(key) + payload
}

/// What an envelope holds.
#[derive(Clone, Debug, PartialEq, Eq)]
pub struct Envelope {
    /// The number of the block within its query.
    pub block_id: u32,
    /// The number of blocks of the query.
    pub nblocks: u32,
    /// The key of the query, as bytes.
    pub key: Vec<u8>,
    /// The payload of the block.
    pub payload: Vec<u8>,
}

/// What the bytes hold, read as an envelope: `None` where they are too few
/// for the two numbers, the length of the key and a key of that length.
pub open spec fn decode_spec(bytes: Seq<u8>) -> Option<(u32, u32, Seq<u8>, Seq<u8>)> {
    if bytes.len() < 16 {
        None
    } else {
        let key_len = spec_u64_from_le_bytes(bytes.subrange(8, 16));
        if key_len > bytes.len() - 16 {
            None
        } else {
            Some(
                (
                    spec_u32_from_le_bytes(bytes.subrange(0, 4)),
                    spec_u32_from_le_bytes(bytes.subrange(4, 8)),
                    bytes.subrange(16, 16 + key_len),
                    bytes.subrange(16 + key_len, bytes.len() as int),
                ),
            )
        }
    }
}

/// Reading an envelope gives back what was written into it.
pub proof fn lemma_envelope_round_trip(block_id: u32, nblocks: u32, key: Seq<u8>, payload: Seq<u8>)
    requires
        key.len() <= u64::MAX,
    ensures
        decode_spec(envelope_spec(block_id, nblocks, key, payload)) == Some(
            (block_id, nblocks, key, payload),
        ),
{
    lemma_auto_spec_u32_to_from_le_bytes();
    lemma_auto_spec_u64_to_from_le_bytes();
    let bytes = envelope_spec(block_id, nblocks, key, payload);
    assert(bytes.subrange(0, 4) =~= spec_u32_to_le_bytes(block_id));
    assert(bytes.subrange(4, 8) =~= spec_u32_to_le_bytes(nblocks));
    assert(bytes.subrange(8, 16) =~= spec_u64_to_le_bytes(key.len() as u64));
    assert(bytes.subrange(16, 16 + key.len() as int) =~= key);
    assert(bytes.subrange(16 + key.len() as int, bytes.len() as int) =~= payload);
}

/// The envelope of a block of the query `key`.
pub fn envelope(block_id: u32, nblocks: u32, key: &str, payload: &Vec<u8>) -> (r: Vec<u8>)
    ensures
        r@ == envelope_spec(block_id, nblocks, key.spec_bytes(), payload@),
        decode_spec(r@) == Some((block_id, nblocks, key.spec_bytes(), payload@)),
{
    let mut bytebuffer: Vec<u8> = Vec::new();
    let mut block_id_bytes = encode_u32(block_id);
    let mut nblock_bytes = encode_u32(nblocks);
    let mut key_bytes = encode_str(key);
    let key_size: usize = key_bytes.len();
    proof {
        // the key with its length is in memory, so its length is a machine word
        lemma_auto_spec_u64_to_from_le_bytes();
        assert(key_bytes@.len() == 8 + key.spec_bytes().len());
        lemma_envelope_round_trip(block_id, nblocks, key.spec_bytes(), payload@);
    }
    let mut block_bytes = payload.clone();
    bytebuffer.append(&mut block_id_bytes);
    bytebuffer.append(&mut nblock_bytes);
    bytebuffer.append(&mut key_bytes);
    bytebuffer.append(&mut block_bytes);
    assert(bytebuffer@ =~= envelope_spec(block_id, nblocks, key.spec_bytes(), payload@));
    bytebuffer
}

/// Reads an envelope. The payload is what follows the key, whatever its
/// length.
pub fn decode_envelope(bytes: &Vec<u8>) -> (r: Option<Envelope>)
    ensures
        match decode_spec(bytes@) {
            Some((block_id, nblocks, key, payload)) => r.is_some() && r.unwrap().block_id
                == block_id && r.unwrap().nblocks == nblocks && r.unwrap().key@ == key
                && r.unwrap().payload@ == payload,
            None => r.is_none(),
        },
{
    let n: usize = bytes.len();
    if n < 16 {
        return None;
    }
    let all = bytes.as_slice();
    let block_id: u32 = u32_from_le_bytes(slice_subrange(all, 0, 4));
    let nblocks: u32 = u32_from_le_bytes(slice_subrange(all, 4, 8));
    let key_len: u64 = u64_from_le_bytes(slice_subrange(all, 8, 16));
    if key_len > (n - 16) as u64 {
        return None;
    }
    let key_end: usize = 16 + key_len as usize;
    let key = slice_to_vec(slice_subrange(all, 16, key_end));
    let payload = slice_to_vec(slice_subrange(all, key_end, n));
    Some(Envelope { block_id, nblocks, key, payload })
}

/// What goes out on the socket for a block: the sequence number of its
/// dispatch, then the block.
pub open spec fn dispatch_spec(seq: u32, block: Seq<u8>) -> Seq<u8> {
    spec_u32_to_le_bytes(seq) + block
}

/// Puts the sequence number of its dispatch before a block.
pub fn frame_dispatch(seq: u32, block: Vec<u8>) -> (r: Vec<u8>)
    ensures
        r@ == dispatch_spec(seq, block@),
{
    let mut block = block;
    let mut bytebuffer: Vec<u8> = encode_u32(seq);
    bytebuffer.append(&mut block);
    bytebuffer
}

/// The decimal digits of `n`, as ASCII bytes, most significant first.
pub open spec fn decimal(n: nat) -> Seq<u8>
    decreases n,
{
    if n < 10 {
        seq![(48 + n) as u8]
    } else {
        decimal(n / 10).push((48 + n % 10) as u8)
    }
}

/// The decimal digits of `n`, as ASCII bytes.
#[verifier::rlimit(50)]
pub fn decimal_bytes(n: usize) -> (r: Vec<u8>)
    ensures
        r@ == decimal(n as nat),
{
    // least significant digit first, then turned around
    let mut low_first: Vec<u8> = Vec::new();
    let mut rest: usize = n;
    proof {
        assert(decimal(rest as nat) + low_first@.reverse() =~= decimal(n as nat));
    }
    while rest >= 10
        invariant
            decimal(n as nat) == decimal(rest as nat) + low_first@.reverse(),
        decreases rest,
    {
        let digit: u8 = (48 + rest % 10) as u8;
        let ghost before = low_first@;
        let ghost was = rest;
        low_first.push(digit);
        rest = rest / 10;
        proof {
            assert(low_first@.reverse() =~= seq![digit] + before.reverse());
            assert(decimal(was as nat) == decimal(rest as nat).push(digit));
            assert(decimal(rest as nat) + low_first@.reverse() =~= decimal(was as nat)
                + before.reverse());
        }
    }
    let mut out: Vec<u8> = Vec::new();
    out.push((48 + rest) as u8);
    let mut i: usize = low_first.len();
    proof {
        assert(out@ =~= decimal(rest as nat) + low_first@.reverse().take(0));
    }
    while i > 0
        invariant
            i <= low_first@.len(),
            out@ == decimal(rest as nat) + low_first@.reverse().take(low_first@.len() - i),
            rest < 10,
        decreases i,
    {
        i -= 1;
        out.push(low_first[i]);
        proof {
            let turned = low_first@.reverse();
            let k = low_first@.len() - i;
            assert(turned.take(k) =~= turned.take(k - 1).push(turned[k - 1]));
            assert(turned[k - 1] == low_first@[i as int]);
            assert(out@ =~= decimal(rest as nat) + turned.take(k));
        }
    }
    proof {
        assert(low_first@.reverse().take(low_first@.len() as int) =~= low_first@.reverse());
    }
    out
}

/// The envelope of a block of the query whose key is the bytes `key`.
pub fn envelope_of_bytes(block_id: u32, nblocks: u32, key: &Vec<u8>, payload: &Vec<u8>) -> (r: Vec<
    u8,
>)
    ensures
        r@ == envelope_spec(block_id, nblocks, key@, payload@),
        decode_spec(r@) == Some((block_id, nblocks, key@, payload@)),
{
    let key_size: usize = key.len();
    proof {
        lemma_envelope_round_trip(block_id, nblocks, key@, payload@);
    }
    let mut bytebuffer: Vec<u8> = Vec::new();
    let mut block_id_bytes = encode_u32(block_id);
    let mut nblock_bytes = encode_u32(nblocks);
    let mut key_len = encode_u64(key_size as u64);
    let mut key_bytes = key.clone();
    let mut block_bytes = payload.clone();
    bytebuffer.append(&mut block_id_bytes);
    bytebuffer.append(&mut nblock_bytes);
    bytebuffer.append(&mut key_len);
    bytebuffer.append(&mut key_bytes);
    bytebuffer.append(&mut block_bytes);
    assert(bytebuffer@ =~= envelope_spec(block_id, nblocks, key@, payload@));
    bytebuffer
}

/// The payload of a block: its number, then its content with its length.
pub open spec fn block_spec(block_id: u32, content: Seq<u8>) -> Seq<u8> {
    spec_u32_to_le_bytes(block_id) + sized(content)
}

/// The payload of a block, as its serialization by `bincode` would be.
pub fn block_bytes(block_id: u32, content: &Vec<u8>) -> (r: Vec<u8>)
    ensures
        r@ == block_spec(block_id, content@),
{
    let mut bytes = encode_u32(block_id);
    let mut rest = encode_bytes(content);
    bytes.append(&mut rest);
    bytes
}

/// The size of a chunk of `len` bytes: `blocksize`, or all of `len` where
/// that is less.
pub open spec fn chunk_size(len: int, blocksize: int) -> int {
    if blocksize > len {
        len
    } else {
        blocksize
    }
}

/// The chunks of `blocksize` bytes that `img` holds, one after the other. A
/// block size above the length of `img` counts as that length; bytes that do
/// not fill a chunk are left out.
#[verifier::rlimit(50)]
pub fn split_chunks(img: &Vec<u8>, blocksize: usize) -> (r: Vec<Vec<u8>>)
    requires
        blocksize > 0,
        img@.len() > 0,
    ensures
        r@.len() == img@.len() as int / chunk_size(img@.len() as int, blocksize as int),
        forall|i: int|
            0 <= i < r@.len() ==> (#[trigger] r@[i])@ == img@.subrange(
                i * chunk_size(img@.len() as int, blocksize as int),
                (i + 1) * chunk_size(img@.len() as int, blocksize as int),
            ),
{
    let len: usize = img.len();
    let size: usize = if blocksize > len {
        len
    } else {
        blocksize
    };
    let all = img.as_slice();
    let mut chunks: Vec<Vec<u8>> = Vec::new();
    let mut start: usize = 0;
    proof {
        assert(chunks@.len() * size == 0) by (nonlinear_arith)
            requires
                chunks@.len() == 0,
        ;
    }
    while len - start >= size
        invariant
            0 < size <= len,
            len == img@.len(),
            all@ == img@,
            start <= len,
            start == chunks@.len() * size,
            forall|i: int|
                0 <= i < chunks@.len() ==> (#[trigger] chunks@[i])@ == img@.subrange(
                    i * size,
                    i * size + size,
                ),
        decreases len - start,
    {
        let end: usize = start + size;
        proof {
            assert((chunks@.len() + 1) * size == chunks@.len() * size + size) by (nonlinear_arith);
        }
        chunks.push(slice_to_vec(slice_subrange(all, start, end)));
        start = end;
    }
    proof {
        assert forall|i: int| 0 <= i < chunks@.len() implies (#[trigger] chunks@[i])@
            == img@.subrange(i * size, (i + 1) * size) by {
            assert((i + 1) * size == i * size + size) by (nonlinear_arith);
        }
    }
    proof {
        let k = chunks@.len() as int;
        // k chunks fit, and one more would not
        assert(k * size <= len < (k + 1) * size) by (nonlinear_arith)
            requires
                start == k * size,
                len - start < size,
                start <= len,
        ;
        vstd::arithmetic::div_mod::lemma_fundamental_div_mod_converse(
            len as int,
            size as int,
            k,
            len - k * size,
        );
    }
    chunks
}

} // verus!
