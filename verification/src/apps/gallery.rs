//! The image gallery: a grid of tiles, each tile a query whose blocks are
//! the chunks of a progressively encoded image.

use vstd::prelude::*;
use vstd::string::StringSliceAdditionalSpecFns;
use crate::ds::StreamBlock;
use crate::wire::{
    block_bytes, block_spec, chunk_size, decimal, decimal_bytes, envelope, envelope_spec,
    split_chunks,
};

verus! {

/// A tile of the gallery, by column `x` and row `y`.
#[derive(Clone, Copy, Debug, PartialEq, Eq, Structural)]
pub struct Query {
    pub x: u32,
    pub y: u32,
}

/// One block of an image: a chunk of its bytes, numbered from zero.
#[derive(Clone, Debug, PartialEq, Eq)]
pub struct ImageBlock {
    pub block_id: u32,
    pub content: Vec<u8>,
}

impl ImageBlock {
    /// The block as bytes: its number, then its content with its length.
    pub fn serialize(&self) -> (r: Vec<u8>)
        ensures
            r@ == block_spec(self.block_id, self.content@),
    {
        block_bytes(self.block_id, &self.content)
    }

    /// The number of bytes of content.
    pub fn size(&self) -> (r: usize)
        ensures
            r == self.content@.len(),
    {
        self.content.len()
    }
}

/// The key of a tile: the JSON object with its column under `"x"` and its
/// row under `"y"`, without spaces.
pub open spec fn key_spec(x: u32, y: u32) -> Seq<u8> {
    seq![123u8, 34, 120, 34, 58] + decimal(x as nat) + seq![44u8, 34, 121, 34, 58] + decimal(
        y as nat,
    ) + seq![125u8]
}

/// The key of a tile in the block store.
pub fn encode_key(q: &Query) -> (r: Vec<u8>)
    ensures
        r@ == key_spec(q.x, q.y),
{
    let mut key: Vec<u8> = Vec::new();
    key.push(123);
    key.push(34);
    key.push(120);
    key.push(34);
    key.push(58);
    let mut x_digits = decimal_bytes(q.x as usize);
    key.append(&mut x_digits);
    key.push(44);
    key.push(34);
    key.push(121);
    key.push(34);
    key.push(58);
    let mut y_digits = decimal_bytes(q.y as usize);
    key.append(&mut y_digits);
    key.push(125);
    assert(key@ =~= key_spec(q.x, q.y));
    key
}

/// The blocks of an image: its chunks of `blocksize` bytes, numbered in
/// order. A block size above the length of the image counts as that length;
/// bytes that do not fill a block are left out.
pub fn create_blocks(img: &Vec<u8>, blocksize: usize) -> (r: Vec<ImageBlock>)
    requires
        blocksize > 0,
        img@.len() > 0,
        img@.len() as int / chunk_size(img@.len() as int, blocksize as int) <= u32::MAX,
    ensures
        r@.len() == img@.len() as int / chunk_size(img@.len() as int, blocksize as int),
        forall|i: int|
            0 <= i < r@.len() ==> (#[trigger] r@[i]).block_id == i && r@[i].content@
                == img@.subrange(
                i * chunk_size(img@.len() as int, blocksize as int),
                (i + 1) * chunk_size(img@.len() as int, blocksize as int),
            ),
{
    let chunks = split_chunks(img, blocksize);
    let n: usize = chunks.len();
    let mut blocks: Vec<ImageBlock> = Vec::new();
    let mut bid: u32 = 0;
    let mut i: usize = 0;
    while i < n
        invariant
            i <= n,
            n == chunks@.len(),
            n <= u32::MAX,
            bid == i,
            blocks@.len() == i,
            forall|k: int|
                0 <= k < i ==> (#[trigger] blocks@[k]).block_id == k && blocks@[k].content@
                    == chunks@[k]@,
        decreases n - i,
    {
        let content: Vec<u8> = chunks[i].clone();
        assert(content@ =~= chunks@[i as int]@);
        blocks.push(ImageBlock { block_id: bid, content });
        bid += 1;
        i += 1;
    }
    blocks
}

/// The block `b` is binary and holds `bytes`.
pub open spec fn holds(b: StreamBlock, bytes: Seq<u8>) -> bool {
    match b {
        StreamBlock::Binary(v) => v@ == bytes,
        StreamBlock::Stop => false,
    }
}

/// A block of zeros in place of block `incache` of the query `key`, for
/// measurements that need no real content: `None` past the largest number of
/// blocks that a query has.
pub fn get_fake_block_bytes(key: &str, incache: usize, max_blocks_count: usize, blocksize: usize) -> (r:
    Option<Vec<StreamBlock>>)
    requires
        max_blocks_count <= u32::MAX,
    ensures
        r.is_none() == (incache > max_blocks_count),
        r.is_some() ==> r.unwrap()@.len() == 1 && holds(
            r.unwrap()@[0],
            envelope_spec(
                incache as u32,
                max_blocks_count as u32,
                key.spec_bytes(),
                block_spec(incache as u32, Seq::new(blocksize as nat, |i: int| 0u8)),
            ),
        ),
{
    if incache > max_blocks_count {
        None
    } else {
        let mut sblocks: Vec<StreamBlock> = Vec::new();
        let nblocks: u32 = max_blocks_count as u32;
        let fake_block = ImageBlock { block_id: incache as u32, content: vec![0u8; blocksize] };
        assert(fake_block.content@ =~= Seq::new(blocksize as nat, |i: int| 0u8));
        let block_byte = fake_block.serialize();
        let blockid: u32 = incache as u32;
        let bytebuffer = envelope(blockid, nblocks, key, &block_byte);
        sblocks.push(StreamBlock::Binary(bytebuffer));
        Some(sblocks)
    }
}

/// How many blocks go out for a request of `count` blocks from block
/// `incache` on, of a query with `len` blocks: those that the query has from
/// there, `count` at most, and `blockcount` at most where that is not zero.
pub open spec fn sent(len: int, count: int, incache: int, blockcount: int) -> int {
    let end = if incache + count > len {
        len
    } else {
        incache + count
    };
    let some = if end > incache {
        end - incache
    } else {
        0
    };
    if blockcount > 0 && blockcount < some {
        blockcount
    } else {
        some
    }
}

/// The envelopes of the next blocks of the query `key`: `count` blocks from
/// block `incache` on, as far as the query has them, and `blockcount` at
/// most where that is not zero. `blocks` is what the store holds for the
/// key; without it there is nothing to send.
pub fn get_nblocks_bytes(
    blocks: Option<&Vec<ImageBlock>>,
    key: &str,
    count: usize,
    incache: usize,
    blockcount: usize,
) -> (r: Option<Vec<StreamBlock>>)
    requires
        blocks.is_some() ==> blocks.unwrap()@.len() <= u32::MAX,
    ensures
        r.is_some() == blocks.is_some(),
        r.is_some() ==> r.unwrap()@.len() == sent(
            blocks.unwrap()@.len() as int,
            count as int,
            incache as int,
            blockcount as int,
        ),
        r.is_some() ==> forall|j: int|
            0 <= j < r.unwrap()@.len() ==> holds(
                #[trigger] r.unwrap()@[j],
                envelope_spec(
                    blocks.unwrap()@[incache + j].block_id,
                    blocks.unwrap()@.len() as u32,
                    key.spec_bytes(),
                    block_spec(
                        blocks.unwrap()@[incache + j].block_id,
                        blocks.unwrap()@[incache + j].content@,
                    ),
                ),
            ),
{
    match blocks {
        Some(blocks) => {
            let mut sblocks: Vec<StreamBlock> = Vec::new();
            let len: usize = blocks.len();
            let nblocks: u32 = len as u32;
            let end: usize = if incache >= len || count > len - incache {
                len
            } else {
                incache + count
            };
            let some: usize = if end > incache {
                end - incache
            } else {
                0
            };
            let n: usize = if blockcount > 0 && blockcount < some {
                blockcount
            } else {
                some
            };
            let mut j: usize = 0;
            while j < n
                invariant
                    j <= n,
                    n <= some,
                    some > 0 ==> incache + some <= len,
                    len == blocks@.len(),
                    nblocks == len,
                    sblocks@.len() == j,
                    forall|k: int|
                        0 <= k < j ==> holds(
                            #[trigger] sblocks@[k],
                            envelope_spec(
                                blocks@[incache + k].block_id,
                                nblocks,
                                key.spec_bytes(),
                                block_spec(
                                    blocks@[incache + k].block_id,
                                    blocks@[incache + k].content@,
                                ),
                            ),
                        ),
                decreases n - j,
            {
                let block = &blocks[incache + j];
                let block_byte = block.serialize();
                let bytebuffer = envelope(block.block_id, nblocks, key, &block_byte);
                sblocks.push(StreamBlock::Binary(bytebuffer));
                j += 1;
            }
            Some(sblocks)
        },
        None => None,
    }
}

} // verus!
