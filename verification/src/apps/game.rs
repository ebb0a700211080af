//! The game: a query is a tick of the game followed by a sequence of future
//! actions, and its blocks are the chunks of the frame that the actions lead
//! to.

use vstd::prelude::*;
use vstd::arithmetic::power::{lemma_pow_increases, lemma_pow_positive, pow};
use crate::apps::gallery::{holds, sent};
use crate::ds::StreamBlock;
use crate::wire::{
    block_bytes, block_spec, chunk_size, decimal, decimal_bytes, envelope_of_bytes, envelope_spec,
    split_chunks,
};

verus! {

/// One block of a frame: a chunk of its bytes, numbered from zero.
#[derive(Clone, Debug, PartialEq, Eq)]
pub struct FrameBlock {
    pub block_id: u32,
    pub content: Vec<u8>,
}

impl FrameBlock {
    /// The block as bytes: its number, then its content with its length.
    pub fn serialize(&self) -> (r: Vec<u8>)
        ensures
            r@ == block_spec(self.block_id, self.content@),
    {
        block_bytes(self.block_id, &self.content)
    }

    /// The number of bytes of content.
    pub fn size(&self) -> (r: usize)
        ensures
            r == self.content@.len(),
    {
        self.content.len()
    }
}

/// The blocks of a frame: its chunks of `blocksize` bytes, numbered in
/// order. A block size above the length of the frame counts as that length;
/// bytes that do not fill a block are left out.
pub fn create_blocks(img: &Vec<u8>, blocksize: usize) -> (r: Vec<FrameBlock>)
    requires
        blocksize > 0,
        img@.len() > 0,
        img@.len() as int / chunk_size(img@.len() as int, blocksize as int) <= u32::MAX,
    ensures
        r@.len() == img@.len() as int / chunk_size(img@.len() as int, blocksize as int),
        forall|i: int|
            0 <= i < r@.len() ==> (#[trigger] r@[i]).block_id == i && r@[i].content@
                == img@.subrange(
                i * chunk_size(img@.len() as int, blocksize as int),
                (i + 1) * chunk_size(img@.len() as int, blocksize as int),
            ),
{
    let chunks = split_chunks(img, blocksize);
    let n: usize = chunks.len();
    let mut blocks: Vec<FrameBlock> = Vec::new();
    let mut bid: u32 = 0;
    let mut i: usize = 0;
    while i < n
        invariant
            i <= n,
            n == chunks@.len(),
            n <= u32::MAX,
            bid == i,
            blocks@.len() == i,
            forall|k: int|
                0 <= k < i ==> (#[trigger] blocks@[k]).block_id == k && blocks@[k].content@
                    == chunks@[k]@,
        decreases n - i,
    {
        let content: Vec<u8> = chunks[i].clone();
        assert(content@ =~= chunks@[i as int]@);
        blocks.push(FrameBlock { block_id: bid, content });
        bid += 1;
        i += 1;
    }
    blocks
}

/// The actions that the number `qid` stands for: its `future` digits in base
/// `num_actions`, the most significant first. A number too large for that
/// many digits has all its excess in the first.
pub open spec fn actions_spec(qid: int, num_actions: int, future: nat) -> Seq<int>
    decreases future,
{
    if future == 0 {
        Seq::empty()
    } else {
        let unit = pow(num_actions, (future - 1) as nat);
        seq![qid / unit] + actions_spec(qid % unit, num_actions, (future - 1) as nat)
    }
}

/// `base` to the power of `exp`.
pub fn power(base: usize, exp: u32) -> (r: usize)
    requires
        base > 0,
        pow(base as int, exp as nat) <= usize::MAX,
    ensures
        r == pow(base as int, exp as nat),
        r > 0,
{
    let mut p: usize = 1;
    let mut k: u32 = 0;
    proof {
        vstd::arithmetic::power::lemma_pow0(base as int);
    }
    while k < exp
        invariant
            k <= exp,
            base > 0,
            p == pow(base as int, k as nat),
            pow(base as int, exp as nat) <= usize::MAX,
        decreases exp - k,
    {
        proof {
            lemma_pow_increases(base as nat, (k + 1) as nat, exp as nat);
            vstd::arithmetic::power::lemma_pow_adds(base as int, k as nat, 1);
            vstd::arithmetic::power::lemma_pow1(base as int);
        }
        p = p * base;
        k += 1;
    }
    proof {
        lemma_pow_positive(base as int, exp as nat);
    }
    p
}

/// The tick and the actions that the query `index` stands for: the tick is
/// what precedes the last `future` decimal digits of the index, and the
/// actions are the digits in base `num_actions` of what those digits hold.
#[verifier::rlimit(50)]
pub fn decode_index(index: usize, future: u32, num_actions: usize) -> (r: (usize, Vec<usize>))
    requires
        num_actions > 0,
        pow(10, future as nat) <= usize::MAX,
        pow(num_actions as int, future as nat) <= usize::MAX,
    ensures
        r.0 == index as int / pow(10, future as nat),
        r.1@.len() == future,
        r.1@.map_values(|a: usize| a as int) == actions_spec(
            index as int % pow(10, future as nat),
            num_actions as int,
            future as nat,
        ),
{
    let d: usize = power(10, future);
    let tick: usize = index / d;
    let mut qid: usize = index % d;
    let ghost first = qid as int;
    let mut actions: Vec<usize> = Vec::new();
    if future == 0 {
        assert(actions@.map_values(|a: usize| a as int) =~= actions_spec(
            first,
            num_actions as int,
            0,
        ));
        return (tick, actions);
    }
    proof {
        lemma_pow_increases(num_actions as nat, (future - 1) as nat, future as nat);
    }
    let mut unit: usize = power(num_actions, future - 1);
    let mut left: u32 = future;
    while left > 0
        invariant
            left <= future,
            num_actions > 0,
            actions@.len() == future - left,
            left > 0 ==> unit == pow(num_actions as int, (left - 1) as nat),
            unit > 0,
            actions@.map_values(|a: usize| a as int) + actions_spec(
                qid as int,
                num_actions as int,
                left as nat,
            ) == actions_spec(first, num_actions as int, future as nat),
        decreases left,
    {
        let ghost had = actions@.map_values(|a: usize| a as int);
        let ghost was = qid as int;
        let action: usize = qid / unit;
        actions.push(action);
        qid = qid % unit;
        left -= 1;
        proof {
            assert(actions@.map_values(|a: usize| a as int) =~= had.push(action as int));
            assert(had.push(action as int) + actions_spec(
                qid as int,
                num_actions as int,
                left as nat,
            ) =~= had + actions_spec(was, num_actions as int, (left + 1) as nat));
        }
        if left > 0 {
            proof {
                vstd::arithmetic::power::lemma_pow_adds(
                    num_actions as int,
                    (left - 1) as nat,
                    1,
                );
                vstd::arithmetic::power::lemma_pow1(num_actions as int);
                lemma_pow_positive(num_actions as int, (left - 1) as nat);
                vstd::arithmetic::div_mod::lemma_div_multiples_vanish(
                    pow(num_actions as int, (left - 1) as nat),
                    num_actions as int,
                );
                assert(pow(num_actions as int, (left - 1) as nat) * (num_actions as int)
                    == (num_actions as int) * pow(num_actions as int, (left - 1) as nat))
                    by (nonlinear_arith);
            }
            unit = unit / num_actions;
        }
    }
    proof {
        assert(actions@.map_values(|a: usize| a as int) + Seq::<int>::empty()
            =~= actions@.map_values(|a: usize| a as int));
    }
    (tick, actions)
}

/// The envelopes of the next blocks of the query `index`, whose frame is
/// `img`: the frame is split into blocks of `blocksize` bytes, and `count`
/// of them go out from block `incache` on, as far as the frame has them.
/// The key of the query is its index in decimal digits.
pub fn frame_blocks(img: &Vec<u8>, blocksize: usize, index: usize, count: usize, incache: usize) -> (r:
    Vec<StreamBlock>)
    requires
        blocksize > 0,
        img@.len() > 0,
        img@.len() as int / chunk_size(img@.len() as int, blocksize as int) <= u32::MAX,
    ensures
        r@.len() == sent(
            img@.len() as int / chunk_size(img@.len() as int, blocksize as int),
            count as int,
            incache as int,
            0,
        ),
        forall|j: int|
            0 <= j < r@.len() ==> holds(
                #[trigger] r@[j],
                envelope_spec(
                    (incache + j) as u32,
                    (img@.len() as int / chunk_size(img@.len() as int, blocksize as int)) as u32,
                    decimal(index as nat),
                    block_spec(
                        (incache + j) as u32,
                        img@.subrange(
                            (incache + j) * chunk_size(img@.len() as int, blocksize as int),
                            (incache + j + 1) * chunk_size(img@.len() as int, blocksize as int),
                        ),
                    ),
                ),
            ),
{
    let key = decimal_bytes(index);
    let blocks = create_blocks(img, blocksize);
    let mut sblocks: Vec<StreamBlock> = Vec::new();
    let len: usize = blocks.len();
    let nblocks: u32 = len as u32;
    let end: usize = if incache >= len || count > len - incache {
        len
    } else {
        incache + count
    };
    let n: usize = if end > incache {
        end - incache
    } else {
        0
    };
    let mut j: usize = 0;
    while j < n
        invariant
            j <= n,
            n > 0 ==> incache + n <= len,
            len == blocks@.len(),
            nblocks == len,
            key@ == decimal(index as nat),
            sblocks@.len() == j,
            forall|k: int|
                0 <= k < j ==> holds(
                    #[trigger] sblocks@[k],
                    envelope_spec(
                        blocks@[incache + k].block_id,
                        nblocks,
                        key@,
                        block_spec(blocks@[incache + k].block_id, blocks@[incache + k].content@),
                    ),
                ),
        decreases n - j,
    {
        let block = &blocks[incache + j];
        let block_byte = block.serialize();
        let bytebuffer = envelope_of_bytes(block.block_id, nblocks, &key, &block_byte);
        sblocks.push(StreamBlock::Binary(bytebuffer));
        j += 1;
    }
    sblocks
}

} // verus!
