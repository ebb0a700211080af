//! The bookkeeping of the socket: every block that goes out gets the next
//! dispatch number and a time stamp, and an acknowledgement of the client
//! tells how long the block was on its way.

use vstd::prelude::*;
use std::collections::HashMap;
use crate::text::{number_spec, parse_number};
use crate::wire::{dispatch_spec, frame_dispatch};

verus! {

broadcast use vstd::std_specs::hash::group_hash_axioms;

/// The byte is ASCII white space.
pub open spec fn is_space(c: u8) -> bool {
    c == 32 || (9 <= c <= 13)
}

/// The words of a text: its longest runs of bytes that are not white space,
/// in order.
pub open spec fn words(s: Seq<u8>) -> Seq<Seq<u8>>
    decreases s.len(),
{
    if s.len() == 0 {
        Seq::empty()
    } else {
        let before = words(s.drop_last());
        if is_space(s.last()) {
            before
        } else if s.len() >= 2 && !is_space(s[s.len() - 2]) && before.len() > 0 {
            before.update(before.len() - 1, before.last().push(s.last()))
        } else {
            before.push(seq![s.last()])
        }
    }
}

/// The words of a text.
pub fn split_words(s: &Vec<u8>) -> (r: Vec<Vec<u8>>)
    ensures
        r@.len() == words(s@).len(),
        forall|i: int| 0 <= i < r@.len() ==> (#[trigger] r@[i])@ == words(s@)[i],
{
    let mut done: Vec<Vec<u8>> = Vec::new();
    let mut current: Vec<u8> = Vec::new();
    let mut in_word: bool = false;
    let mut i: usize = 0;
    proof {
        assert(s@.take(0) =~= Seq::<u8>::empty());
    }
    while i < s.len()
        invariant
            i <= s@.len(),
            in_word == (i > 0 && !is_space(s@[i - 1])),
            in_word ==> words(s@.take(i as int)).len() == done@.len() + 1 && current@ == words(
                s@.take(i as int),
            ).last(),
            !in_word ==> words(s@.take(i as int)).len() == done@.len() && current@.len() == 0,
            forall|k: int|
                0 <= k < done@.len() ==> (#[trigger] done@[k])@ == words(s@.take(i as int))[k],
        decreases s@.len() - i,
    {
        let c: u8 = s[i];
        let space: bool = c == 32 || (9 <= c && c <= 13);
        proof {
            assert(s@.take(i + 1).drop_last() =~= s@.take(i as int));
            assert(s@.take(i + 1).last() == c);
            if i > 0 {
                assert(s@.take(i + 1)[i - 1] == s@[i - 1]);
            }
        }
        if space {
            if in_word {
                let mut finished: Vec<u8> = Vec::new();
                std::mem::swap(&mut finished, &mut current);
                done.push(finished);
            }
            in_word = false;
        } else {
            current.push(c);
            in_word = true;
        }
        i += 1;
    }
    proof {
        assert(s@.take(s@.len() as int) =~= s@);
    }
    if in_word {
        done.push(current);
    }
    done
}

/// What is known of a block once the client has acknowledged it.
#[derive(Clone, Copy, Debug, PartialEq, Eq, Structural)]
pub struct BlockDelays {
    /// The dispatch number of the block.
    pub bid: u32,
    /// The time between dispatch and acknowledgement, in milliseconds.
    pub delay: u128,
    /// When the block was dispatched.
    pub t1: u128,
    /// When the acknowledgement came.
    pub t2: u128,
    /// The time at the client, as the acknowledgement gives it.
    pub client: u128,
}

/// What an acknowledgement of the client says.
#[derive(Clone, Copy, Debug, PartialEq, Eq, Structural)]
pub enum Ack {
    /// The block arrived, with the delays that follow from it.
    Arrived(BlockDelays),
    /// The dispatch number is of no block that was sent.
    Unknown(u32),
    /// The text is no acknowledgement.
    Malformed,
}

/// What the text of an acknowledgement holds: the dispatch number in its
/// first word and, where it has exactly two words, the time at the client
/// in the second. An acknowledgement of one word, or of more than two, has
/// the time zero.
pub open spec fn ack_spec(text: Seq<u8>) -> Option<(int, int)> {
    let w = words(text);
    if w.len() == 0 {
        None
    } else {
        match number_spec(w[0], u32::MAX as int) {
            None => None,
            Some(bid) => if w.len() == 2 {
                match number_spec(w[1], u128::MAX as int) {
                    None => None,
                    Some(client) => Some((bid, client)),
                }
            } else {
                Some((bid, 0))
            },
        }
    }
}

/// The blocks that went out over a socket, by dispatch number.
pub struct DispatchTracker {
    /// The dispatch number of the last block.
    pub block_counter: u32,
    /// When each block was dispatched, in milliseconds of the clock.
    pub blocks_tracker: HashMap<u32, u128>,
    /// When the last block was dispatched.
    pub last_timestamp: u128,
}

impl DispatchTracker {
    /// A tracker of a socket over which nothing went out yet.
    pub fn new() -> (r: Self)
        ensures
            r.block_counter == 0,
            r.blocks_tracker@ == Map::<u32, u128>::empty(),
            r.last_timestamp == 0,
    {
        DispatchTracker { block_counter: 0, blocks_tracker: HashMap::new(), last_timestamp: 0 }
    }

    /// Gives the block the next dispatch number, notes the time of its
    /// dispatch and returns what goes out: the number, then the block.
    /// Dispatch numbers start at one and leave out none.
    pub fn dispatch(&mut self, timestamp: u128, block: Vec<u8>) -> (r: Vec<u8>)
        requires
            old(self).block_counter < u32::MAX,
        ensures
            final(self).block_counter == old(self).block_counter + 1,
            final(self).last_timestamp == timestamp,
            final(self).blocks_tracker@ == old(self).blocks_tracker@.insert(
                final(self).block_counter,
                timestamp,
            ),
            r@ == dispatch_spec(final(self).block_counter, block@),
    {
        self.block_counter += 1;
        self.last_timestamp = timestamp;
        self.blocks_tracker.insert(self.block_counter, timestamp);
        frame_dispatch(self.block_counter, block)
    }

    /// Reads an acknowledgement that came at `now`: the block that it names
    /// was on its way since its dispatch. A text that names a block before
    /// the time of its dispatch counts as no acknowledgement.
    pub fn acknowledge(&self, text: &Vec<u8>, now: u128) -> (r: Ack)
        ensures
            r == (match ack_spec(text@) {
                None => Ack::Malformed,
                Some((bid, client)) => if self.blocks_tracker@.contains_key(bid as u32) {
                    let t1 = self.blocks_tracker@[bid as u32];
                    if now >= t1 {
                        Ack::Arrived(
                            BlockDelays {
                                bid: bid as u32,
                                delay: (now - t1) as u128,
                                t1,
                                t2: now,
                                client: client as u128,
                            },
                        )
                    } else {
                        Ack::Malformed
                    }
                } else {
                    Ack::Unknown(bid as u32)
                },
            }),
    {
        let nums = split_words(text);
        if nums.len() == 0 {
            return Ack::Malformed;
        }
        let bid: u32 = match parse_number(&nums[0], u32::MAX as u128) {
            Some(n) => n as u32,
            None => {
                return Ack::Malformed;
            },
        };
        let client_timestamp: u128 = if nums.len() == 2 {
            match parse_number(&nums[1], u128::MAX) {
                Some(t) => t,
                None => {
                    return Ack::Malformed;
                },
            }
        } else {
            0
        };
        match self.blocks_tracker.get(&bid) {
            Some(t1) => {
                let t1: u128 = *t1;
                if now >= t1 {
                    Ack::Arrived(
                        BlockDelays {
                            bid,
                            delay: now - t1,
                            t1,
                            t2: now,
                            client: client_timestamp,
                        },
                    )
                } else {
                    Ack::Malformed
                }
            },
            None => Ack::Unknown(bid),
        }
    }
}

} // verus!
