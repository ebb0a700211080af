//! The applications the server can stream for, and what each owes the core.

use vstd::prelude::*;
use indexmap::IndexMap;
use crate::ds::{PredictorState, StreamBlock};
use crate::scheduler::Prob;

pub mod gallery;
pub mod game;

verus! {

/// The applications the server knows.
#[derive(Clone, Copy, Debug, PartialEq, Eq, Structural)]
pub enum AppType {
    TestApp,
    Gallery,
}

/// What an application owes the core: what the scheduler needs to know of
/// its queries, the decoding of the client's predictions, and the blocks of
/// its queries.
pub trait AppTrait: Send + Sync {
    /// The number of blocks of each query, by key and in the order of the
    /// indices of the queries, and the utility of having each number of
    /// blocks of a query.
    fn get_scheduler_config(&self) -> (IndexMap<String, usize>, Vec<u64>);

    /// The distribution over the queries that a prediction of the client
    /// stands for.
    fn decode_dist(&mut self, userstate: PredictorState) -> Prob;

    /// The size of a block, in bytes.
    fn get_block_size(&self) -> usize;

    /// The envelopes of `count` blocks of the query with index `index`,
    /// from block `incache` on. An application that serves no blocks by
    /// index has none.
    fn get_nblocks_byindex(&mut self, index: usize, count: usize, incache: usize) -> (r: Option<
        Vec<StreamBlock>,
    >)
        default_ensures
            r.is_none(),
    {
        None
    }

    /// The envelopes of `count` blocks of the query with key `key`, from
    /// block `incache` on. An application that serves no blocks by key has
    /// none.
    fn get_nblocks_bykey(&mut self, key: &str, count: usize, incache: usize) -> (r: Option<
        Vec<StreamBlock>,
    >)
        default_ensures
            r.is_none(),
    {
        None
    }

    /// Releases what the application holds when the session ends.
    fn shutdown(&mut self) {
    }

    /// What the client needs to set up its state. An application that needs
    /// nothing set up gives the empty string.
    fn get_initstate(&mut self) -> (r: String)
        default_ensures
            r@ == Seq::<char>::empty(),
    {
        String::new()
    }

    /// Tells the application of a plan before it is sent.
    fn prepare_schedule(&mut self, schedule: &Vec<usize>) {
    }
}

} // verus!
