use indexmap::IndexMap;
use khameleon::apps::AppTrait;
use khameleon::ds::PredictorState;
use khameleon::scheduler::prob::Prob;

/// An application that offers only what every application must.
struct Bare;

impl AppTrait for Bare {
    fn get_scheduler_config(&self) -> (IndexMap<String, usize>, Vec<u64>) {
        (IndexMap::new(), Vec::new())
    }

    fn decode_dist(&mut self, _userstate: PredictorState) -> Prob {
        Prob::new(0)
    }

    fn get_block_size(&self) -> usize {
        0
    }
}

#[test]
fn an_application_serves_no_blocks_unless_it_says_how() {
    let mut app = Bare;
    assert!(app.get_nblocks_byindex(0, 1, 0).is_none());
    assert!(app.get_nblocks_byindex(7, 3, 2).is_none());
    assert!(app.get_nblocks_bykey("k", 1, 0).is_none());
    assert!(app.get_nblocks_bykey("", 0, 9).is_none());
}

#[test]
fn an_application_needs_nothing_set_up_unless_it_says_what() {
    let mut app = Bare;
    assert_eq!(app.get_initstate(), "");
    app.prepare_schedule(&vec![1, 2]);
    app.shutdown();
    assert_eq!(app.get_block_size(), 0);
}
