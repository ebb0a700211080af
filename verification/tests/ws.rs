use khameleon::text::{parse_number, split_fields};
use khameleon::webserver::ws::{split_words, Ack, BlockDelays, DispatchTracker};

#[test]
fn dispatch_numbers_are_dense_and_start_at_one() {
    let mut tracker = DispatchTracker::new();
    assert_eq!(tracker.dispatch(1_000, vec![9]), vec![1, 0, 0, 0, 9]);
    assert_eq!(tracker.dispatch(1_005, vec![8, 7]), vec![2, 0, 0, 0, 8, 7]);
    assert_eq!(tracker.block_counter, 2);
    assert_eq!(tracker.last_timestamp, 1_005);
    assert_eq!(tracker.blocks_tracker.get(&1), Some(&1_000));
    assert_eq!(tracker.blocks_tracker.get(&2), Some(&1_005));
}

#[test]
fn acknowledgement_gives_the_delay_of_its_block() {
    let mut tracker = DispatchTracker::new();
    tracker.dispatch(1_000, vec![]);
    tracker.dispatch(1_005, vec![]);
    assert_eq!(
        tracker.acknowledge(&b"2 777".to_vec(), 1_050),
        Ack::Arrived(BlockDelays { bid: 2, delay: 45, t1: 1_005, t2: 1_050, client: 777 })
    );
    assert_eq!(
        tracker.acknowledge(&b"  1\t".to_vec(), 1_050),
        Ack::Arrived(BlockDelays { bid: 1, delay: 50, t1: 1_000, t2: 1_050, client: 0 })
    );
    assert_eq!(
        tracker.acknowledge(&b"1 5 6".to_vec(), 1_001),
        Ack::Arrived(BlockDelays { bid: 1, delay: 1, t1: 1_000, t2: 1_001, client: 0 })
    );
}

#[test]
fn acknowledgements_of_unknown_blocks_and_broken_texts() {
    let mut tracker = DispatchTracker::new();
    tracker.dispatch(1_000, vec![]);
    assert_eq!(tracker.acknowledge(&b"3 1".to_vec(), 2_000), Ack::Unknown(3));
    assert_eq!(tracker.acknowledge(&b"".to_vec(), 2_000), Ack::Malformed);
    assert_eq!(tracker.acknowledge(&b"   ".to_vec(), 2_000), Ack::Malformed);
    assert_eq!(tracker.acknowledge(&b"one 1".to_vec(), 2_000), Ack::Malformed);
    assert_eq!(tracker.acknowledge(&b"1 soon".to_vec(), 2_000), Ack::Malformed);
    assert_eq!(tracker.acknowledge(&b"4294967296 1".to_vec(), 2_000), Ack::Malformed);
    // an acknowledgement from before the dispatch
    assert_eq!(tracker.acknowledge(&b"1 1".to_vec(), 999), Ack::Malformed);
}

#[test]
fn words_are_runs_between_white_space() {
    assert_eq!(split_words(&b" ab  c\n".to_vec()), vec![b"ab".to_vec(), b"c".to_vec()]);
    assert_eq!(split_words(&b"x".to_vec()), vec![b"x".to_vec()]);
    assert_eq!(split_words(&b"\t \r".to_vec()), Vec::<Vec<u8>>::new());
}

#[test]
fn fields_are_what_lies_between_separators() {
    assert_eq!(
        split_fields(&b"a__b_".to_vec(), b'_'),
        vec![b"a".to_vec(), b"".to_vec(), b"b".to_vec(), b"".to_vec()]
    );
    assert_eq!(split_fields(&b"".to_vec(), b'_'), vec![b"".to_vec()]);
}

#[test]
fn numbers_are_digits_after_an_optional_plus() {
    assert_eq!(parse_number(&b"0".to_vec(), 10), Some(0));
    assert_eq!(parse_number(&b"007".to_vec(), 10), Some(7));
    assert_eq!(parse_number(&b"+10".to_vec(), 10), Some(10));
    assert_eq!(parse_number(&b"11".to_vec(), 10), None);
    assert_eq!(parse_number(&b"".to_vec(), 10), None);
    assert_eq!(parse_number(&b"+".to_vec(), 10), None);
    assert_eq!(parse_number(&b"-1".to_vec(), 10), None);
    assert_eq!(parse_number(&b"1 ".to_vec(), 10), None);
    assert_eq!(
        parse_number(&b"340282366920938463463374607431768211455".to_vec(), u128::MAX),
        Some(u128::MAX)
    );
    assert_eq!(
        parse_number(&b"340282366920938463463374607431768211456".to_vec(), u128::MAX),
        None
    );
}
