use khameleon::apps::game::{create_blocks, decode_index, frame_blocks, power, FrameBlock};
use khameleon::ds::StreamBlock;
use khameleon::wire::decode_envelope;

#[test]
fn test_game_preprocess_backend() {
    // one frame under the key "0", in blocks of 20 KiB
    let blocksize = 20 * 1024;
    let frame: Vec<u8> = (0..(2 * blocksize + 7)).map(|i| (i % 253) as u8).collect();
    let blocks = create_blocks(&frame, blocksize);
    assert_eq!(blocks.len(), 2);
    assert_eq!(blocks[1].block_id, 1);
    assert_eq!(blocks[1].size(), blocksize);
    assert_eq!(blocks[1].content[..], frame[blocksize..2 * blocksize]);
    let query = "0";
    let key = query.as_bytes().to_vec();
    let sent = frame_blocks(&frame, blocksize, 0, 1, 0);
    assert_eq!(sent.len(), 1);
    match &sent[0] {
        StreamBlock::Binary(bytes) => {
            let read = decode_envelope(bytes).unwrap();
            assert_eq!(read.key, key);
            assert_eq!(read.nblocks, 2);
            assert_eq!(read.payload, blocks[0].serialize());
        }
        StreamBlock::Stop => panic!("a block was expected"),
    }
}

#[test]
fn frame_block_serializes_like_an_image_block() {
    let block = FrameBlock { block_id: 258, content: vec![7] };
    assert_eq!(block.size(), 1);
    assert_eq!(block.serialize(), vec![2, 1, 0, 0, 1, 0, 0, 0, 0, 0, 0, 0, 7]);
}

#[test]
fn powers() {
    assert_eq!(power(10, 3), 1000);
    assert_eq!(power(5, 0), 1);
    assert_eq!(power(1, 31), 1);
    assert_eq!(power(2, 20), 1_048_576);
}

#[test]
fn index_holds_tick_and_actions() {
    // tick 12, then the actions 4, 1, 3 as the number 4 * 25 + 1 * 5 + 3
    assert_eq!(decode_index(12_108, 3, 5), (12, vec![4, 1, 3]));
    assert_eq!(decode_index(0, 3, 5), (0, vec![0, 0, 0]));
    assert_eq!(decode_index(124, 3, 5), (0, vec![4, 4, 4]));
    // what does not fit into the digits stays in the first
    assert_eq!(decode_index(999, 3, 5), (0, vec![39, 4, 4]));
    assert_eq!(decode_index(77, 0, 5), (77, vec![]));
}

#[test]
fn frames_go_out_under_the_index_as_key() {
    let frame: Vec<u8> = (0..30).collect();
    let sent = frame_blocks(&frame, 10, 3124, 2, 1);
    assert_eq!(sent.len(), 2);
    for (j, out) in sent.iter().enumerate() {
        match out {
            StreamBlock::Binary(bytes) => {
                let read = decode_envelope(bytes).unwrap();
                assert_eq!(read.block_id, 1 + j as u32);
                assert_eq!(read.nblocks, 3);
                assert_eq!(read.key, b"3124".to_vec());
                let start = 10 * (1 + j);
                let mut payload = vec![1 + j as u8, 0, 0, 0, 10, 0, 0, 0, 0, 0, 0, 0];
                payload.extend_from_slice(&frame[start..start + 10]);
                assert_eq!(read.payload, payload);
            }
            StreamBlock::Stop => panic!("a block was expected"),
        }
    }
    assert!(frame_blocks(&frame, 10, 3124, 2, 3).is_empty());
}
