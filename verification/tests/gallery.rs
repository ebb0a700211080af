use khameleon::apps::gallery::{
    create_blocks, encode_key, get_fake_block_bytes, get_nblocks_bytes, ImageBlock, Query,
};
use khameleon::apps::AppType;
use khameleon::ds::StreamBlock;
use khameleon::wire::{decode_envelope, envelope};

fn bytes_of(block: &StreamBlock) -> Vec<u8> {
    match block {
        StreamBlock::Binary(bytes) => bytes.clone(),
        StreamBlock::Stop => panic!("a block was expected"),
    }
}

#[test]
fn test_gallery_preprocess() {
    // a gallery of 10 by 10 tiles that all show one image, in blocks of 20 KiB
    let factor: u32 = 10;
    let block_size = 20 * 1024;
    let img: Vec<u8> = (0..(3 * block_size + 100)).map(|i| (i % 251) as u8).collect();
    let blocks = create_blocks(&img, block_size);
    assert_eq!(blocks.len(), 3);
    for (i, block) in blocks.iter().enumerate() {
        assert_eq!(block.block_id as usize, i);
        assert_eq!(block.size(), block_size);
        assert_eq!(block.content[..], img[i * block_size..(i + 1) * block_size]);
    }
    let mut keys = Vec::new();
    for x in 0..factor {
        for y in 0..factor {
            keys.push(encode_key(&Query { x, y }));
        }
    }
    assert_eq!(keys.len(), 100);
    assert_eq!(keys[0], b"{\"x\":0,\"y\":0}".to_vec());
    assert_eq!(keys[99], b"{\"x\":9,\"y\":9}".to_vec());
}

#[test]
fn key_is_the_json_of_the_tile() {
    assert_eq!(encode_key(&Query { x: 3, y: 14 }), b"{\"x\":3,\"y\":14}".to_vec());
    assert_eq!(
        encode_key(&Query { x: u32::MAX, y: 0 }),
        b"{\"x\":4294967295,\"y\":0}".to_vec()
    );
    assert_eq!(AppType::Gallery, AppType::Gallery);
    assert_ne!(AppType::Gallery, AppType::TestApp);
}

#[test]
fn a_small_image_is_one_block() {
    let img = vec![1u8, 2, 3];
    let blocks = create_blocks(&img, 1024);
    assert_eq!(blocks, vec![ImageBlock { block_id: 0, content: vec![1, 2, 3] }]);
    assert_eq!(blocks[0].serialize(), vec![0, 0, 0, 0, 3, 0, 0, 0, 0, 0, 0, 0, 1, 2, 3]);
}

#[test]
fn next_blocks_go_out_in_envelopes() {
    let img: Vec<u8> = (0..40).collect();
    let blocks = create_blocks(&img, 10);
    let sent = get_nblocks_bytes(Some(&blocks), "k", 2, 1, 0).unwrap();
    assert_eq!(sent.len(), 2);
    for (j, out) in sent.iter().enumerate() {
        let expected = envelope(1 + j as u32, 4, "k", &blocks[1 + j].serialize());
        assert_eq!(bytes_of(out), expected);
        let read = decode_envelope(&bytes_of(out)).unwrap();
        assert_eq!(read.block_id, 1 + j as u32);
        assert_eq!(read.nblocks, 4);
        assert_eq!(read.key, b"k".to_vec());
    }
}

#[test]
fn no_more_blocks_go_out_than_the_query_has_or_the_limit_allows() {
    let img: Vec<u8> = (0..40).collect();
    let blocks = create_blocks(&img, 10);
    assert_eq!(get_nblocks_bytes(Some(&blocks), "k", 10, 3, 0).unwrap().len(), 1);
    assert_eq!(get_nblocks_bytes(Some(&blocks), "k", 10, 4, 0).unwrap().len(), 0);
    assert_eq!(get_nblocks_bytes(Some(&blocks), "k", 10, 9, 0).unwrap().len(), 0);
    assert_eq!(get_nblocks_bytes(Some(&blocks), "k", 10, 0, 3).unwrap().len(), 3);
    assert_eq!(get_nblocks_bytes(Some(&blocks), "k", 2, 0, 3).unwrap().len(), 2);
    assert_eq!(get_nblocks_bytes(Some(&blocks), "k", usize::MAX, 1, 0).unwrap().len(), 3);
    assert!(get_nblocks_bytes(None, "k", 1, 0, 0).is_none());
}

#[test]
fn fake_blocks_are_zeros_of_the_block_size() {
    let sent = get_fake_block_bytes("k", 2, 5, 4).unwrap();
    assert_eq!(sent.len(), 1);
    let read = decode_envelope(&bytes_of(&sent[0])).unwrap();
    assert_eq!(read.block_id, 2);
    assert_eq!(read.nblocks, 5);
    assert_eq!(read.key, b"k".to_vec());
    assert_eq!(read.payload, vec![2, 0, 0, 0, 4, 0, 0, 0, 0, 0, 0, 0, 0, 0, 0, 0]);
    assert!(get_fake_block_bytes("k", 5, 5, 4).is_some());
    assert!(get_fake_block_bytes("k", 6, 5, 4).is_none());
}
