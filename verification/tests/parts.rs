use bytes::Bytes;
use car_mirror::bloom::bloom_is_small;
use car_mirror::car::{
    car_frame_from_block, car_header_for, read_car_blocks, stream_car_frames, stream_car_frames_limited,
    write_blocks_into_car, CarBlocks, CarWriting, LimitedCarFrames, CAR_STREAM_CHUNK_SIZE,
    MAX_FRAME, MAX_FRAMING,
};
use car_mirror::cbor::{read_frame, MAX_NESTING};
use car_mirror::cid::{
    Cid, Order, CODEC_DAG_CBOR, CODEC_DAG_JSON, CODEC_DAG_PB, CODEC_RAW, HASH_SHA2_256,
    MAX_ENCODING,
};
use car_mirror::cid_set::CidSet;
use car_mirror::common::{CarFile, Config};
use car_mirror::error::{Error, IncrementalVerificationError};
use car_mirror::incremental_verification::{
    fill_bloom, verify_digest, BlockState, Discovery, IncrementalDagVerification,
};
use car_mirror::ipld::{append_links, is_codec_supported, references, ReferencesError};
use car_mirror::messages::{PullRequest, PushResponse};
use car_mirror::receive::read_and_verify_block;
use car_mirror::receiver_state::{
    attach_skip_roots, handle_missing_bloom, should_block_be_skipped, ReceiverState,
};
use car_mirror::subgraph_roots::verify_missing_subgraph_roots;
use deterministic_bloom::runtime_size::BloomFilter;
use libipld_core::multihash::{Code, MultihashDigest};

fn raw(data: &[u8]) -> (Cid, Bytes) {
    (sha2(CODEC_RAW, data), Bytes::copy_from_slice(data))
}

fn sha2(codec: u64, data: &[u8]) -> Cid {
    Cid::new_v1(codec, HASH_SHA2_256, Code::Sha2_256.digest(data).digest())
}

fn short(n: u8) -> Cid {
    Cid::new_v1(CODEC_RAW, 0x12, &[n])
}

fn concat(chunks: &[Bytes]) -> Vec<u8> {
    chunks.iter().flat_map(|chunk| chunk.to_vec()).collect()
}

fn read_all(car: Vec<u8>) -> Vec<(Cid, Bytes)> {
    read_car_blocks(CarFile { bytes: car.into() }).unwrap()
}

#[test]
fn test_receiver_state_is_not_a_huge_debug() {
    let state = ReceiverState {
        have_cids_bloom: Some(BloomFilter::new_from_size(4096, 1000)),
        missing_subgraph_roots: vec![Cid::default(); 1000],
        skip_subgraph_roots: vec![Cid::default(); 1000],
    };

    let debug_print = state.to_debug_string(true);

    assert!(debug_print.len() < 1000);
}

#[test]
fn test_stream_car_frame_empty() {
    let frames: Vec<Bytes> = stream_car_frames(&[]).unwrap();

    assert!(frames.is_empty());
}

#[test]
fn test_write_blocks_into_car_empty() {
    let car_file = write_blocks_into_car(Vec::new(), &[], None).unwrap();

    assert!(car_file.is_empty());
}

#[test]
fn debug_string_counts_instead_of_listing() {
    let state = ReceiverState {
        have_cids_bloom: None,
        missing_subgraph_roots: vec![Cid::default(); 120],
        skip_subgraph_roots: vec![],
    };
    assert_eq!(
        state.to_debug_string(false),
        "ReceiverState { missing_subgraph_roots.len() == : 120, have_cids_bloom: \"None\", \
         skip_subgraph_roots.len() == : 0 }"
    );
    let state = ReceiverState {
        have_cids_bloom: Some(BloomFilter::new_with(7, vec![0; 64].into_boxed_slice())),
        ..state
    };
    assert_eq!(
        state.to_debug_string(true),
        "ReceiverState {\n    missing_subgraph_roots.len() == : 120,\n    have_cids_bloom: \
         \"Some(BloomFilter(k_hashes = 7, 64 bytes))\",\n    skip_subgraph_roots.len() == : 0,\n}"
    );
}

#[test]
fn cids_have_a_binary_form() {
    assert_eq!(Cid::default().to_bytes(), vec![1, 0, 0, 0]);
    assert_eq!(
        Cid::new_v1(CODEC_DAG_JSON, 0x12, &[7, 8, 9]).to_bytes(),
        vec![1, 0xa9, 0x02, 0x12, 3, 7, 8, 9]
    );
    let digest = [5u8; 32];
    let v0 = Cid::from_parts(0, CODEC_DAG_PB, HASH_SHA2_256, &digest).unwrap();
    let bytes = v0.to_bytes();
    assert_eq!(bytes[..2], [0x12, 0x20]);
    assert_eq!(bytes[2..], digest);
    // A code of ten bytes.
    assert_eq!(Cid::new_v1(u64::MAX, 0, &[]).to_bytes().len(), 1 + 10 + 1 + 1);
}

#[test]
fn cids_have_valid_parts() {
    assert!(Cid::from_parts(2, CODEC_RAW, 0x12, &[]).is_none());
    assert!(Cid::from_parts(1, CODEC_RAW, 0x12, &[0; 65]).is_none());
    assert!(Cid::from_parts(0, CODEC_RAW, HASH_SHA2_256, &[0; 32]).is_none());
    assert!(Cid::from_parts(0, CODEC_DAG_PB, 0x13, &[0; 32]).is_none());
    assert!(Cid::from_parts(0, CODEC_DAG_PB, HASH_SHA2_256, &[0; 31]).is_none());
    let cid = Cid::from_parts(1, CODEC_RAW, 0x13, &[1; 64]).unwrap();
    assert_eq!((cid.version(), cid.codec(), cid.hash_code()), (1, CODEC_RAW, 0x13));
    assert_eq!(cid.digest(), vec![1; 64]);
}

#[test]
fn cids_are_ordered_like_their_parts() {
    let v0 = Cid::from_parts(0, CODEC_DAG_PB, HASH_SHA2_256, &[9; 32]).unwrap();
    let cids = [
        v0,
        Cid::new_v1(1, 5, &[9]),
        Cid::new_v1(2, 1, &[9, 9]),
        Cid::new_v1(2, 3, &[8]),
        Cid::new_v1(2, 3, &[9]),
        Cid::new_v1(2, 3, &[0, 0]),
    ];
    for (i, a) in cids.iter().enumerate() {
        for (j, b) in cids.iter().enumerate() {
            let expected = match i.cmp(&j) {
                std::cmp::Ordering::Less => Order::Less,
                std::cmp::Ordering::Equal => Order::Equal,
                std::cmp::Ordering::Greater => Order::Greater,
            };
            assert_eq!(a.order(b), expected);
            assert_eq!(a == b, i == j);
        }
    }
}

#[test]
fn sets_keep_their_members_in_order() {
    let mut set = CidSet::from_slice(&[short(3), short(1), short(2), short(3)]);
    assert_eq!(set.len(), 3);
    assert_eq!(set.to_vec(), vec![short(1), short(2), short(3)]);
    assert!(!set.insert(short(2)));
    assert!(set.insert(short(0)));
    assert!(set.remove(&short(1)));
    assert!(!set.remove(&short(1)));
    assert!(set.contains(&short(0)) && !set.contains(&short(1)));
    let copy = set.clone();
    assert_eq!(set.drain(), vec![short(0), short(2), short(3)]);
    assert!(set.is_empty());
    assert_eq!(copy.len(), 3);
    assert!(CidSet::new().is_empty());
}

#[test]
fn defaults_are_as_documented() {
    let config = Config::default();
    assert_eq!(config.receive_maximum, 2_000_000);
    assert_eq!(config.max_block_size, 1_000_000);
    assert_eq!(config.max_roots_per_round, 1000);
    assert!(config.skip_subgraph_roots.is_empty());
    assert!(!config.bloom_implies_complete_subgraphs);
}

#[test]
fn frames_are_a_length_a_cid_and_a_block() {
    let cid = Cid::new_v1(CODEC_RAW, 0x12, &[7, 8]);
    let frame = car_frame_from_block(cid, &Bytes::from_static(b"abc")).unwrap();
    assert_eq!(frame.to_vec(), vec![9, 1, 0x55, 0x12, 2, 7, 8, b'a', b'b', b'c']);
    let frame = car_frame_from_block(cid, &vec![0; 200].into()).unwrap();
    assert_eq!(frame[..3], [206, 1, 1]);
    assert_eq!(frame.len(), 2 + 6 + 200);
}

#[test]
fn headers_name_the_first_block() {
    // {"roots": [CID], "version": 1} as DAG-CBOR
    let mut expected = vec![28, 0xa2, 0x65];
    expected.extend(b"roots");
    expected.extend([0x81, 0xd8, 0x2a, 0x45, 0, 1, 0, 0, 0, 0x67]);
    expected.extend(b"version");
    expected.push(1);
    expected[0] = expected.len() as u8 - 1;
    assert_eq!(car_header_for(Cid::default()).unwrap().to_vec(), expected);
}

#[test]
fn sections_concatenate_to_a_car_file() {
    let blocks = [raw(b"one"), raw(b"two"), raw(b"three")];
    let sections = stream_car_frames(&blocks).unwrap();
    assert_eq!(sections.len(), 4);
    assert_eq!(sections[0], car_header_for(blocks[0].0).unwrap());
    assert_eq!(sections[2], car_frame_from_block(blocks[1].0, &blocks[1].1).unwrap());
    let file = concat(&sections);
    assert_eq!(write_blocks_into_car(Vec::new(), &blocks, None).unwrap(), file);
    assert_eq!(write_blocks_into_car(vec![1, 2], &blocks, None).unwrap()[2..], file);
    assert_eq!(concat(&stream_car_frames_limited(&blocks, None).unwrap()), file);
    assert_eq!(read_all(file), blocks.to_vec());
}

#[test]
fn limited_stream_stops_in_time() {
    let blocks = [raw(&[1; 100]), raw(&[2; 100]), raw(&[3; 100])];
    let first = concat(&stream_car_frames(&blocks[..1]).unwrap()).len();
    let frame = car_frame_from_block(blocks[1].0, &blocks[1].1).unwrap().len();
    let sent = |limit| read_all(concat(&stream_car_frames_limited(&blocks, Some(limit)).unwrap()));
    // The first block is always sent.
    assert_eq!(sent(0).len(), 1);
    assert_eq!(sent(first + frame - 1).len(), 1);
    assert_eq!(sent(first + frame).len(), 2);
    assert_eq!(sent(first + 2 * frame - 1).len(), 2);
    assert_eq!(sent(first + 2 * frame).len(), 3);
    assert_eq!(sent(usize::MAX).len(), 3);
    assert!(stream_car_frames_limited(&[], Some(0)).unwrap().is_empty());
}

#[test]
fn limited_stream_comes_in_chunks() {
    let blocks: Vec<(Cid, Bytes)> = (0..5u8).map(|i| raw(&vec![i; 40_000])).collect();
    let chunks = stream_car_frames_limited(&blocks, None).unwrap();
    let frame = car_frame_from_block(blocks[0].0, &blocks[0].1).unwrap().len();
    let header = car_header_for(blocks[0].0).unwrap().len();
    let sizes: Vec<usize> = chunks.iter().map(|chunk| chunk.len()).collect();
    assert_eq!(sizes, vec![header + 2 * frame, 2 * frame, frame]);
    assert!(sizes[0] >= CAR_STREAM_CHUNK_SIZE);
    assert_eq!(read_all(concat(&chunks)), blocks);

    // A first block that is large enough by itself waits for the next one.
    let big = [raw(&vec![0; 100_000]), raw(b"small")];
    assert_eq!(stream_car_frames_limited(&big, None).unwrap().len(), 1);
    let mut frames = LimitedCarFrames::new(None);
    assert_eq!(frames.add_block(big[0].0, &big[0].1).unwrap(), (true, None));
    let (accepted, chunk) = frames.add_block(big[1].0, &big[1].1).unwrap();
    assert!(accepted && chunk.is_some());
    assert!(frames.finish().is_none());
}

#[test]
fn car_file_stops_in_time() {
    let blocks = [raw(&[1; 100]), raw(&[2; 100]), raw(&[3; 100])];
    let first = write_blocks_into_car(Vec::new(), &blocks[..1], None).unwrap().len();
    let frame = car_frame_from_block(blocks[1].0, &blocks[1].1).unwrap().len();
    let sent = |limit| {
        let car = write_blocks_into_car(Vec::new(), &blocks, Some(limit)).unwrap();
        assert!(car.len() <= limit || read_all(car.clone()).len() == 1);
        read_all(car).len()
    };
    assert_eq!(sent(0), 1);
    assert_eq!(sent(first + frame - 1), 1);
    assert_eq!(sent(first + frame), 2);
    assert_eq!(sent(first + frame + frame - 1), 2);
    assert_eq!(sent(first + frame + frame), 3);

    let mut writing = CarWriting::new(Some(usize::MAX));
    for (cid, block) in &blocks {
        assert!(writing.add_block(*cid, block).unwrap().is_some());
    }
}

#[test]
fn car_files_and_streams_are_cut_alike() {
    let blocks = [raw(&[1]), raw(&[2]), raw(&[3; 200]), raw(&[4; 20_000])];
    let header = car_header_for(blocks[0].0).unwrap().len();
    // Each of the first two frames takes up 38 bytes.
    for limit in 0..header + 500 {
        let file = write_blocks_into_car(Vec::new(), &blocks, Some(limit)).unwrap();
        let chunks = stream_car_frames_limited(&blocks, Some(limit)).unwrap();
        assert_eq!(concat(&chunks), file);
    }
    let file = write_blocks_into_car(Vec::new(), &blocks, Some(header + 75)).unwrap();
    assert_eq!(read_all(file).len(), 1);
    let file = write_blocks_into_car(Vec::new(), &blocks, Some(header + 76)).unwrap();
    assert_eq!(file.len(), header + 76);
    assert_eq!(read_all(file).len(), 2);
}

#[test]
fn version_zero_cids_survive_a_car_file() {
    let data = b"data";
    let digest = Code::Sha2_256.digest(data);
    let cid = Cid::from_parts(0, CODEC_DAG_PB, HASH_SHA2_256, digest.digest()).unwrap();
    let blocks = [(cid, Bytes::from_static(data))];
    let car = write_blocks_into_car(Vec::new(), &blocks, None).unwrap();
    assert_eq!(read_all(car), blocks.to_vec());
}

#[test]
fn large_frames_cannot_be_read() {
    let largest = raw(&vec![7; MAX_FRAME - 36]);
    let car = write_blocks_into_car(Vec::new(), &[largest.clone()], None).unwrap();
    assert_eq!(read_all(car), vec![largest]);

    let car = write_blocks_into_car(Vec::new(), &[raw(&vec![7; MAX_FRAME - 35])], None).unwrap();
    let mut blocks = CarBlocks::new(CarFile { bytes: car.into() }).unwrap();
    match blocks.next_block() {
        Err(Error::CarFileError(_)) => {}
        _ => panic!("a large frame was read"),
    }
}

#[test]
fn truncated_car_files_cannot_be_read() {
    let car = write_blocks_into_car(Vec::new(), &[raw(b"data")], None).unwrap();
    let cut = car[..car.len() - 1].to_vec();
    let mut blocks = CarBlocks::new(CarFile { bytes: cut.into() }).unwrap();
    assert!(blocks.next_block().is_err());
    assert!(CarBlocks::new(CarFile { bytes: Bytes::new() }).is_err());
    assert!(read_car_blocks(CarFile { bytes: car[..car.len() - 1].to_vec().into() }).is_err());
}

#[test]
fn blooms_survive_the_wire() {
    let mut bloom = BloomFilter::new_from_size(64, 4);
    bloom.insert(&short(1).to_bytes());
    let state = ReceiverState {
        missing_subgraph_roots: vec![short(2)],
        have_cids_bloom: Some(bloom.clone()),
        skip_subgraph_roots: vec![short(3)],
    };
    let request = PullRequest::from(state.clone());
    assert_eq!(request.bloom_hash_count as usize, bloom.hash_count());
    assert_eq!(request.bloom_bytes, bloom.as_bytes());
    assert_eq!(request.resources, vec![short(2)]);
    let back = ReceiverState::from(request);
    assert!(back.have_cids_bloom.unwrap().contains(&short(1).to_bytes()));
    assert_eq!(back.skip_subgraph_roots, vec![short(3)]);

    let response = PushResponse::from(state);
    assert!(!response.indicates_finished());
    assert_eq!(response.subgraph_roots, vec![short(2)]);
    let back = ReceiverState::from(response);
    assert_eq!(back.missing_subgraph_roots, vec![short(2)]);
    assert!(back.bloom_fits_in_memory());
    assert!(back.have_cids_bloom.unwrap().contains(&short(1).to_bytes()));

    assert_eq!(ReceiverState::bloom_serialize(None), (3, vec![]));
    assert!(ReceiverState::bloom_deserialize(3, vec![]).is_none());
    let state = ReceiverState {
        missing_subgraph_roots: vec![],
        have_cids_bloom: None,
        skip_subgraph_roots: vec![],
    };
    assert!(PushResponse::from(state).indicates_finished());
}

#[test]
fn missing_bloom_holds_nothing() {
    let bloom = handle_missing_bloom(None);
    assert_eq!((bloom.hash_count(), bloom.as_bytes()), (1, &[0u8][..]));
    for i in 0..100 {
        assert!(!should_block_be_skipped(&short(i), &bloom, &CidSet::new()));
    }
    let full = handle_missing_bloom(Some(BloomFilter::new_with(2, vec![0xff; 4].into())));
    assert!(bloom_is_small(&full));
    assert!(should_block_be_skipped(&short(1), &full, &CidSet::new()));
    // Requested blocks are never skipped.
    assert!(!should_block_be_skipped(&short(1), &full, &CidSet::from_slice(&[short(1)])));
}

#[test]
fn filled_blooms_hold_all_that_was_put_in() {
    let cids: Vec<Cid> = (0..50).map(short).collect();
    let bloom = fill_bloom(BloomFilter::new_from_fpr_po2(50, 0.001), &cids);
    assert!(cids.iter().all(|cid| bloom.contains(&cid.to_bytes())));
    assert!(!bloom.contains(&Cid::default().to_bytes()));
}

#[test]
fn skip_roots_are_attached_in_order() {
    let mut state = ReceiverState {
        missing_subgraph_roots: vec![short(5)],
        have_cids_bloom: None,
        skip_subgraph_roots: vec![short(9)],
    };
    attach_skip_roots(&mut state, &CidSet::from_slice(&[short(2), short(1)]));
    assert_eq!(state.skip_subgraph_roots, vec![short(1), short(2)]);
    assert_eq!(state.missing_subgraph_roots, vec![short(5)]);
}

#[test]
fn references_are_found() {
    let a = sha2(CODEC_RAW, b"a");
    let b = sha2(CODEC_DAG_CBOR, b"b");
    let link = |cid: Cid| {
        let mut bytes = vec![0xd8, 0x2a, 0x58, 37, 0];
        bytes.extend(cid.to_bytes());
        bytes
    };
    // [a, {"x": b}, a]
    let mut block = vec![0x83];
    block.extend(link(a));
    block.extend([0xa1, 0x61, b'x']);
    block.extend(link(b));
    block.extend(link(a));
    let cid = sha2(CODEC_DAG_CBOR, &block);
    assert_eq!(references(cid, &block, vec![]).unwrap(), vec![a, b, a]);
    assert_eq!(references(cid, &block, vec![b]).unwrap(), vec![b, a, b, a]);

    // A link in DAG-PB: field 2 of the node is a link, field 1 of the link is a CID.
    let mut pb = vec![0x12, 38, 0x0a, 36];
    pb.extend(a.to_bytes());
    assert_eq!(references(sha2(CODEC_DAG_PB, &pb), &pb, vec![]).unwrap(), vec![a]);

    assert_eq!(references(sha2(CODEC_RAW, &block), &block, vec![]).unwrap(), vec![]);
    assert_eq!(references(sha2(CODEC_DAG_JSON, b"[1]"), b"[1]", vec![]).unwrap(), vec![]);
}

#[test]
fn unreadable_blocks_have_no_references() {
    let cid = Cid::new_v1(0x99, 0x12, &[]);
    assert!(!is_codec_supported(0x99));
    assert_eq!(references(cid, &[], vec![]), Err(ReferencesError::UnsupportedCodec { cid }));
    for codec in [CODEC_DAG_CBOR, CODEC_DAG_PB, CODEC_DAG_JSON] {
        assert!(is_codec_supported(codec));
        let cid = Cid::new_v1(codec, 0x12, &[]);
        assert_eq!(references(cid, &[0xff], vec![]), Err(ReferencesError::Undecodable { cid }));
    }
    assert!(append_links(&[(2, 0, 0, vec![])], vec![]).is_none());
    let links = append_links(&[(1, CODEC_RAW, 0x12, vec![4])], vec![short(3)]);
    assert_eq!(links, Some(vec![short(3), short(4)]));
}

#[test]
fn walkable_blocks_come_to_an_end() {
    let walkable = |block: &[u8]| read_frame(block).is_some();
    assert!(walkable(&[0x00]));
    assert!(walkable(&[0x82, 0x01, 0x61, b'a']));
    assert!(walkable(&[0x9f, 0x01, 0x02, 0xff]));
    assert!(walkable(&[0xbf, 0x61, b'a', 0x02, 0xff]));
    assert!(walkable(&[0xfb, 0, 0, 0, 0, 0, 0, 0, 0]));
    assert!(!walkable(&[]));
    assert!(!walkable(&[0x82, 0x01]));
    assert!(!walkable(&[0x9f, 0x01]));
    // A map that ends after a key.
    assert!(!walkable(&[0xbf, 0x61, b'a', 0xff]));
    // A text string of 2^32 bytes.
    assert!(!walkable(&[0x7b, 0, 0, 0, 1, 0, 0, 0, 0]));
    // A text string of 2^64 - 9 bytes, after which a walk would start again.
    let loops = [0x9f, 0x7b, 0xff, 0xff, 0xff, 0xff, 0xff, 0xff, 0xff, 0xf7];
    assert!(!walkable(&loops));
    let cid = sha2(CODEC_DAG_CBOR, &loops);
    assert_eq!(references(cid, &loops, vec![]), Err(ReferencesError::Undecodable { cid }));
}

/// A link as a DAG-CBOR item.
fn link_item(cid: Cid) -> Vec<u8> {
    let mut bytes = vec![0xd8, 0x2a, 0x58, cid.to_bytes().len() as u8 + 1, 0];
    bytes.extend(cid.to_bytes());
    bytes
}

#[test]
fn deeply_nested_blocks_are_read() {
    let (a, b) = (sha2(CODEC_RAW, b"a"), sha2(CODEC_DAG_CBOR, b"b"));
    let nested = |depth: usize, inner: &[u8]| {
        let mut block = vec![0x81; depth];
        block.extend_from_slice(inner);
        block
    };
    // [a, 0, b]
    let mut inner = vec![0x83];
    inner.extend(link_item(a));
    inner.push(0x00);
    inner.extend(link_item(b));
    assert!(read_frame(&nested(MAX_NESTING - 1, &[0])).unwrap().is_shallow);
    assert!(!read_frame(&nested(MAX_NESTING, &[0])).unwrap().is_shallow);
    for depth in [1, MAX_NESTING - 2, MAX_NESTING - 1, MAX_NESTING, 1_100, 900_000] {
        let block = nested(depth, &[0]);
        assert_eq!(references(sha2(CODEC_DAG_CBOR, &block), &block, vec![]).unwrap(), vec![]);

        let block = nested(depth, &inner);
        let cid = sha2(CODEC_DAG_CBOR, &block);
        assert_eq!(references(cid, &block, vec![b]).unwrap(), vec![b, a, b]);

        // A link that does not start with a zero.
        let mut bad = link_item(a);
        bad[4] = 1;
        let block = nested(depth, &bad);
        let cid = sha2(CODEC_DAG_CBOR, &block);
        assert_eq!(references(cid, &block, vec![]), Err(ReferencesError::Undecodable { cid }));

        // A block that ends too early.
        let block = nested(depth, &[]);
        let cid = sha2(CODEC_DAG_CBOR, &block);
        assert_eq!(references(cid, &block, vec![]), Err(ReferencesError::Undecodable { cid }));
    }
}

#[test]
fn links_are_located() {
    let a = sha2(CODEC_RAW, b"a");
    // [a, {"x": a}]
    let mut block = vec![0x82];
    block.extend(link_item(a));
    block.extend([0xa1, 0x61, b'x']);
    block.extend(link_item(a));
    let frame = read_frame(&block).unwrap();
    assert!(frame.is_shallow);
    assert_eq!(frame.links, vec![(1, 42), (45, 86)]);
    assert_eq!(block[1..42], link_item(a));
}

#[test]
fn car_headers_are_spelled_out() {
    let header = |cid: Cid| car_header_for(cid).unwrap().to_vec();
    let expected = |cid: Cid, start: &[u8]| {
        let mut map = vec![0xa2, 0x65];
        map.extend(b"roots");
        map.extend([0x81, 0xd8, 0x2a]);
        map.extend(start);
        map.push(0);
        map.extend(cid.to_bytes());
        map.push(0x67);
        map.extend(b"version");
        map.push(1);
        map.insert(0, map.len() as u8);
        map
    };
    let cid = sha2(CODEC_RAW, b"a");
    assert_eq!(header(cid).len(), 59);
    assert_eq!(header(cid), expected(cid, &[0x58, 37]));
    let v0 = Cid::from_parts(0, CODEC_DAG_PB, HASH_SHA2_256, &[9; 32]).unwrap();
    assert_eq!(header(v0), expected(v0, &[0x58, 35]));
    // A byte string of up to 23 bytes has its length in its first byte.
    for n in [0, 18, 19, 64] {
        let cid = Cid::new_v1(CODEC_RAW, HASH_SHA2_256, &vec![7; n]);
        let len = cid.to_bytes().len() as u8 + 1;
        let start = if len < 24 { vec![0x40 + len] } else { vec![0x58, len] };
        assert_eq!(header(cid), expected(cid, &start));
    }
    let longest = Cid::new_v1(u64::MAX, u64::MAX, &[7; 64]);
    assert_eq!(longest.to_bytes().len(), MAX_ENCODING);
    assert_eq!(header(longest), expected(longest, &[0x58, 87]));
    let block = (longest, Bytes::from(vec![0; 5]));
    let car = write_blocks_into_car(Vec::new(), &[block], None).unwrap();
    assert!(car.len() <= 5 + MAX_FRAMING);
}

#[test]
fn digests_are_compared() {
    let (cid, block) = raw(b"data");
    assert!(verify_digest(cid, Some(cid.digest())).is_ok());
    match verify_digest(cid, None) {
        Err(Error::UnsupportedHashCode { cid: c }) => assert_eq!(c, cid),
        _ => panic!("no digest was accepted"),
    }
    match verify_digest(cid, Some(vec![1, 2])) {
        Err(Error::IncrementalVerificationError(
            IncrementalVerificationError::DigestMismatch { cid: c, actual_cid },
        )) => {
            assert_eq!(c, cid);
            assert_eq!(actual_cid, Cid::new_v1(CODEC_RAW, HASH_SHA2_256, &[1, 2]));
        }
        _ => panic!("a wrong digest was accepted"),
    }

    let (verification, _) = IncrementalDagVerification::new(&[]);
    match verification.verify_and_store_block(cid, &block) {
        Err(Error::IncrementalVerificationError(
            IncrementalVerificationError::ExpectedWantedBlock { cid: c, block_state },
        )) => {
            assert_eq!(c, cid);
            assert_eq!(block_state, BlockState::Unexpected);
        }
        _ => panic!("an unexpected block was accepted"),
    }
}

#[test]
fn verification_classifies_what_it_comes_across() {
    let boundary = CidSet::from_slice(&[short(8), short(9)]);
    let (mut verification, mut discovery) =
        IncrementalDagVerification::new_with_boundary(&[short(1), short(9), short(2)], boundary);
    assert_eq!(verification.boundary_hits.to_vec(), vec![short(9)]);

    assert_eq!(verification.discover(&mut discovery), Some(short(1)));
    verification.found(short(1), true);
    discovery.extend(vec![short(8), short(3), short(1), short(2)]);
    assert_eq!(verification.discover(&mut discovery), Some(short(2)));
    verification.found(short(2), false);
    assert_eq!(verification.discover(&mut discovery), Some(short(3)));
    verification.found(short(3), true);
    assert_eq!(verification.discover(&mut discovery), None);

    assert_eq!(verification.have_cids.to_vec(), vec![short(1), short(3)]);
    assert_eq!(verification.want_cids.to_vec(), vec![short(2)]);
    assert_eq!(verification.boundary_hits.to_vec(), vec![short(8), short(9)]);
    assert_eq!(verification.block_state(short(1)), BlockState::Have);
    assert_eq!(verification.block_state(short(8)), BlockState::Have);
    assert_eq!(verification.block_state(short(2)), BlockState::Want);
    assert_eq!(verification.block_state(short(4)), BlockState::Unexpected);
    assert_eq!(verification.bloom_capacity(), Some(2));

    // What is wanted may have appeared in the store.
    let mut discovery = verification.update_have_cids();
    assert_eq!(verification.discover(&mut discovery), Some(short(2)));
    verification.found(short(2), true);
    assert_eq!(verification.discover(&mut discovery), None);
    assert_eq!(verification.bloom_capacity(), None);

    let state = verification.into_receiver_state(None);
    assert!(state.missing_subgraph_roots.is_empty());
    assert!(state.have_cids_bloom.is_none());
    assert_eq!(state.skip_subgraph_roots, vec![short(8), short(9)]);
}

#[test]
fn wanted_blocks_are_verified_and_followed() {
    let (leaf, leaf_block) = raw(b"leaf");
    let mut list = vec![0x81, 0xd8, 0x2a, 0x58, 37, 0];
    list.extend(leaf.to_bytes());
    let root = sha2(CODEC_DAG_CBOR, &list);
    let list = Bytes::from(list);

    let (mut verification, mut discovery) = IncrementalDagVerification::new(&[root]);
    assert_eq!(verification.discover(&mut discovery), Some(root));
    verification.found(root, false);
    assert_eq!(verification.discover(&mut discovery), None);

    assert_eq!(
        read_and_verify_block(&verification, leaf, &leaf_block).unwrap(),
        BlockState::Unexpected
    );
    assert_eq!(read_and_verify_block(&verification, root, &list).unwrap(), BlockState::Want);
    assert!(read_and_verify_block(&verification, root, &leaf_block).is_err());
    let mut discovery = verification.block_stored(root, &list).unwrap();
    assert_eq!(verification.discover(&mut discovery), Some(leaf));
    verification.found(leaf, false);
    assert_eq!(read_and_verify_block(&verification, root, &list).unwrap(), BlockState::Have);
    assert_eq!(verification.block_state(leaf), BlockState::Want);

    let mut discovery = Discovery::new(vec![leaf]);
    assert_eq!(verification.discover(&mut discovery), None);
}

#[test]
fn searches_find_requested_roots_in_order() {
    let mut search = verify_missing_subgraph_roots(short(1), &[short(3), short(2), short(7)]);
    assert_eq!(search.next_cid(), Some(short(1)));
    assert!(!search.look_at(short(1), vec![short(2), short(3), short(2)]));
    assert_eq!(search.next_cid(), Some(short(2)));
    assert!(!search.look_at(short(2), vec![short(1), short(3), short(4)]));
    assert_eq!(search.next_cid(), Some(short(3)));
    assert!(!search.look_at(short(3), vec![]));
    assert_eq!(search.next_cid(), Some(short(4)));
    assert!(!search.look_at(short(4), vec![]));
    assert_eq!(search.next_cid(), None);
    assert_eq!(search.into_roots(), vec![short(2), short(3)]);

    // It is over once all are found.
    let mut search = verify_missing_subgraph_roots(short(1), &[short(1), short(1)]);
    assert_eq!(search.next_cid(), Some(short(1)));
    assert!(search.look_at(short(1), vec![short(2)]));
    assert_eq!(search.into_roots(), vec![short(1)]);
}

#[test]
fn hash_functions_are_those_that_can_be_computed() {
    let data = Bytes::from_static(b"data");
    let mut supported = 0;
    for code in 0..0xc000u64 {
        let known = Code::try_from(code);
        let digest = match &known {
            Ok(known) => known.digest(&data).digest().to_vec(),
            Err(_) => vec![],
        };
        let cid = Cid::new_v1(CODEC_RAW, code, &digest);
        let (mut verification, mut discovery) = IncrementalDagVerification::new(&[cid]);
        assert_eq!(verification.discover(&mut discovery), Some(cid));
        verification.found(cid, false);
        match read_and_verify_block(&verification, cid, &data) {
            Ok(state) => {
                assert!(known.is_ok());
                assert_eq!(state, BlockState::Want);
                supported += 1;
            }
            Err(Error::UnsupportedHashCode { cid: c }) => {
                assert!(known.is_err());
                assert_eq!(c, cid);
            }
            Err(_) => panic!("a block was refused for another reason"),
        }
    }
    assert_eq!(supported, 15);
}

#[test]
fn truncated_digests_do_not_match() {
    let digest = Code::Sha2_256.digest(b"data");
    let cid = Cid::new_v1(CODEC_RAW, HASH_SHA2_256, &digest.digest()[..20]);
    let (mut verification, mut discovery) = IncrementalDagVerification::new(&[cid]);
    assert_eq!(verification.discover(&mut discovery), Some(cid));
    verification.found(cid, false);
    match verification.verify_and_store_block(cid, b"data") {
        Err(Error::IncrementalVerificationError(
            IncrementalVerificationError::DigestMismatch { actual_cid, .. },
        )) => assert_eq!(actual_cid, sha2(CODEC_RAW, b"data")),
        _ => panic!("a truncated digest was accepted"),
    }
}
