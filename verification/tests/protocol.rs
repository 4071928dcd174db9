use bytes::Bytes;
use car_mirror::buffered::{BufferedBlocks, BufferedReceiving};
use car_mirror::car::{read_car_blocks, CarBlocks};
use car_mirror::cid::{Cid, CODEC_DAG_CBOR, CODEC_DAG_PB, CODEC_RAW, HASH_SHA2_256};
use car_mirror::cid_set::CidSet;
use car_mirror::common::{CarFile, Config};
use car_mirror::error::{Error, IncrementalVerificationError};
use car_mirror::ipld::{references, ReferencesError};
use car_mirror::messages::{PullRequest, PushResponse};
use car_mirror::pull;
use car_mirror::receive::{block_receive, block_receive_block_stream, Receiving};
use car_mirror::receiver_state::ReceiverState;
use car_mirror::send::{block_send, CarSink, Sending};
use deterministic_bloom::runtime_size::BloomFilter;
use libipld::cbor::DagCborCodec;
use libipld::codec::Codec;
use libipld::Ipld;
use libipld_core::multihash::{Code, MultihashDigest};
use std::collections::{BTreeMap, HashMap, HashSet};

type Store = HashMap<Cid, Bytes>;

type Cache = HashMap<Cid, Vec<Cid>>;

fn cid_of(codec: u64, bytes: &[u8]) -> Cid {
    Cid::new_v1(codec, HASH_SHA2_256, Code::Sha2_256.digest(bytes).digest())
}

fn link(cid: Cid) -> Ipld {
    Ipld::Link(libipld::Cid::try_from(cid.to_bytes().as_slice()).unwrap())
}

fn put(store: &mut Store, codec: u64, bytes: Vec<u8>) -> Cid {
    let cid = cid_of(codec, &bytes);
    store.insert(cid, bytes.into());
    cid
}

fn put_ipld(store: &mut Store, ipld: &Ipld) -> Cid {
    let bytes = DagCborCodec.encode(ipld).unwrap();
    put(store, CODEC_DAG_CBOR, bytes)
}

fn links_in(store: &Store, cid: Cid) -> Vec<Cid> {
    references(cid, &store[&cid], Vec::new()).unwrap()
}

/// Store one snapshot: root → chunk → `leaf_count` leaves, plus `prev` link on the root if given.
/// Returns (root, number of blocks in this snapshot).
fn put_snapshot(store: &mut Store, prev: Option<Cid>, leaf_count: usize, tag: &str) -> (Cid, usize) {
    let mut leaves = Vec::new();
    for i in 0..leaf_count {
        let leaf = put_ipld(store, &Ipld::String(format!("leaf-{tag}-{i}")));
        leaves.push(link(leaf));
    }
    let chunk = put_ipld(store, &Ipld::List(leaves));
    let mut map = BTreeMap::new();
    map.insert("applogs".to_string(), link(chunk));
    if let Some(prev) = prev {
        map.insert("prev".to_string(), link(prev));
    }
    let root = put_ipld(store, &Ipld::StringMap(map));
    (root, leaf_count + 2)
}

/// A graph of `count` blocks of a bit more than `padding` bytes, all of them below the last one.
fn setup_dag(count: usize, padding: usize) -> (Cid, Store) {
    let mut store = Store::new();
    let mut cids: Vec<Cid> = Vec::new();
    let mut unlinked: Vec<Cid> = Vec::new();
    let mut seed: u64 = 42;
    for i in 0..count {
        let mut links = Vec::new();
        let last = i + 1 == count;
        for _ in 0..3 {
            seed = seed.wrapping_mul(6364136223846793005).wrapping_add(1442695040888963407);
            if !cids.is_empty() {
                links.push(cids[(seed >> 33) as usize % cids.len()]);
            }
        }
        while unlinked.len() > 5 || (last && !unlinked.is_empty()) {
            links.push(unlinked.remove(0));
        }
        let mut map = BTreeMap::new();
        map.insert("index".to_string(), Ipld::Integer(i as i128));
        map.insert("padding".to_string(), Ipld::Bytes(vec![(seed >> 40) as u8; padding]));
        map.insert("links".to_string(), Ipld::List(links.iter().map(|c| link(*c)).collect()));
        let cid = put_ipld(&mut store, &Ipld::StringMap(map));
        cids.push(cid);
        unlinked.push(cid);
    }
    (cids[count - 1], store)
}

/// Bytes of a file, without much repetition.
fn file_bytes(len: usize) -> Vec<u8> {
    let mut seed: u64 = 7;
    let mut bytes = Vec::new();
    while bytes.len() < len {
        seed = seed.wrapping_mul(6364136223846793005).wrapping_add(1442695040888963407);
        bytes.push((seed >> 56) as u8);
    }
    bytes
}

/// Store a file as a DAG-PB node above raw chunks of up to 1024 bytes.
fn put_file(store: &mut Store, bytes: &[u8]) -> Cid {
    let mut node = Vec::new();
    for chunk in bytes.chunks(1024) {
        let cid = put(store, CODEC_RAW, chunk.to_vec()).to_bytes();
        // A link: its hash, an empty name, and no size.
        node.extend([0x12, cid.len() as u8 + 4, 0x0a, cid.len() as u8]);
        node.extend(cid);
        node.extend([0x12, 0x00]);
    }
    // The type of the node: a file.
    node.extend([0x0a, 0x02, 0x08, 0x02]);
    put(store, CODEC_DAG_PB, node)
}

/// Streams responses until the transfer is over.
fn simulate_streaming(root: Cid, config: &Config, client_store: &mut Store, server_store: &Store) {
    let cache = &mut Cache::new();
    let mut request = pull_request(root, None, config, client_store).unwrap();
    while !request.indicates_finished() {
        let (mut sending, mut frames) = pull::response_streaming(root, request);
        let mut car = Vec::new();
        loop {
            match drive_send(sending, server_store, cache).unwrap() {
                (Some(sent), _) => {
                    let (sections, next) = frames.accept(sent).unwrap();
                    sections.iter().for_each(|section| car.extend_from_slice(section));
                    sending = next;
                }
                (None, Some(next)) => sending = next,
                (None, None) => break,
            }
        }
        let mut blocks = CarBlocks::new(CarFile { bytes: car.into() }).unwrap();
        let receiving = pull::handle_response_streaming(root, config);
        request = drive_receive(receiving, &mut || blocks.next_block(), client_store)
            .unwrap()
            .into();
    }
}

/// The bytes of a response that is streamed within the limit.
fn streamed_response(
    root: Cid,
    request: PullRequest,
    config: &Config,
    store: &Store,
    cache: &mut Cache,
) -> Vec<u8> {
    let (mut sending, mut frames) = pull::response_streaming_with_config(root, request, config);
    let mut car = Vec::new();
    loop {
        match drive_send(sending, store, cache).unwrap() {
            (Some(sent), _) => {
                let (chunk, next) = frames.accept(sent).unwrap();
                if let Some(chunk) = chunk {
                    car.extend_from_slice(&chunk);
                }
                sending = next;
            }
            (None, Some(next)) => sending = next,
            (None, None) => break,
        }
    }
    if let Some(chunk) = frames.finish() {
        car.extend_from_slice(&chunk);
    }
    car
}

fn reachable(root: Cid, store: &Store) -> HashSet<Cid> {
    let mut seen = HashSet::new();
    let mut queue = vec![root];
    while let Some(cid) = queue.pop() {
        if seen.insert(cid) {
            assert!(store.contains_key(&cid), "a block is missing");
            queue.extend(links_in(store, cid));
        }
    }
    seen
}

fn empty_bloom(capacity: u64) -> BloomFilter {
    BloomFilter::new_from_fpr_po2(capacity, f64::min(0.001, 0.1 / capacity as f64))
}

fn drive_receive(
    mut receiving: Receiving,
    next: &mut dyn FnMut() -> Result<Option<(Cid, Bytes)>, Error>,
    store: &mut Store,
) -> Result<ReceiverState, Error> {
    loop {
        receiving = match receiving {
            Receiving::IsPresent(q) => {
                let present = store.contains_key(&q.cid());
                q.answer(present)
            }
            Receiving::LinksOf(q) => {
                let links = links_in(store, q.cid());
                q.answer(links)
            }
            Receiving::NextBlock(q) => match next()? {
                Some((cid, block)) => q.block(cid, block)?,
                None => q.end(),
            },
            Receiving::Store(s) => {
                store.insert(s.cid(), s.block().clone());
                s.stored()?
            }
            Receiving::Bloom(q) => {
                let bloom = empty_bloom(q.capacity());
                return Ok(q.answer(bloom));
            }
            Receiving::Done(state) => return Ok(state),
        };
    }
}

fn receive(
    root: Cid,
    last_car: Option<CarFile>,
    config: &Config,
    store: &mut Store,
) -> Result<ReceiverState, Error> {
    let (receiving, mut source) = block_receive(root, last_car, config)?;
    drive_receive(receiving, &mut || source.next_block(), store)
}

fn pull_request(
    root: Cid,
    last_response: Option<CarFile>,
    config: &Config,
    store: &mut Store,
) -> Result<PullRequest, Error> {
    let (receiving, mut source) = pull::request(root, last_response, config)?;
    Ok(drive_receive(receiving, &mut || source.next_block(), store)?.into())
}

/// Receives blocks that come one by one, without storing them.
fn drive_buffered(
    mut receiving: BufferedReceiving,
    next: &mut dyn FnMut() -> Result<Option<(Cid, Bytes)>, Error>,
    store: &Store,
) -> Result<(ReceiverState, Vec<(Cid, Bytes)>), Error> {
    loop {
        receiving = match receiving {
            BufferedReceiving::IsPresent(q) => {
                let present = store.contains_key(&q.cid());
                q.answer(present)
            }
            BufferedReceiving::LinksOf(q) => {
                let links = links_in(store, q.cid());
                q.answer(links)
            }
            BufferedReceiving::NextBlock(q) => match next()? {
                Some((cid, block)) => q.block(cid, block)?,
                None => q.end(),
            },
            BufferedReceiving::Bloom(q) => {
                let bloom = empty_bloom(q.capacity());
                return Ok(q.answer(bloom));
            }
            BufferedReceiving::Done(state, blocks) => return Ok((state, blocks)),
        };
    }
}

/// Answers one question of the sending side; hands out what comes of a block.
fn drive_send(
    sending: Sending,
    store: &Store,
    cache: &mut Cache,
) -> Result<(Option<car_mirror::send::Sent>, Option<Sending>), Error> {
    match sending {
        Sending::IsPresent(q) => {
            let present = store.contains_key(&q.cid());
            Ok((None, Some(q.answer(present)?)))
        }
        Sending::LinksOf(q) => {
            let links = links_in(store, q.cid());
            Ok((None, Some(q.answer(links))))
        }
        Sending::CachedLinksOf(q) => {
            let cached = cache.get(&q.cid()).cloned();
            Ok((None, Some(q.answer(cached))))
        }
        Sending::BytesOf(q) => {
            let cid = q.cid();
            let bytes = match store.get(&cid) {
                Some(bytes) => bytes.clone(),
                None => return Ok((None, Some(q.absent()?))),
            };
            let cached = if q.needs_links() { cache.get(&cid).cloned() } else { None };
            let sent = q.answer(bytes, cached)?;
            if let Some(links) = &sent.to_cache {
                cache.insert(cid, links.clone());
            }
            Ok((Some(sent), None))
        }
        Sending::Done => Ok((None, None)),
    }
}

fn drive_car(mut sending: Sending, mut sink: CarSink, store: &Store) -> Result<CarFile, Error> {
    let cache = &mut Cache::new();
    loop {
        match drive_send(sending, store, cache)? {
            (Some(sent), _) => sending = sink.accept(sent)?,
            (None, Some(next)) => sending = next,
            (None, None) => return Ok(sink.finish()),
        }
    }
}

/// Responds without using a cache.
fn pull_response(
    root: Cid,
    request: PullRequest,
    config: &Config,
    store: &Store,
) -> Result<CarFile, Error> {
    let (sending, sink) = pull::response(root, request, config);
    drive_car(sending, sink, store)
}

fn car_blocks(car: &CarFile) -> Vec<(Cid, Bytes)> {
    read_car_blocks(car.clone()).unwrap()
}

fn simulate_protocol(
    root: Cid,
    client_config: &Config,
    server_config: &Config,
    client_store: &mut Store,
    server_store: &Store,
) -> (usize, usize) {
    let mut rounds = 0;
    let mut blocks_transferred = 0;
    let mut request = pull_request(root, None, client_config, client_store).unwrap();
    while !request.indicates_finished() {
        rounds += 1;
        assert!(rounds < 1000, "transfer failed to converge");
        let response = pull_response(root, request, server_config, server_store).unwrap();
        blocks_transferred += car_blocks(&response).len();
        request = pull_request(root, Some(response), client_config, client_store).unwrap();
    }
    (rounds, blocks_transferred)
}

fn with_skip_roots(roots: &[Cid]) -> Config {
    Config { skip_subgraph_roots: CidSet::from_slice(roots), ..Config::default() }
}

#[test]
fn test_transfer() {
    let client_store = &mut Store::new();
    let (root, server_store) = &setup_dag(256, 10 * 1024);
    let config = &Config::default();

    simulate_protocol(*root, config, config, client_store, server_store);

    // client should have all data
    assert_eq!(reachable(*root, client_store), reachable(*root, server_store));
}

#[test]
fn test_streaming_transfer() {
    let mut client_store = Store::new();
    let mut server_store = Store::new();

    let file_bytes = file_bytes(45_000);
    let root = put_file(&mut client_store, &file_bytes);
    put_file(&mut server_store, &file_bytes[0..10_000]);

    simulate_streaming(root, &Config::default(), &mut client_store, &server_store);
}

#[test]
fn streaming_transfer_completes() {
    let (root, server_store) = setup_dag(64, 2 * 1024);
    let mut client_store = Store::new();
    // The client has some of the blocks.
    for cid in links_in(&server_store, root) {
        client_store.insert(cid, server_store[&cid].clone());
    }

    simulate_streaming(root, &Config::default(), &mut client_store, &server_store);

    assert_eq!(reachable(root, &client_store), reachable(root, &server_store));
}

#[test]
fn rest_of_a_file_is_streamed() {
    let mut client_store = Store::new();
    let mut server_store = Store::new();
    let file_bytes = file_bytes(45_000);
    put_file(&mut client_store, &file_bytes[0..10_000]);
    let root = put_file(&mut server_store, &file_bytes);

    simulate_streaming(root, &Config::default(), &mut client_store, &server_store);

    assert_eq!(reachable(root, &client_store), reachable(root, &server_store));
    assert_eq!(reachable(root, &client_store).len(), 45);
}

#[test]
fn test_streaming_transfer_with_config() {
    let mut client_store = Store::new();
    let (root, server_store) = setup_dag(256, 10 * 1024);
    let cache = &mut Cache::new();

    // Small receive_maximum forces several streamed rounds.
    let config = Config { receive_maximum: 30 * 1024, ..Config::default() };

    let mut request = pull_request(root, None, &config, &mut client_store).unwrap();
    let mut rounds = 0;
    while !request.indicates_finished() {
        rounds += 1;
        assert!(rounds < 1000, "transfer failed to converge");
        let car = streamed_response(root, request, &config, &server_store, cache);
        assert!(car.len() <= 30 * 1024);
        let mut blocks = CarBlocks::new(CarFile { bytes: car.into() }).unwrap();
        let receiving = pull::handle_response_streaming(root, &config);
        request = drive_receive(receiving, &mut || blocks.next_block(), &mut client_store)
            .unwrap()
            .into();
    }

    assert!(rounds > 1);
    assert_eq!(reachable(root, &client_store), reachable(root, &server_store));
}

#[test]
fn test_transfer_with_blocks() {
    let client_store = &mut Store::new();
    let (root, server_store) = &setup_dag(256, 10 * 1024);
    let config = &Config::default();

    let mut last_car = None;
    loop {
        let (receiving, mut source) = pull::request_with_blocks(*root, last_car, config).unwrap();
        let (state, blocks) =
            drive_buffered(receiving, &mut || source.next_block(), client_store).unwrap();
        let request = PullRequest::from(state);

        // Batch-store all received blocks at once
        for (cid, bytes) in blocks {
            client_store.insert(cid, bytes);
        }

        if request.indicates_finished() {
            break;
        }

        last_car = Some(pull_response(*root, request, config, server_store).unwrap());
    }

    // Verify complete transfer
    assert_eq!(reachable(*root, client_store), reachable(*root, server_store));
}

#[test]
fn test_block_receive_block_stream_block_size_exceeded() {
    let block_small: Bytes = b"This one is small".to_vec().into();
    let block_big: Bytes = b"This one is very very very big".to_vec().into();
    let root_small = cid_of(CODEC_RAW, &block_small);
    let root_big = cid_of(CODEC_RAW, &block_big);

    let config = &Config { max_block_size: 20, ..Config::default() };

    let mut blocks = vec![(root_small, block_small)];
    let receiving = block_receive_block_stream(root_small, config);
    drive_receive(receiving, &mut || Ok(blocks.pop()), &mut Store::new()).unwrap();

    let mut blocks = vec![(root_big, block_big)];
    let receiving = block_receive_block_stream(root_small, config);
    let result = drive_receive(receiving, &mut || Ok(blocks.pop()), &mut Store::new());

    match result {
        Err(Error::BlockSizeExceeded { cid, block_bytes, max_block_size }) => {
            assert_eq!(cid, root_big);
            assert_eq!(block_bytes, 30);
            assert_eq!(max_block_size, 20);
        }
        _ => panic!("a big block was accepted"),
    }
}

#[test]
fn test_pull_skip_roots_transfers_only_delta() {
    let server_store = &mut Store::new();
    let client_store = &mut Store::new();

    // Shared history: two snapshots, fully present on both sides
    let (snap1, _) = put_snapshot(server_store, None, 100, "s1");
    let (snap1_client, _) = put_snapshot(client_store, None, 100, "s1");
    let (snap2, _) = put_snapshot(server_store, Some(snap1), 100, "s2");
    let (snap2_client, _) = put_snapshot(client_store, Some(snap1_client), 100, "s2");
    assert_eq!(snap2, snap2_client);

    // New snapshot only on the server
    let (snap3, snap3_blocks) = put_snapshot(server_store, Some(snap2), 10, "s3");

    let client_config = &with_skip_roots(&[snap2]);
    let server_config = &Config::default();

    let mut rounds = 0;
    let mut blocks_transferred = 0;
    let mut request = pull_request(snap3, None, client_config, client_store).unwrap();
    assert_eq!(
        request.skip_subgraph_roots,
        vec![snap2],
        "round-1 request should carry the skip root on the wire"
    );
    while !request.indicates_finished() {
        rounds += 1;
        let response = pull_response(snap3, request, server_config, server_store).unwrap();
        blocks_transferred += car_blocks(&response).len();
        request = pull_request(snap3, Some(response), client_config, client_store).unwrap();
    }

    assert_eq!(rounds, 1, "delta pull should complete in a single round");
    assert_eq!(
        blocks_transferred, snap3_blocks,
        "only the new snapshot's blocks should be transferred"
    );
    reachable(snap3, client_store);
}

#[test]
fn test_pull_skip_roots_multiround_converges_without_stall() {
    let server_store = &mut Store::new();
    let client_store = &mut Store::new();

    let (snap1, _) = put_snapshot(server_store, None, 200, "s1");
    let (snap1_client, _) = put_snapshot(client_store, None, 200, "s1");
    assert_eq!(snap1, snap1_client);

    // Large delta → several rounds at a small receive_maximum
    let (snap2, snap2_blocks) = put_snapshot(server_store, Some(snap1), 300, "s2");

    let client_config = &Config { receive_maximum: 16 * 1024, ..with_skip_roots(&[snap1]) };
    let server_config = &Config { receive_maximum: 16 * 1024, ..Config::default() };

    let mut rounds = 0;
    let mut blocks_transferred = 0;
    let mut request = pull_request(snap2, None, client_config, client_store).unwrap();
    while !request.indicates_finished() {
        rounds += 1;
        assert!(rounds < 200, "transfer failed to converge (stall)");
        let response = pull_response(snap2, request, server_config, server_store).unwrap();
        request =
            pull_request(snap2, Some(response.clone()), client_config, client_store).unwrap();
        blocks_transferred += car_blocks(&response).len();
    }

    assert!(rounds > 1, "test should exercise the multi-round path");
    assert_eq!(
        blocks_transferred, snap2_blocks,
        "history below the skip root must never be transferred"
    );
    reachable(snap2, client_store);
}

#[test]
fn test_pull_explicit_request_bypasses_skip_roots() {
    let server_store = &mut Store::new();

    let (snap1, _) = put_snapshot(server_store, None, 5, "s1");
    let (snap2, _) = put_snapshot(server_store, Some(snap1), 5, "s2");

    // A block deep below snap1 (which the request also declares skipped)
    let deep_cid = links_in(server_store, snap1)[0]; // the applogs chunk under snap1

    let request = PullRequest {
        resources: vec![deep_cid],
        bloom_hash_count: 3,
        bloom_bytes: vec![],
        skip_subgraph_roots: vec![snap1],
    };

    let response = pull_response(snap2, request, &Config::default(), server_store).unwrap();
    let got: HashSet<Cid> = car_blocks(&response).iter().map(|(cid, _)| *cid).collect();

    assert!(
        got.contains(&deep_cid),
        "explicitly requested root below a skip root must still be served"
    );
}

#[test]
fn test_pull_shallow_skips_unwanted_history() {
    let server_store = &mut Store::new();
    let client_store = &mut Store::new();

    let (snap1, _) = put_snapshot(server_store, None, 100, "s1");
    let (snap2, snap2_blocks) = put_snapshot(server_store, Some(snap1), 10, "s2");

    let client_config = &with_skip_roots(&[snap1]);
    let server_config = &Config::default();

    let mut rounds = 0;
    let mut blocks_transferred = 0;
    let mut request = pull_request(snap2, None, client_config, client_store).unwrap();
    while !request.indicates_finished() {
        rounds += 1;
        assert!(rounds < 10, "shallow pull failed to converge");
        let response = pull_response(snap2, request, server_config, server_store).unwrap();
        blocks_transferred += car_blocks(&response).len();
        request = pull_request(snap2, Some(response), client_config, client_store).unwrap();
    }

    assert_eq!(
        blocks_transferred, snap2_blocks,
        "only the new snapshot's own blocks should be transferred"
    );
    // The new snapshot's own blocks are present…
    assert!(client_store.contains_key(&snap2));
    // …but the skipped history is genuinely absent (shallow by intent).
    assert!(!client_store.contains_key(&snap1));
}

#[test]
fn test_push_boundary_never_requests_history() {
    let server_store = &mut Store::new();
    let client_store = &mut Store::new();

    // Shared history
    let (snap1, _) = put_snapshot(server_store, None, 100, "s1");
    let (snap1_client, _) = put_snapshot(client_store, None, 100, "s1");
    assert_eq!(snap1, snap1_client);

    // History-only CIDs (for asserting the server never requests them)
    let history_cids = reachable(snap1, server_store);

    // New snapshot only on the client
    let (snap2, _) = put_snapshot(client_store, Some(snap1_client), 10, "s2");

    // Server treats its pinned root as complete boundary
    let server_config = &with_skip_roots(&[snap1]);
    let client_config = &Config::default();

    let mut last_response: Option<PushResponse> = None;
    loop {
        let (sending, sink) =
            block_send(snap2, last_response.map(ReceiverState::from), client_config);
        let car = drive_car(sending, sink, client_store).unwrap();
        let response: PushResponse =
            receive(snap2, Some(car), server_config, server_store).unwrap().into();

        for requested in &response.subgraph_roots {
            assert!(
                !history_cids.contains(requested),
                "server requested history block {requested:?} despite boundary"
            );
        }

        if response.indicates_finished() {
            break;
        }
        last_response = Some(response);
    }

    reachable(snap2, server_store);
}

#[test]
fn test_pull_cold_transfer_with_pruning_enabled() {
    let server_store = &mut Store::new();
    let client_store = &mut Store::new();

    let (snap1, _) = put_snapshot(server_store, None, 50, "s1");
    let (snap2, _) = put_snapshot(server_store, Some(snap1), 50, "s2");

    let server_config =
        &Config { bloom_implies_complete_subgraphs: true, ..Config::default() };
    let client_config = &Config::default();

    simulate_protocol(snap2, client_config, server_config, client_store, server_store);

    reachable(snap2, client_store);
}

#[test]
fn warm_transfer_sends_only_what_is_missing() {
    let (root, server_store) = setup_dag(40, 100);
    let mut client_store = server_store.clone();
    let missing = links_in(&server_store, root)[0];
    client_store.remove(&missing);
    let config = &Config::default();

    let (rounds, blocks) =
        simulate_protocol(root, config, config, &mut client_store, &server_store);

    assert_eq!((rounds, blocks), (1, 1));
    assert_eq!(client_store[&missing], server_store[&missing]);
}

#[test]
fn small_round_limit_still_completes() {
    let mut server_store = Store::new();
    let (root, total) = put_snapshot(&mut server_store, None, 20, "s");
    let mut client_store = Store::new();
    let client_config = &Config { max_roots_per_round: 1, ..Config::default() };
    let server_config = &Config { receive_maximum: 0, ..Config::default() };

    // With no room for more, every round transfers exactly one block.
    let (rounds, blocks) = simulate_protocol(
        root,
        client_config,
        server_config,
        &mut client_store,
        &server_store,
    );

    assert_eq!((rounds, blocks), (total, total));
}

#[test]
fn requests_are_limited() {
    let mut store = Store::new();
    let (root, _) = put_snapshot(&mut store, None, 20, "s");
    let chunk = links_in(&store, root)[0];
    let leaves = links_in(&store, chunk);
    for leaf in &leaves {
        store.remove(leaf);
    }
    let config = &Config { max_roots_per_round: 7, ..Config::default() };

    let state = receive(root, None, config, &mut store).unwrap();
    assert_eq!(state.missing_subgraph_roots.len(), 7);
    assert!(state.missing_subgraph_roots.iter().all(|c| leaves.contains(c)));
    let bloom = state.have_cids_bloom.unwrap();
    assert!(bloom.contains(&root.to_bytes()));
    assert!(bloom.contains(&chunk.to_bytes()));

    // That goes for streams, too.
    let receiving = block_receive_block_stream(root, config);
    let streamed = drive_receive(receiving, &mut || Ok(None), &mut store).unwrap();
    assert_eq!(streamed.missing_subgraph_roots, state.missing_subgraph_roots);
}

#[test]
fn root_that_is_skipped_is_not_requested() {
    let root = cid_of(CODEC_RAW, b"root");
    let state = receive(root, None, &with_skip_roots(&[root]), &mut Store::new()).unwrap();
    assert!(state.missing_subgraph_roots.is_empty());
    assert_eq!(state.skip_subgraph_roots, vec![root]);
    assert!(PullRequest::from(state).indicates_finished());
}

#[test]
fn nothing_present_needs_no_bloom() {
    let root = cid_of(CODEC_RAW, b"root");
    let state = receive(root, None, &Config::default(), &mut Store::new()).unwrap();
    assert_eq!(state.missing_subgraph_roots, vec![root]);
    assert!(state.have_cids_bloom.is_none());
    let request = PullRequest::from(state);
    assert_eq!(request.bloom_hash_count, 3);
    assert!(request.bloom_bytes.is_empty());
}

#[test]
fn present_blocks_are_skipped_and_the_rest_is_taken() {
    let mut server_store = Store::new();
    let (root, _) = put_snapshot(&mut server_store, None, 2, "s");
    let chunk = links_in(&server_store, root)[0];
    let leaves = links_in(&server_store, chunk);
    let mut client_store = Store::new();
    client_store.insert(root, server_store[&root].clone());
    let order = [root, chunk, root, leaves[0], leaves[0], leaves[1]];
    let mut blocks = order.iter().map(|c| (*c, server_store[c].clone()));

    let receiving = block_receive_block_stream(root, &Config::default());
    let state = drive_receive(receiving, &mut || Ok(blocks.next()), &mut client_store).unwrap();

    assert!(state.missing_subgraph_roots.is_empty());
    assert_eq!(client_store, server_store);
}

#[test]
fn unexpected_block_stops_the_transfer() {
    let mut server_store = Store::new();
    let (root, _) = put_snapshot(&mut server_store, None, 2, "s");
    let chunk = links_in(&server_store, root)[0];
    let leaves = links_in(&server_store, chunk);
    let mut client_store = Store::new();
    let order = [root, leaves[0], chunk];
    let mut blocks = order.iter().map(|c| (*c, server_store[c].clone()));

    let receiving = block_receive_block_stream(root, &Config::default());
    let state = drive_receive(receiving, &mut || Ok(blocks.next()), &mut client_store).unwrap();

    // The chunk was not taken in any more.
    assert_eq!(state.missing_subgraph_roots, vec![chunk]);
    assert_eq!(client_store.len(), 1);
    assert_eq!(blocks.next().unwrap().0, chunk);
}

#[test]
fn forged_block_is_refused() {
    let root = cid_of(CODEC_RAW, b"true");
    let mut blocks = vec![(root, Bytes::from_static(b"false"))];
    let mut store = Store::new();
    let receiving = block_receive_block_stream(root, &Config::default());
    match drive_receive(receiving, &mut || Ok(blocks.pop()), &mut store) {
        Err(Error::IncrementalVerificationError(
            IncrementalVerificationError::DigestMismatch { cid, actual_cid },
        )) => {
            assert_eq!(cid, root);
            assert_eq!(actual_cid, cid_of(CODEC_RAW, b"false"));
        }
        _ => panic!("a forged block was accepted"),
    }
    assert!(store.is_empty());
}

#[test]
fn unsupported_hash_function_is_refused() {
    let root = Cid::new_v1(CODEC_RAW, 0xd5, &[1, 2, 3]);
    let mut blocks = vec![(root, Bytes::from_static(b"data"))];
    let receiving = block_receive_block_stream(root, &Config::default());
    match drive_receive(receiving, &mut || Ok(blocks.pop()), &mut Store::new()) {
        Err(Error::UnsupportedHashCode { cid }) => assert_eq!(cid, root),
        _ => panic!("an unsupported hash function was accepted"),
    }
}

#[test]
fn unreadable_block_is_an_error_once_stored() {
    let root = cid_of(CODEC_DAG_CBOR, &[0xff]);
    let mut blocks = vec![(root, Bytes::from_static(&[0xff]))];
    let mut store = Store::new();
    let receiving = block_receive_block_stream(root, &Config::default());
    match drive_receive(receiving, &mut || Ok(blocks.pop()), &mut store) {
        Err(Error::ParsingError(ReferencesError::Undecodable { cid })) => assert_eq!(cid, root),
        _ => panic!("an unreadable block was accepted"),
    }
    assert!(store.contains_key(&root));
}

#[test]
fn large_car_file_is_refused() {
    let config = &Config { receive_maximum: 3, ..Config::default() };
    let car = CarFile { bytes: Bytes::from_static(&[1, 2, 3, 4]) };
    match block_receive(Cid::default(), Some(car), config) {
        Err(Error::TooManyBytes { receive_maximum, bytes_read }) => {
            assert_eq!((receive_maximum, bytes_read), (3, 4));
        }
        _ => panic!("a large CAR file was accepted"),
    }
}

#[test]
fn malformed_car_file_is_refused() {
    let car = CarFile { bytes: Bytes::from_static(&[1, 2, 3, 4]) };
    match block_receive(Cid::default(), Some(car), &Config::default()) {
        Err(Error::CarFileError(_)) => {}
        _ => panic!("a malformed CAR file was accepted"),
    }
}

#[test]
fn missing_block_below_the_root_is_an_error_for_the_sender() {
    let mut store = Store::new();
    let (root, _) = put_snapshot(&mut store, None, 2, "s");
    let chunk = links_in(&store, root)[0];
    store.remove(&chunk);
    let request = PullRequest {
        resources: vec![Cid::default()],
        bloom_hash_count: 3,
        bloom_bytes: vec![],
        skip_subgraph_roots: vec![],
    };
    match pull_response(root, request, &Config::default(), &store) {
        Err(Error::CidNotFound { cid }) => assert_eq!(cid, chunk),
        _ => panic!("a missing block went unnoticed"),
    }
}

#[test]
fn unrelated_roots_are_not_sent() {
    let mut store = Store::new();
    let (root, _) = put_snapshot(&mut store, None, 2, "s");
    let (other, _) = put_snapshot(&mut store, None, 2, "t");
    let chunk = links_in(&store, root)[0];
    let request = PullRequest {
        resources: vec![other, chunk],
        bloom_hash_count: 3,
        bloom_bytes: vec![],
        skip_subgraph_roots: vec![],
    };
    let response = pull_response(root, request, &Config::default(), &store).unwrap();
    let got: Vec<Cid> = car_blocks(&response).iter().map(|(cid, _)| *cid).collect();
    let leaves = links_in(&store, chunk);
    assert_eq!(got, vec![chunk, leaves[0], leaves[1]]);
}

#[test]
fn bloom_hits_are_walked_through_or_pruned() {
    let mut store = Store::new();
    let (root, _) = put_snapshot(&mut store, None, 2, "s");
    let chunk = links_in(&store, root)[0];
    let leaves = links_in(&store, chunk);
    let mut bloom = empty_bloom(10);
    bloom.insert(&chunk.to_bytes());
    bloom.insert(&leaves[0].to_bytes());
    let request = PullRequest {
        resources: vec![root],
        bloom_hash_count: bloom.hash_count() as u32,
        bloom_bytes: bloom.as_bytes().to_vec(),
        skip_subgraph_roots: vec![],
    };

    let walked = pull_response(root, request.clone(), &Config::default(), &store).unwrap();
    let got: Vec<Cid> = car_blocks(&walked).iter().map(|(cid, _)| *cid).collect();
    assert_eq!(got, vec![root, leaves[1]]);

    let pruning = &Config { bloom_implies_complete_subgraphs: true, ..Config::default() };
    let pruned = pull_response(root, request, pruning, &store).unwrap();
    let got: Vec<Cid> = car_blocks(&pruned).iter().map(|(cid, _)| *cid).collect();
    assert_eq!(got, vec![root]);
}

#[test]
fn streamed_responses_are_the_buffered_ones() {
    let (root, store) = setup_dag(64, 2 * 1024);
    let request = || PullRequest {
        resources: vec![root],
        bloom_hash_count: 3,
        bloom_bytes: vec![],
        skip_subgraph_roots: vec![],
    };
    for receive_maximum in [0, 2_500, 7_000, 20_000, 50_000, 1_000_000] {
        let config = &Config { receive_maximum, ..Config::default() };
        let buffered = pull_response(root, request(), config, &store).unwrap();
        let streamed = streamed_response(root, request(), config, &store, &mut Cache::new());
        assert_eq!(buffered.bytes, streamed);
        assert!(streamed.len() <= receive_maximum || car_blocks(&buffered).len() == 1);
    }
}

#[test]
fn missing_block_is_an_error_only_if_it_is_to_be_sent() {
    let mut store = Store::new();
    let missing = cid_of(CODEC_DAG_CBOR, b"missing");
    let root = put_ipld(&mut store, &Ipld::List(vec![link(missing)]));
    let request = |bloom_bytes| PullRequest {
        resources: vec![root],
        bloom_hash_count: 3,
        bloom_bytes,
        skip_subgraph_roots: vec![],
    };

    // A bloom filter that seems to hold everything.
    let response = pull_response(root, request(vec![255]), &Config::default(), &store).unwrap();
    assert_eq!(car_blocks(&response), vec![(root, store[&root].clone())]);

    match pull_response(root, request(vec![]), &Config::default(), &store) {
        Err(Error::CidNotFound { cid }) => assert_eq!(cid, missing),
        _ => panic!("a missing block was sent"),
    }
}

#[test]
fn skipped_block_with_cached_links_is_not_read() {
    let mut store = Store::new();
    let (root, _) = put_snapshot(&mut store, None, 2, "s");
    let chunk = links_in(&store, root)[0];
    let leaves = links_in(&store, chunk);
    let mut bloom = empty_bloom(10);
    bloom.insert(&chunk.to_bytes());
    let state = ReceiverState {
        missing_subgraph_roots: vec![root],
        have_cids_bloom: Some(bloom),
        skip_subgraph_roots: vec![],
    };
    let mut cache = Cache::new();
    cache.insert(chunk, leaves.clone());
    store.remove(&chunk);

    let mut sending = car_mirror::send::block_send_block_stream(root, Some(state));
    let mut got = Vec::new();
    loop {
        match drive_send(sending, &store, &mut cache).unwrap() {
            (Some(sent), _) => {
                got.extend(sent.block.map(|(cid, _)| cid));
                sending = sent.next;
            }
            (None, Some(next)) => sending = next,
            (None, None) => break,
        }
    }
    assert_eq!(got, vec![root, leaves[0], leaves[1]]);
    assert_eq!(cache[&root], vec![chunk]);
}

#[test]
fn upcoming_reads_are_known() {
    let mut store = Store::new();
    let (root, _) = put_snapshot(&mut store, None, 3, "s");
    let chunk = links_in(&store, root)[0];
    let leaves = links_in(&store, chunk);
    let state = ReceiverState {
        missing_subgraph_roots: leaves.clone(),
        have_cids_bloom: None,
        skip_subgraph_roots: vec![],
    };
    let mut sending = car_mirror::send::block_send_block_stream(root, Some(state));
    loop {
        match sending {
            Sending::BytesOf(q) => {
                assert_eq!(q.cid(), leaves[0]);
                assert_eq!(q.upcoming_reads(), leaves[1..].to_vec());
                break;
            }
            other => sending = drive_send(other, &store, &mut Cache::new()).unwrap().1.unwrap(),
        }
    }
}

#[test]
fn blocks_are_captured_in_order() {
    let a = cid_of(CODEC_RAW, b"a");
    let b = cid_of(CODEC_RAW, b"b");
    let mut blocks = BufferedBlocks::new();
    assert!(!blocks.has_block(&a));
    assert!(blocks.get_block(&a).is_none());
    blocks.put_block_keyed(a, Bytes::from_static(b"a"));
    blocks.put_block_keyed(b, Bytes::from_static(b"b"));
    blocks.put_block_keyed(a, Bytes::from_static(b"again"));
    assert!(blocks.has_block(&a) && blocks.has_block(&b));
    assert_eq!(blocks.get_block(&a).unwrap(), Bytes::from_static(b"a"));
    let order: Vec<Cid> = blocks.into_blocks().iter().map(|(cid, _)| *cid).collect();
    assert_eq!(order, vec![a, b, a]);
}

#[test]
fn received_blocks_come_back_in_order_without_being_stored() {
    let mut server_store = Store::new();
    let (root, _) = put_snapshot(&mut server_store, None, 2, "s");
    let chunk = links_in(&server_store, root)[0];
    let leaves = links_in(&server_store, chunk);
    let order = [root, chunk, leaves[1], leaves[0]];
    let mut blocks = order.iter().map(|c| (*c, server_store[c].clone()));

    let receiving = pull::handle_response_streaming_with_blocks(root, &Config::default());
    let (state, got) =
        drive_buffered(receiving, &mut || Ok(blocks.next()), &Store::new()).unwrap();

    assert!(state.missing_subgraph_roots.is_empty());
    let cids: Vec<Cid> = got.iter().map(|(cid, _)| *cid).collect();
    assert_eq!(cids, order.to_vec());
    assert!(got.iter().all(|(cid, bytes)| server_store[cid] == *bytes));
}

#[test]
fn capturing_gives_the_same_as_storing() {
    let (root, server_store) = setup_dag(48, 1024);
    let mut store = Store::new();
    for cid in links_in(&server_store, root) {
        store.insert(cid, server_store[&cid].clone());
    }
    let config = &Config { receive_maximum: 9_000, max_roots_per_round: 3, ..Config::default() };

    let mut last_car = None;
    let mut rounds = 0;
    loop {
        rounds += 1;
        let mut stored = store.clone();
        let request = pull_request(root, last_car.clone(), config, &mut stored).unwrap();

        let (receiving, mut source) = pull::request_with_blocks(root, last_car, config).unwrap();
        let (state, blocks) =
            drive_buffered(receiving, &mut || source.next_block(), &store).unwrap();
        let buffered = PullRequest::from(state);
        store.extend(blocks);

        assert_eq!(store, stored);
        assert_eq!(buffered.resources, request.resources);
        assert_eq!(buffered.skip_subgraph_roots, request.skip_subgraph_roots);
        assert_eq!(buffered.bloom_hash_count, request.bloom_hash_count);
        assert_eq!(buffered.bloom_bytes, request.bloom_bytes);
        if request.indicates_finished() {
            break;
        }
        last_car = Some(pull_response(root, request, config, &server_store).unwrap());
    }

    assert!(rounds > 3);
    assert_eq!(reachable(root, &store), reachable(root, &server_store));
}

#[test]
fn blocks_are_read_once_and_sent_breadth_first() {
    let (root, store) = setup_dag(64, 16);
    let mut distance = HashMap::new();
    let mut queue = vec![root];
    let mut links_away = 0;
    while !queue.is_empty() {
        let mut next = Vec::new();
        for cid in queue {
            if !distance.contains_key(&cid) {
                distance.insert(cid, links_away);
                next.extend(links_in(&store, cid));
            }
        }
        queue = next;
        links_away += 1;
    }
    // Some blocks seem to be present. The links of half of them are cached.
    let mut bloom = empty_bloom(20);
    let mut cached = Cache::new();
    let mut skipped = HashSet::new();
    for (i, cid) in links_in(&store, root).into_iter().enumerate() {
        bloom.insert(&cid.to_bytes());
        skipped.insert(cid);
        if i % 2 == 0 {
            cached.insert(cid, links_in(&store, cid));
        }
    }
    let hits: HashSet<Cid> = cached.keys().copied().collect();
    let state = ReceiverState {
        missing_subgraph_roots: vec![root],
        have_cids_bloom: Some(bloom),
        skip_subgraph_roots: vec![],
    };

    let mut sending = car_mirror::send::block_send_block_stream(root, Some(state));
    let mut reads = Vec::new();
    let mut sent = Vec::new();
    loop {
        if let Sending::BytesOf(q) = &sending {
            reads.push(q.cid());
        }
        match drive_send(sending, &store, &mut cached).unwrap() {
            (Some(read), _) => {
                sent.extend(read.block.map(|(cid, _)| cid));
                sending = read.next;
            }
            (None, Some(next)) => sending = next,
            (None, None) => break,
        }
    }

    assert_eq!(sent.len(), 64 - skipped.len());
    assert_eq!(reads.len(), 64 - hits.len());
    assert_eq!(reads.iter().collect::<HashSet<_>>().len(), reads.len());
    assert!(reads.iter().all(|cid| !hits.contains(cid)));
    assert!(sent.windows(2).all(|pair| distance[&pair[0]] <= distance[&pair[1]]));
}

#[test]
fn deeply_nested_blocks_are_transferred() {
    let mut server_store = Store::new();
    let leaf = put_ipld(&mut server_store, &Ipld::String("leaf".to_string()));
    // Lists in lists, around a link to the leaf.
    let mut bytes = vec![0x81; 2_000];
    bytes.extend([0xd8, 0x2a, 0x58, 37, 0]);
    bytes.extend(leaf.to_bytes());
    let root = put(&mut server_store, CODEC_DAG_CBOR, bytes);
    let mut client_store = Store::new();
    let config = &Config::default();

    simulate_protocol(root, config, config, &mut client_store, &server_store);

    assert_eq!(client_store, server_store);
}
