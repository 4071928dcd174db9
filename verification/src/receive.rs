//! The block receiving side of a transfer.
//!
//! Whoever drives it answers questions about the local store, hands in the blocks that arrive and
//! stores those that are asked to be stored, and gets what to tell the sending side in return.

use crate::bloom::{bloom_bits, bloom_fits, bloom_hashes, bloom_with_all, in_bloom};
use crate::car::{car_after_header, car_file_of, car_first_block, car_frame, frame_readable, frames_of, is_block, CarBlocks};
use crate::cid::{Cid, CidParts};
use crate::cid_set::{ascending, in_order, in_order_of_ascending, CidSet};
use crate::common::{CarFile, Config};
use crate::error::{Error, IncrementalVerificationError};
use crate::incremental_verification::{digest_matches, encodings, is_actual_cid, BlockState, DagState, Discovery, IncrementalDagVerification};
use crate::ipld::{block_links, codec_supported, digest_of, hash_supported, ReferencesError};
use crate::payload::{bytes_as_slice, bytes_of};
use crate::receiver_state::{attach_skip_roots, ReceiverState};
use bytes::Bytes;
use deterministic_bloom::runtime_size::BloomFilter;
use vstd::prelude::*;

verus! {

/// What is needed to go on receiving.
pub enum Receiving {
    /// Whether a block is in the store.
    IsPresent(PresenceQuestion),
    /// The links of a block in the store.
    LinksOf(LinksQuestion),
    /// The next block that arrives, if there is one.
    NextBlock(BlockQuestion),
    /// To store a block.
    Store(StoreRequest),
    /// An empty bloom filter for what is present.
    Bloom(BloomRequest),
    /// Nothing: this is what to tell the sending side.
    Done(ReceiverState),
}

/// What the receiving side has settled beforehand.
pub struct Terms {
    /// The most bytes that a block may have.
    pub max_block_size: usize,
    /// The most roots that are requested.
    pub max_roots: usize,
    /// The roots below which nothing is needed.
    pub skip_roots: Set<Cid>,
}

struct Agreed {
    max_block_size: usize,
    max_roots: usize,
    skip_roots: CidSet,
}

impl View for Agreed {
    type V = Terms;

    closed spec fn view(&self) -> Terms {
        Terms {
            max_block_size: self.max_block_size,
            max_roots: self.max_roots,
            skip_roots: self.skip_roots@,
        }
    }
}

/// Whether a block is in the store.
pub struct PresenceQuestion {
    cid: Cid,
    verification: IncrementalDagVerification,
    discovery: Discovery,
    agreed: Agreed,
}

/// The links of a block in the store.
pub struct LinksQuestion {
    cid: Cid,
    verification: IncrementalDagVerification,
    discovery: Discovery,
    agreed: Agreed,
}

/// The next block that arrives, if there is one.
pub struct BlockQuestion {
    verification: IncrementalDagVerification,
    agreed: Agreed,
}

/// To store a block.
pub struct StoreRequest {
    cid: Cid,
    block: Bytes,
    verification: IncrementalDagVerification,
    agreed: Agreed,
}

/// An empty bloom filter for what is present.
pub struct BloomRequest {
    capacity: u64,
    verification: IncrementalDagVerification,
    agreed: Agreed,
}

/// Whether this is what a traversal needs to go on. Once it is over, the next block is needed.
pub open spec fn explores_on(dag: DagState, queue: Seq<Cid>, terms: Terms, r: Receiving) -> bool {
    let n = dag.settled_prefix(queue) as int;
    let passed = dag.passed_over(queue.take(n));
    if n < queue.len() {
        r matches Receiving::IsPresent(q) && q.asks() == queue[n] && q.dag() == passed && q.queue()
            == queue.skip(n + 1) && q.terms() == terms
    } else {
        r matches Receiving::NextBlock(q) && q.dag() == passed && q.terms() == terms
    }
}

/// Whether this is what is needed once no more blocks are taken in.
pub open spec fn sums_up(dag: DagState, terms: Terms, r: Receiving) -> bool {
    if dag.needs_bloom() {
        r matches Receiving::Bloom(q) && q.dag() == dag && q.terms() == terms && q.holds()
            == dag.have.len()
    } else {
        r matches Receiving::Done(state) && summary(dag, terms, state)
            && state.have_cids_bloom is None
    }
}

/// The first of several CIDs, as many as may be requested.
pub open spec fn limited(cids: Seq<Cid>, max_roots: usize) -> Seq<Cid> {
    if max_roots < cids.len() {
        cids.take(max_roots as int)
    } else {
        cids
    }
}

/// Whether a state tells what is missing, as far as it may be requested, and what is not needed,
/// both in ascending order.
pub open spec fn summary(dag: DagState, terms: Terms, state: ReceiverState) -> bool {
    &&& state.missing_subgraph_roots@ == limited(in_order(dag.want), terms.max_roots)
    &&& in_order(dag.want).to_set() == dag.want
    &&& in_order(dag.want).no_duplicates()
    &&& ascending(in_order(dag.want))
    &&& state.skip_subgraph_roots@ == in_order(terms.skip_roots)
    &&& state.skip_subgraph_roots@.to_set() == terms.skip_roots
    &&& ascending(state.skip_subgraph_roots@)
}

/// Whether a bloom filter is another one with all that is present put into it.
pub open spec fn bloom_of(dag: DagState, empty: BloomFilter, bloom: BloomFilter) -> bool {
    &&& bloom_hashes(bloom) == bloom_hashes(empty)
    &&& bloom_bits(bloom).len() == bloom_bits(empty).len()
    &&& bloom_bits(bloom) == bloom_with_all(
        bloom_hashes(empty),
        bloom_bits(empty),
        encodings(in_order(dag.have)),
    )
    &&& forall|c: Cid| dag.have.contains(c) ==> in_bloom(bloom, #[trigger] c.parts().encoding())
}

/// Whether this is what is needed once a block was taken in: the next block, if this one is present
/// already; nothing more, if it is not known to be needed; to store it, if it is wanted and has the
/// right digest.
pub open spec fn takes_in(
    dag: DagState,
    terms: Terms,
    cid: Cid,
    block: Bytes,
    next: Receiving,
) -> bool {
    &&& bytes_of(block).len() <= terms.max_block_size
    &&& match dag.block_state(cid) {
        BlockState::Have => next matches Receiving::NextBlock(q) && q.dag() == dag && q.terms()
            == terms,
        BlockState::Unexpected => sums_up(dag, terms, next),
        BlockState::Want => {
            &&& hash_supported(cid.parts().hash_code)
            &&& digest_matches(cid, bytes_of(block))
            &&& next matches Receiving::Store(s) && s.stores() == (cid, block) && s.dag() == dag
                && s.terms() == terms
        },
    }
}

/// Whether a block is refused with this error: it is too large, or it is wanted but has not the right
/// digest or none that can be computed.
pub open spec fn refuses(
    dag: DagState,
    terms: Terms,
    cid: Cid,
    data: Seq<u8>,
    e: Error,
) -> bool {
    let code = cid.parts().hash_code;
    match e {
        Error::BlockSizeExceeded { cid: c, block_bytes, max_block_size } => {
            &&& c == cid && block_bytes == data.len()
            &&& max_block_size == terms.max_block_size
            &&& block_bytes > max_block_size
        },
        Error::UnsupportedHashCode { cid: c } => {
            &&& c == cid && data.len() <= terms.max_block_size
            &&& dag.want.contains(cid) && !hash_supported(code)
        },
        Error::IncrementalVerificationError(
            IncrementalVerificationError::DigestMismatch { cid: c, actual_cid },
        ) => {
            &&& c == cid && data.len() <= terms.max_block_size
            &&& dag.want.contains(cid) && hash_supported(code)
            &&& !digest_matches(cid, data)
            &&& is_actual_cid(cid, digest_of(code, data), actual_cid)
        },
        _ => false,
    }
}

/// Whether this is what is needed once a wanted block is stored: its links are to be looked at.
pub open spec fn follows_links(
    dag: DagState,
    terms: Terms,
    cid: Cid,
    data: Seq<u8>,
    next: Receiving,
) -> bool {
    let links = block_links(cid.parts().codec, data);
    links is Some && explores_on(dag.marked_as_have(cid), links->0, terms, next)
}

/// Whether the links of a block cannot be read, and this is the error that says so.
pub open spec fn cannot_be_read(cid: Cid, data: Seq<u8>, e: Error) -> bool {
    let codec = cid.parts().codec;
    match e {
        Error::ParsingError(ReferencesError::UnsupportedCodec { cid: c }) => c == cid
            && !codec_supported(codec),
        Error::ParsingError(ReferencesError::Undecodable { cid: c }) => c == cid
            && codec_supported(codec) && block_links(codec, data) is None,
        _ => false,
    }
}

fn explore(
    verification: IncrementalDagVerification,
    discovery: Discovery,
    agreed: Agreed,
) -> (r: Receiving)
    ensures
        explores_on(verification@, discovery@, agreed@, r),
{
    let mut verification = verification;
    let mut discovery = discovery;
    match verification.discover(&mut discovery) {
        Some(cid) => Receiving::IsPresent(
            PresenceQuestion { cid, verification, discovery, agreed },
        ),
        None => Receiving::NextBlock(BlockQuestion { verification, agreed }),
    }
}

fn conclude(
    verification: IncrementalDagVerification,
    agreed: Agreed,
    empty_bloom: Option<BloomFilter>,
) -> (r: ReceiverState)
    requires
        verification@.needs_bloom() ==> empty_bloom is Some && bloom_fits(
            bloom_bits(empty_bloom->0),
        ),
    ensures
        summary(verification@, agreed@, r),
        r.have_cids_bloom is Some <==> verification@.needs_bloom(),
        r.have_cids_bloom matches Some(bloom) ==> bloom_of(verification@, empty_bloom->0, bloom),
{
    let mut state = verification.into_receiver_state(empty_bloom);
    if agreed.max_roots < state.missing_subgraph_roots.len() {
        state.missing_subgraph_roots.truncate(agreed.max_roots);
    }
    attach_skip_roots(&mut state, &agreed.skip_roots);
    state
}

/// Finds out what is known of a received block, and verifies it if it is one of those that are
/// currently wanted. A wanted block is to be stored.
pub fn read_and_verify_block(
    dag_verification: &IncrementalDagVerification,
    cid: Cid,
    block: &Bytes,
) -> (r: Result<BlockState, Error>)
    ensures
        ({
            let dag = dag_verification@;
            let code = cid.parts().hash_code;
            match r {
                Ok(state) => {
                    &&& state == dag.block_state(cid)
                    &&& dag.want.contains(cid) ==> hash_supported(code) && digest_matches(
                        cid,
                        bytes_of(*block),
                    )
                },
                Err(Error::UnsupportedHashCode { cid: c }) => {
                    &&& c == cid && dag.want.contains(cid)
                    &&& !hash_supported(code)
                },
                Err(Error::IncrementalVerificationError(
                    IncrementalVerificationError::DigestMismatch { cid: c, actual_cid },
                )) => {
                    &&& c == cid && dag.want.contains(cid) && hash_supported(code)
                    &&& !digest_matches(cid, bytes_of(*block))
                    &&& is_actual_cid(cid, digest_of(code, bytes_of(*block)), actual_cid)
                },
                Err(_) => false,
            }
        }),
{
    let state = dag_verification.block_state(cid);
    match state {
        BlockState::Have => Ok(BlockState::Have),
        BlockState::Unexpected => Ok(BlockState::Unexpected),
        BlockState::Want => {
            match dag_verification.verify_and_store_block(cid, bytes_as_slice(block)) {
                Ok(()) => Ok(BlockState::Want),
                Err(e) => Err(e),
            }
        },
    }
}

impl PresenceQuestion {
    /// The block in question.
    pub closed spec fn asks(self) -> Cid {
        self.cid
    }

    /// What is known of the graph.
    pub closed spec fn dag(self) -> DagState {
        self.verification@
    }

    /// What is to be looked at next.
    pub closed spec fn queue(self) -> Seq<Cid> {
        self.discovery@
    }

    /// What was settled beforehand.
    pub closed spec fn terms(self) -> Terms {
        self.agreed@
    }

    /// The block in question.
    pub fn cid(&self) -> (r: Cid)
        ensures
            r == self.asks(),
    {
        self.cid
    }

    /// Goes on to ask for the links of the block if it is present, or else with what is to be looked
    /// at next.
    pub fn answer(self, present: bool) -> (r: Receiving)
        ensures
            ({
                let dag = self.dag().marked(self.asks(), present);
                if present {
                    r matches Receiving::LinksOf(q) && q.asks() == self.asks() && q.dag() == dag
                        && q.queue() == self.queue() && q.terms() == self.terms()
                } else {
                    explores_on(dag, self.queue(), self.terms(), r)
                }
            }),
    {
        let PresenceQuestion { cid, verification, discovery, agreed } = self;
        let mut verification = verification;
        verification.found(cid, present);
        if present {
            Receiving::LinksOf(LinksQuestion { cid, verification, discovery, agreed })
        } else {
            explore(verification, discovery, agreed)
        }
    }
}

impl LinksQuestion {
    /// The block in question.
    pub closed spec fn asks(self) -> Cid {
        self.cid
    }

    /// What is known of the graph.
    pub closed spec fn dag(self) -> DagState {
        self.verification@
    }

    /// What is to be looked at next.
    pub closed spec fn queue(self) -> Seq<Cid> {
        self.discovery@
    }

    /// What was settled beforehand.
    pub closed spec fn terms(self) -> Terms {
        self.agreed@
    }

    /// The block in question.
    pub fn cid(&self) -> (r: Cid)
        ensures
            r == self.asks(),
    {
        self.cid
    }

    /// Goes on with what is to be looked at next, and then with the links.
    pub fn answer(self, links: Vec<Cid>) -> (r: Receiving)
        ensures
            explores_on(self.dag(), self.queue() + links@, self.terms(), r),
    {
        let LinksQuestion { cid, verification, discovery, agreed } = self;
        let mut discovery = discovery;
        discovery.extend(links);
        explore(verification, discovery, agreed)
    }
}

impl BlockQuestion {
    /// What is known of the graph.
    pub closed spec fn dag(self) -> DagState {
        self.verification@
    }

    /// What was settled beforehand.
    pub closed spec fn terms(self) -> Terms {
        self.agreed@
    }

    /// Takes in a block.
    ///
    /// A block that is too large is an error. A block that is present already is skipped: that a
    /// single block is known does not mean that the rest of the blocks is redundant. A block that is
    /// not known to be needed was received out of order, which can
    /// happen due to bloom filter false positives. Then no more blocks are taken in, so that the
    /// sending side learns what it left out. A wanted block is verified, and is to be stored.
    pub fn block(self, cid: Cid, block: Bytes) -> (r: Result<Receiving, Error>)
        ensures
            match r {
                Ok(next) => takes_in(self.dag(), self.terms(), cid, block, next),
                Err(e) => refuses(self.dag(), self.terms(), cid, bytes_of(block), e),
            },
    {
        let block_bytes: usize = block.len();
        let max_block_size: usize = self.agreed.max_block_size;
        if block_bytes > max_block_size {
            return Err(Error::BlockSizeExceeded { cid, block_bytes, max_block_size });
        }
        match read_and_verify_block(&self.verification, cid, &block) {
            Ok(BlockState::Have) => Ok(Receiving::NextBlock(self)),
            Ok(BlockState::Unexpected) => Ok(self.end()),
            Ok(BlockState::Want) => {
                let BlockQuestion { verification, agreed } = self;
                Ok(Receiving::Store(StoreRequest { cid, block, verification, agreed }))
            },
            Err(e) => Err(e),
        }
    }

    /// Takes in no more blocks.
    pub fn end(self) -> (r: Receiving)
        ensures
            sums_up(self.dag(), self.terms(), r),
    {
        let BlockQuestion { verification, agreed } = self;
        match verification.bloom_capacity() {
            Some(capacity) => Receiving::Bloom(BloomRequest { capacity, verification, agreed }),
            None => Receiving::Done(conclude(verification, agreed, None)),
        }
    }
}

impl StoreRequest {
    /// The block to store.
    pub closed spec fn stores(self) -> (Cid, Bytes) {
        (self.cid, self.block)
    }

    /// What is known of the graph.
    pub closed spec fn dag(self) -> DagState {
        self.verification@
    }

    /// What was settled beforehand.
    pub closed spec fn terms(self) -> Terms {
        self.agreed@
    }

    /// The CID of the block to store.
    pub fn cid(&self) -> (r: Cid)
        ensures
            r == self.stores().0,
    {
        self.cid
    }

    /// The bytes of the block to store.
    pub fn block(&self) -> (r: &Bytes)
        ensures
            *r == self.stores().1,
    {
        &self.block
    }

    /// Goes on with the links of the block, now that it is stored.
    pub fn stored(self) -> (r: Result<Receiving, Error>)
        ensures
            ({
                let (cid, block) = self.stores();
                match r {
                    Ok(next) => follows_links(self.dag(), self.terms(), cid, bytes_of(block), next),
                    Err(e) => cannot_be_read(cid, bytes_of(block), e),
                }
            }),
    {
        let StoreRequest { cid, block, verification, agreed } = self;
        let mut verification = verification;
        match verification.block_stored(cid, bytes_as_slice(&block)) {
            Ok(discovery) => Ok(explore(verification, discovery, agreed)),
            Err(e) => Err(e),
        }
    }
}

impl BloomRequest {
    /// What is known of the graph.
    pub closed spec fn dag(self) -> DagState {
        self.verification@
    }

    /// What was settled beforehand.
    pub closed spec fn terms(self) -> Terms {
        self.agreed@
    }

    /// How many CIDs the bloom filter is to hold.
    pub closed spec fn holds(self) -> u64 {
        self.capacity
    }

    /// How many CIDs the bloom filter is to hold.
    pub fn capacity(&self) -> (r: u64)
        ensures
            r == self.holds(),
    {
        self.capacity
    }

    /// What to tell the sending side, with all that is present put into the given bloom filter.
    pub fn answer(self, empty_bloom: BloomFilter) -> (r: ReceiverState)
        requires
            bloom_fits(bloom_bits(empty_bloom)),
        ensures
            summary(self.dag(), self.terms(), r),
            r.have_cids_bloom is Some <==> self.dag().needs_bloom(),
            r.have_cids_bloom matches Some(bloom) ==> bloom_of(self.dag(), empty_bloom, bloom),
    {
        let BloomRequest { capacity, verification, agreed } = self;
        conclude(verification, agreed, Some(empty_bloom))
    }
}

/// What is known of a graph before its root was looked at.
pub open spec fn dag_at_start(root: Cid, skip_roots: Set<Cid>) -> DagState {
    DagState {
        boundary_hits: set![root].intersect(skip_roots),
        ..DagState::initial(skip_roots)
    }
}

/// What is to be looked at first: the root, unless nothing is needed below it.
pub open spec fn queue_at_start(root: Cid, skip_roots: Set<Cid>) -> Seq<Cid> {
    if skip_roots.contains(root) {
        Seq::empty()
    } else {
        seq![root]
    }
}

/// Whether this is what is needed to begin to receive.
pub open spec fn receive_begins(root: Cid, config: Config, r: Receiving) -> bool {
    let skip_roots = config.skip_subgraph_roots@;
    explores_on(
        dag_at_start(root, skip_roots),
        queue_at_start(root, skip_roots),
        Terms {
            max_block_size: config.max_block_size,
            max_roots: config.max_roots_per_round,
            skip_roots,
        },
        r,
    )
}

/// Consumes blocks as they arrive, verifying their integrity and
/// making sure all blocks are part of the DAG.
pub fn block_receive_block_stream(root: Cid, config: &Config) -> (r: Receiving)
    ensures
        receive_begins(root, *config, r),
{
    let roots = [root];
    let (verification, discovery) = IncrementalDagVerification::new_with_boundary(
        &roots,
        config.skip_subgraph_roots.clone(),
    );
    let agreed = Agreed {
        max_block_size: config.max_block_size,
        max_roots: config.max_roots_per_round,
        skip_roots: config.skip_subgraph_roots.clone(),
    };
    proof {
        let skip_roots = config.skip_subgraph_roots@;
        assert(roots@ =~= seq![root]);
        assert(roots@.to_set() =~= set![root]) by {
            assert(seq![root][0] == root);
        }
        let queue = queue_at_start(root, skip_roots);
        assert(queue.to_set() =~= set![root].difference(skip_roots)) by {
            if !skip_roots.contains(root) {
                assert(queue[0] == root);
            }
        }
        in_order_of_ascending(queue);
    }
    explore(verification, discovery, agreed)
}

/// The blocks of a CAR file, or no blocks at all.
pub enum CarSource {
    /// No blocks.
    Empty,
    /// Those of a CAR file.
    Car(CarBlocks),
}

/// Whether a CAR file is accepted, and these are its blocks. Without a CAR file there are none.
pub open spec fn car_is_accepted(
    last_car: Option<CarFile>,
    config: Config,
    source: CarSource,
) -> bool {
    match last_car {
        Some(car) => {
            &&& bytes_of(car.bytes).len() <= config.receive_maximum
            &&& source matches CarSource::Car(blocks) && car_after_header(bytes_of(car.bytes))
                == Some(blocks@)
        },
        None => source is Empty,
    }
}

/// Whether a CAR file is refused with this error: it is too large, or its header cannot be read.
pub open spec fn car_is_refused(last_car: Option<CarFile>, config: Config, e: Error) -> bool {
    &&& last_car is Some
    &&& match e {
        Error::TooManyBytes { receive_maximum, bytes_read } => {
            &&& bytes_read == bytes_of(last_car->0.bytes).len()
            &&& receive_maximum == config.receive_maximum
            &&& bytes_read > receive_maximum
        },
        Error::CarFileError(_) => {
            &&& bytes_of(last_car->0.bytes).len() <= config.receive_maximum
            &&& car_after_header(bytes_of(last_car->0.bytes)) is None
        },
        _ => false,
    }
}

/// Whether a CAR file is the one of the given blocks.
pub open spec fn is_car_of(car: CarFile, blocks: Seq<(Cid, Bytes)>) -> bool {
    blocks.len() > 0 && blocks[0].0.stored() && bytes_of(car.bytes) == car_file_of(blocks)
}

/// Whether the given blocks are what is to be read.
pub open spec fn yields(source: CarSource, blocks: Seq<(Cid, Bytes)>) -> bool {
    source matches CarSource::Car(unread) && unread@ == frames_of(blocks).flatten()
}

fn open_car(car: CarFile) -> (r: Result<CarSource, Error>)
    ensures
        match r {
            Ok(source) => source matches CarSource::Car(blocks) && car_after_header(
                bytes_of(car.bytes),
            ) == Some(blocks@),
            Err(e) => e is CarFileError && car_after_header(bytes_of(car.bytes)) is None,
        },
        forall|blocks: Seq<(Cid, Bytes)>| #[trigger]
            is_car_of(car, blocks) ==> r is Ok && yields(r->Ok_0, blocks),
{
    proof {
        assert forall|blocks: Seq<(Cid, Bytes)>| #[trigger]
            is_car_of(car, blocks) implies blocks[0].0.parts().valid() by {
            Cid::stored_is_valid(blocks[0].0);
        }
    }
    match CarBlocks::new(car) {
        Ok(blocks) => Ok(CarSource::Car(blocks)),
        Err(e) => Err(e),
    }
}

/// Like [`block_receive`], but without a limit on the size of the CAR file.
pub fn block_receive_car_stream(root: Cid, car: CarFile, config: &Config) -> (r: Result<
    (Receiving, CarSource),
    Error,
>)
    ensures
        match r {
            Ok((receiving, source)) => receive_begins(root, *config, receiving) && (
            source matches CarSource::Car(unread) && car_after_header(bytes_of(car.bytes)) == Some(
                unread@,
            )),
            Err(e) => e is CarFileError && car_after_header(bytes_of(car.bytes)) is None,
        },
        forall|blocks: Seq<(Cid, Bytes)>| #[trigger]
            is_car_of(car, blocks) ==> r is Ok && yields(r->Ok_0.1, blocks),
{
    match open_car(car) {
        Ok(source) => Ok((block_receive_block_stream(root, config), source)),
        Err(e) => Err(e),
    }
}

/// This function is run on the block receiving end of the protocol.
///
/// It's used on the client during the pull protocol and on the server
/// during the push protocol.
///
/// It takes a `CarFile`, verifies that its contents are related to the
/// `root` and leads to some information to help the block sending side
/// figure out what blocks to send next.
pub fn block_receive(root: Cid, last_car: Option<CarFile>, config: &Config) -> (r: Result<
    (Receiving, CarSource),
    Error,
>)
    ensures
        match r {
            Ok((receiving, source)) => receive_begins(root, *config, receiving) && car_is_accepted(
                last_car,
                *config,
                source,
            ),
            Err(e) => car_is_refused(last_car, *config, e),
        },
        forall|blocks: Seq<(Cid, Bytes)>|
            last_car is Some && #[trigger] is_car_of(last_car->0, blocks) && bytes_of(
                last_car->0.bytes,
            ).len() <= config.receive_maximum ==> r is Ok && yields(r->Ok_0.1, blocks),
{
    match last_car {
        Some(car) => {
            let bytes_read: usize = car.bytes.len();
            if bytes_read > config.receive_maximum {
                return Err(
                    Error::TooManyBytes { receive_maximum: config.receive_maximum, bytes_read },
                );
            }
            block_receive_car_stream(root, car, config)
        },
        None => Ok((block_receive_block_stream(root, config), CarSource::Empty)),
    }
}

impl CarSource {
    /// Takes out the next block, if there is one.
    pub fn next_block(&mut self) -> (r: Result<Option<(Cid, Bytes)>, Error>)
        ensures
            match *old(self) {
                CarSource::Empty => r is Ok && r->Ok_0 is None && *final(self) is Empty,
                CarSource::Car(blocks) => {
                    &&& *final(self) is Car
                    &&& match r {
                        Ok(Some(block)) => car_first_block(blocks@) == Some(
                            Some((block.0.parts(), bytes_of(block.1), final(self)->Car_0@)),
                        ),
                        Ok(None) => car_first_block(blocks@) == Some(
                            None::<(CidParts, Seq<u8>, Seq<u8>)>,
                        ),
                        Err(e) => e is CarFileError && car_first_block(blocks@) is None,
                    }
                    &&& blocks@.len() == 0 ==> r is Ok && r->Ok_0 is None
                    &&& forall|parts: CidParts, data: Seq<u8>, rest: Seq<u8>|
                        frame_readable(parts, data) && blocks@ == #[trigger] (car_frame(
                            parts,
                            data,
                        ) + rest) ==> r is Ok && r->Ok_0 is Some && is_block(
                            r->Ok_0->0,
                            parts,
                            data,
                        ) && final(self)->Car_0@ == rest
                },
            },
    {
        match self {
            CarSource::Empty => Ok(None),
            CarSource::Car(blocks) => blocks.next_block(),
        }
    }
}

} // verus!
