//! The block sending side of a transfer.
//!
//! Whoever drives it answers questions about the local store and cache, one at a time, and gets the
//! blocks to send in return.

use crate::block_walk::{stream_blocks_from_roots, BlockWalk, WalkRules, WalkState, WalkStep};
use crate::bloom::{bloom_bits, bloom_fits, in_bloom};
use crate::car::{
    all_bytes, car_accepts, car_file_of, car_frame, car_header, car_prefix, counted, frame_fits,
    frame_of, frames_of, lemma_car_accepts_is_short, some_bytes, CarFrames, CarProgress, CarWriting,
    LimitedCar, LimitedCarFrames,
};
use crate::cid::{uvarints_are_short, Cid, CODEC_RAW};
use crate::cid_set::CidSet;
use crate::common::{CarFile, Config};
use crate::error::Error;
use crate::ipld::{block_links, codec_supported, ReferencesError};
use crate::payload::{bytes_as_slice, bytes_from_vec, bytes_of};
use crate::receiver_state::{handle_missing_bloom, ReceiverState};
use crate::subgraph_roots::{verify_missing_subgraph_roots, RootSearch, SearchState};
use bytes::Bytes;
use deterministic_bloom::runtime_size::BloomFilter;
use vstd::prelude::*;

verus! {

/// What is not to be sent: what the bloom filter holds, and what lies below the skip roots.
struct Unneeded {
    bloom: BloomFilter,
    skip_roots: CidSet,
    prune_bloom_subgraphs: bool,
}

impl Unneeded {
    #[verifier::type_invariant]
    spec fn bloom_can_be_asked(self) -> bool {
        bloom_fits(bloom_bits(self.bloom))
    }
}

/// What is known of the receiving side, apart from what it requests.
pub struct SendPlan {
    /// What it seems to have.
    pub bloom: BloomFilter,
    /// The roots below which it needs nothing.
    pub skip_roots: Set<Cid>,
    /// Whether a bloom hit stands for the whole subgraph.
    pub prune_bloom_subgraphs: bool,
}

impl View for Unneeded {
    type V = SendPlan;

    closed spec fn view(&self) -> SendPlan {
        SendPlan {
            bloom: self.bloom,
            skip_roots: self.skip_roots@,
            prune_bloom_subgraphs: self.prune_bloom_subgraphs,
        }
    }
}

impl SendPlan {
    /// What decides on the fate of a CID if the given roots are requested.
    pub open spec fn rules(self, requested: Set<Cid>) -> WalkRules {
        WalkRules {
            requested,
            skip_roots: self.skip_roots,
            bloom: self.bloom,
            prune_bloom_subgraphs: self.prune_bloom_subgraphs,
        }
    }

    /// Whether this is what the receiving side has said. Without a bloom filter nothing is taken to
    /// be there.
    pub open spec fn follows_from(
        self,
        last_state: Option<ReceiverState>,
        prune_bloom_subgraphs: bool,
    ) -> bool {
        &&& self.prune_bloom_subgraphs == prune_bloom_subgraphs
        &&& self.skip_roots == (match last_state {
            Some(state) => state.skip_subgraph_roots@.to_set(),
            None => Set::empty(),
        })
        &&& match last_state {
            Some(ReceiverState { have_cids_bloom: Some(bloom), .. }) => self.bloom == bloom,
            _ => forall|element: Seq<u8>| !(#[trigger] in_bloom(self.bloom, element)),
        }
    }
}

/// The roots that the receiving side requests: the root of the whole graph, if it has not said
/// anything yet.
pub open spec fn requested_roots(root: Cid, last_state: Option<ReceiverState>) -> Seq<Cid> {
    match last_state {
        Some(state) => state.missing_subgraph_roots@,
        None => seq![root],
    }
}

/// What is needed to go on sending.
pub enum Sending {
    /// Whether a block is in the store.
    IsPresent(PresenceQuestion),
    /// The links of a block in the store.
    LinksOf(LinksQuestion),
    /// The links of a block, if they are cached.
    CachedLinksOf(CacheQuestion),
    /// The bytes of a block.
    BytesOf(BlockQuestion),
    /// Nothing: all blocks are sent.
    Done,
}

/// Whether a block is in the store.
pub struct PresenceQuestion {
    cid: Cid,
    search: RootSearch,
    unneeded: Unneeded,
}

/// The links of a block in the store.
pub struct LinksQuestion {
    cid: Cid,
    search: RootSearch,
    unneeded: Unneeded,
}

/// The links of a block, if they are cached.
pub struct CacheQuestion {
    cid: Cid,
    walk: BlockWalk,
}

/// The bytes of a block.
pub struct BlockQuestion {
    cid: Cid,
    emit: bool,
    walk: BlockWalk,
}

/// What comes of a block that was read.
pub struct Sent {
    /// The block, if it is to be sent.
    pub block: Option<(Cid, Bytes)>,
    /// The links of the block, if they are to be cached.
    pub to_cache: Option<Vec<Cid>>,
    /// What is needed to go on.
    pub next: Sending,
}

/// Whether this is what a walk needs to go on.
pub open spec fn walks_on(state: WalkState, rules: WalkRules, r: Sending) -> bool {
    let (need, after) = state.step(rules);
    match need {
        WalkStep::CachedLinks(cid) => r matches Sending::CachedLinksOf(q) && q.asks() == cid
            && q.walk() == after && q.rules() == rules,
        WalkStep::Read(cid, emit) => r matches Sending::BytesOf(q) && q.asks() == cid && q.emits()
            == emit && q.walk() == after && q.rules() == rules,
        WalkStep::Done => r is Done,
    }
}

/// Whether this is what a search needs to go on. Once it is over, the walk from the roots that were
/// found begins.
pub open spec fn searches_on(state: SearchState, plan: SendPlan, r: Sending) -> bool {
    match state.upcoming() {
        Some(cid) => r matches Sending::IsPresent(q) && q.asks() == cid && q.search()
            == state.advanced() && q.plan() == plan,
        None => walk_begins(state.found, plan, r),
    }
}

/// Whether this is what a walk from the given roots, which are requested, needs to begin.
pub open spec fn walk_begins(roots: Seq<Cid>, plan: SendPlan, r: Sending) -> bool {
    walks_on(WalkState::initial(roots), plan.rules(roots.to_set()), r)
}

/// Whether this is what is needed to begin to send.
///
/// All requested roots are looked for below the root, unless the root itself is all that is
/// requested, which is trivially below the root.
pub open spec fn send_begins(
    root: Cid,
    requested: Seq<Cid>,
    plan: SendPlan,
    r: Sending,
) -> bool {
    if requested == seq![root] {
        walk_begins(requested, plan, r)
    } else {
        searches_on(SearchState::initial(root, requested.to_set()), plan, r)
    }
}

fn walk_on(walk: BlockWalk) -> (r: Sending)
    ensures
        walks_on(walk@, walk.rules(), r),
{
    let mut walk = walk;
    match walk.next_step() {
        WalkStep::CachedLinks(cid) => Sending::CachedLinksOf(CacheQuestion { cid, walk }),
        WalkStep::Read(cid, emit) => Sending::BytesOf(BlockQuestion { cid, emit, walk }),
        WalkStep::Done => Sending::Done,
    }
}

fn begin_walk(roots: Vec<Cid>, unneeded: Unneeded) -> (r: Sending)
    ensures
        walk_begins(roots@, unneeded@, r),
{
    proof {
        use_type_invariant(&unneeded);
    }
    let Unneeded { bloom, skip_roots, prune_bloom_subgraphs } = unneeded;
    walk_on(stream_blocks_from_roots(roots, bloom, skip_roots, prune_bloom_subgraphs))
}

fn search_on(search: RootSearch, unneeded: Unneeded) -> (r: Sending)
    ensures
        searches_on(search@, unneeded@, r),
{
    let mut search = search;
    match search.next_cid() {
        Some(cid) => Sending::IsPresent(PresenceQuestion { cid, search, unneeded }),
        None => begin_walk(search.into_roots(), unneeded),
    }
}

/// This is the car mirror block sending function, but it leaves framing blocks to the caller.
pub fn block_send_block_stream(root: Cid, last_state: Option<ReceiverState>) -> (r: Sending)
    requires
        last_state matches Some(state) ==> state.fits(),
    ensures
        exists|plan: SendPlan| #[trigger]
            plan.follows_from(last_state, false) && send_begins(
                root,
                requested_roots(root, last_state),
                plan,
                r,
            ),
{
    block_send_block_stream_pruning(root, last_state, false)
}

/// Like [`block_send_block_stream`], but with optional subgraph pruning below
/// bloom hits (see [`Config::bloom_implies_complete_subgraphs`]).
///
/// Looking for the requested roots is deliberately decoupled from pruning: it goes by *unpruned*
/// reachability, while bloom hits and skip roots apply only to what is sent.
pub fn block_send_block_stream_pruning(
    root: Cid,
    last_state: Option<ReceiverState>,
    prune_bloom_subgraphs: bool,
) -> (r: Sending)
    requires
        last_state matches Some(state) ==> state.fits(),
    ensures
        exists|plan: SendPlan| #[trigger]
            plan.follows_from(last_state, prune_bloom_subgraphs) && send_begins(
                root,
                requested_roots(root, last_state),
                plan,
                r,
            ),
{
    let ghost given = last_state;
    let ghost requested = requested_roots(root, last_state);
    let state = match last_state {
        Some(state) => state,
        None => {
            let mut missing_subgraph_roots: Vec<Cid> = Vec::new();
            missing_subgraph_roots.push(root);
            proof {
                assert(missing_subgraph_roots@ =~= seq![root]);
            }
            ReceiverState {
                missing_subgraph_roots,
                have_cids_bloom: None,
                skip_subgraph_roots: Vec::new(),
            }
        },
    };
    let ReceiverState { missing_subgraph_roots, have_cids_bloom, skip_subgraph_roots } = state;
    let bloom = handle_missing_bloom(have_cids_bloom);
    let skip_roots = CidSet::from_slice(skip_subgraph_roots.as_slice());
    let unneeded = Unneeded { bloom, skip_roots, prune_bloom_subgraphs };
    proof {
        if given is None {
            assert(skip_subgraph_roots@.to_set() =~= Set::<Cid>::empty());
        }
        assert(unneeded@.follows_from(given, prune_bloom_subgraphs));
    }
    if missing_subgraph_roots.len() == 1 && missing_subgraph_roots[0] == root {
        proof {
            assert(missing_subgraph_roots@ =~= seq![root]);
        }
        begin_walk(missing_subgraph_roots, unneeded)
    } else {
        let search = verify_missing_subgraph_roots(root, missing_subgraph_roots.as_slice());
        search_on(search, unneeded)
    }
}

impl PresenceQuestion {
    /// The block in question.
    pub closed spec fn asks(self) -> Cid {
        self.cid
    }

    /// The search that asks.
    pub closed spec fn search(self) -> SearchState {
        self.search@
    }

    /// What the walk will go by.
    pub closed spec fn plan(self) -> SendPlan {
        self.unneeded@
    }

    /// The block in question.
    pub fn cid(&self) -> (r: Cid)
        ensures
            r == self.asks(),
    {
        self.cid
    }

    /// Goes on to ask for the links of the block. It is an error if the block is missing.
    pub fn answer(self, present: bool) -> (r: Result<Sending, Error>)
        ensures
            match r {
                Ok(next) => present && (next matches Sending::LinksOf(q) && q.asks() == self.asks()
                    && q.search() == self.search() && q.plan() == self.plan()),
                Err(Error::CidNotFound { cid }) => !present && cid == self.asks(),
                Err(_) => false,
            },
    {
        if present {
            Ok(
                Sending::LinksOf(
                    LinksQuestion { cid: self.cid, search: self.search, unneeded: self.unneeded },
                ),
            )
        } else {
            Err(Error::CidNotFound { cid: self.cid })
        }
    }
}

impl LinksQuestion {
    /// The block in question.
    pub closed spec fn asks(self) -> Cid {
        self.cid
    }

    /// The search that asks.
    pub closed spec fn search(self) -> SearchState {
        self.search@
    }

    /// What the walk will go by.
    pub closed spec fn plan(self) -> SendPlan {
        self.unneeded@
    }

    /// The block in question.
    pub fn cid(&self) -> (r: Cid)
        ensures
            r == self.asks(),
    {
        self.cid
    }

    /// Goes on with the search, or with the walk once all requested roots are found.
    pub fn answer(self, links: Vec<Cid>) -> (r: Sending)
        ensures
            ({
                let looked = self.search().looked_at(self.asks(), links@);
                if looked.requested.contains(self.asks()) && looked.all_found() {
                    walk_begins(looked.found, self.plan(), r)
                } else {
                    searches_on(looked, self.plan(), r)
                }
            }),
    {
        let LinksQuestion { cid, search, unneeded } = self;
        let mut search = search;
        if search.look_at(cid, links) {
            begin_walk(search.into_roots(), unneeded)
        } else {
            search_on(search, unneeded)
        }
    }
}

impl CacheQuestion {
    /// The block in question.
    pub closed spec fn asks(self) -> Cid {
        self.cid
    }

    /// The walk that asks.
    pub closed spec fn walk(self) -> WalkState {
        self.walk@
    }

    /// What the walk goes by.
    pub closed spec fn rules(self) -> WalkRules {
        self.walk.rules()
    }

    /// The block in question.
    pub fn cid(&self) -> (r: Cid)
        ensures
            r == self.asks(),
    {
        self.cid
    }

    /// Goes on with the walk: through the block, if its links are cached, or else with reading it.
    pub fn answer(self, cached: Option<Vec<Cid>>) -> (r: Sending)
        ensures
            walks_on(
                match cached {
                    Some(links) => self.walk().expanded(links@),
                    None => self.walk().set_down(self.asks()),
                },
                self.rules(),
                r,
            ),
    {
        let CacheQuestion { cid, walk } = self;
        let mut walk = walk;
        walk.links_cached(cid, cached);
        walk_on(walk)
    }
}

impl BlockQuestion {
    /// The block in question.
    pub closed spec fn asks(self) -> Cid {
        self.cid
    }

    /// Whether the block is sent.
    pub closed spec fn emits(self) -> bool {
        self.emit
    }

    /// The walk that asks.
    pub closed spec fn walk(self) -> WalkState {
        self.walk@
    }

    /// What the walk goes by.
    pub closed spec fn rules(self) -> WalkRules {
        self.walk.rules()
    }

    /// The block in question.
    pub fn cid(&self) -> (r: Cid)
        ensures
            r == self.asks(),
    {
        self.cid
    }

    /// Whether the links of the block are needed too, so that the cache is to be asked for them. Raw
    /// blocks carry no links.
    pub fn needs_links(&self) -> (r: bool)
        ensures
            r == (self.asks().parts().codec != CODEC_RAW),
    {
        self.cid.codec() != CODEC_RAW
    }

    /// The blocks that will be asked for after this one, so that reads can overlap.
    pub fn upcoming_reads(&self) -> (r: Vec<Cid>)
        ensures
            r@ == self.walk().to_read.map_values(|read: (Cid, bool)| read.0),
    {
        self.walk.upcoming_reads()
    }

    /// Goes on with the walk although the block is missing from the store. That is an error for a
    /// block that is to be sent. A block that is only walked through is left alone.
    pub fn absent(self) -> (r: Result<Sending, Error>)
        ensures
            match r {
                Ok(next) => !self.emits() && walks_on(self.walk(), self.rules(), next),
                Err(Error::CidNotFound { cid }) => self.emits() && cid == self.asks(),
                Err(_) => false,
            },
    {
        if self.emit {
            Err(Error::CidNotFound { cid: self.cid })
        } else {
            Ok(walk_on(self.walk))
        }
    }

    /// Goes on with the walk. The links of the block are those that are cached, or else those that
    /// its bytes contain, which are handed out to be cached.
    pub fn answer(self, bytes: Bytes, cached: Option<Vec<Cid>>) -> (r: Result<Sent, Error>)
        ensures
            ({
                let codec = self.asks().parts().codec;
                let parsed = block_links(codec, bytes_of(bytes));
                match r {
                    Ok(sent) => {
                        &&& sent.block is Some <==> self.emits()
                        &&& sent.block matches Some(block) ==> block == (self.asks(), bytes)
                        &&& if codec == CODEC_RAW {
                            sent.to_cache is None && walks_on(self.walk(), self.rules(), sent.next)
                        } else if cached is Some {
                            sent.to_cache is None && walks_on(
                                self.walk().expanded(cached->0@),
                                self.rules(),
                                sent.next,
                            )
                        } else {
                            &&& parsed is Some
                            &&& sent.to_cache is Some && sent.to_cache->0@ == parsed->0
                            &&& walks_on(
                                self.walk().expanded(parsed->0),
                                self.rules(),
                                sent.next,
                            )
                        }
                    },
                    Err(Error::ParsingError(ReferencesError::UnsupportedCodec { cid })) => {
                        cid == self.asks() && cached is None && !codec_supported(codec)
                    },
                    Err(Error::ParsingError(ReferencesError::Undecodable { cid })) => {
                        &&& cid == self.asks() && cached is None && codec != CODEC_RAW
                        &&& codec_supported(codec) && parsed is None
                    },
                    Err(_) => false,
                }
            }),
    {
        let BlockQuestion { cid, emit, walk } = self;
        let mut walk = walk;
        match walk.block_read(cid, &bytes, cached) {
            Ok(to_cache) => {
                let block = if emit {
                    Some((cid, bytes))
                } else {
                    None
                };
                Ok(Sent { block, to_cache, next: walk_on(walk) })
            },
            Err(e) => Err(e),
        }
    }
}

/// A CAR file in memory that takes in blocks as long as there is room for them.
pub struct CarSink {
    writing: CarWriting,
    bytes: Vec<u8>,
}

/// What matters of a CAR file in memory.
pub struct SinkState {
    /// How far it has got.
    pub progress: CarProgress,
    /// What was written.
    pub bytes: Seq<u8>,
}

impl View for CarSink {
    type V = SinkState;

    closed spec fn view(&self) -> SinkState {
        SinkState { progress: self.writing@, bytes: self.bytes@ }
    }
}

impl SinkState {
    /// Nothing written yet.
    pub open spec fn empty(size_limit: Option<usize>) -> SinkState {
        SinkState { progress: CarProgress::empty(size_limit), bytes: Seq::empty() }
    }

    /// Whether exactly the given blocks were written.
    pub open spec fn holds(self, blocks: Seq<(Cid, Bytes)>) -> bool {
        &&& self.bytes == car_file_of(blocks)
        &&& self.progress.started == (blocks.len() > 0)
        &&& self.progress.written == counted(self.bytes.len() as int)
    }

    /// With a block written, if there is room for it.
    pub open spec fn with_block(self, block: (Cid, Bytes)) -> SinkState {
        let (parts, data) = (block.0.parts(), bytes_of(block.1));
        SinkState {
            progress: self.progress.with_block(parts, data),
            bytes: match self.progress.addition(parts, data) {
                Some(more) => self.bytes + more,
                None => self.bytes,
            },
        }
    }

    /// Whether there is room for a block.
    pub open spec fn has_room(self, block: (Cid, Bytes)) -> bool {
        self.progress.addition(block.0.parts(), bytes_of(block.1)) is Some
    }
}

/// A CAR file that took in one block after the other is the CAR file of these blocks.
pub proof fn sink_holds_what_it_took_in(
    sink: SinkState,
    blocks: Seq<(Cid, Bytes)>,
    block: (Cid, Bytes),
)
    requires
        sink.holds(blocks),
        sink.has_room(block),
    ensures
        sink.with_block(block).holds(blocks.push(block)),
{
    let all = blocks.push(block);
    assert(frames_of(all) =~= frames_of(blocks).push(frame_of(block)));
    frames_of(blocks).lemma_flatten_push(frame_of(block));
    if blocks.len() == 0 {
        assert(frames_of(blocks).flatten() =~= Seq::<u8>::empty());
        assert(all[0] == block);
        assert(sink.with_block(block).bytes =~= car_file_of(all));
    } else {
        assert(all[0] == blocks[0]);
        assert(sink.with_block(block).bytes =~= car_file_of(all));
    }
}

impl CarSink {
    /// A CAR file without blocks.
    pub fn new(size_limit: Option<usize>) -> (r: CarSink)
        ensures
            r@ == SinkState::empty(size_limit),
            r@.holds(Seq::empty()),
    {
        CarSink { writing: CarWriting::new(size_limit), bytes: Vec::new() }
    }

    /// Takes in what is sent, if there is room for it, and goes on. If there is no room, all that is
    /// sent is sent.
    pub fn accept(&mut self, sent: Sent) -> (r: Result<Sending, Error>)
        ensures
            r is Ok,
            match sent.block {
                Some(block) => {
                    &&& final(self)@ == old(self)@.with_block(block)
                    &&& old(self)@.has_room(block) ==> r->Ok_0 == sent.next
                    &&& !old(self)@.has_room(block) ==> r->Ok_0 is Done
                },
                None => final(self)@ == old(self)@ && r->Ok_0 == sent.next,
            },
    {
        match sent.block {
            None => Ok(sent.next),
            Some((cid, block)) => {
                match self.writing.add_block(cid, &block) {
                    Ok(Some(more)) => {
                        let ghost had = self.bytes@;
                        self.bytes.extend_from_slice(bytes_as_slice(&more));
                        proof {
                            assert(self.bytes@ =~= had + bytes_of(more));
                        }
                        Ok(sent.next)
                    },
                    Ok(None) => Ok(Sending::Done),
                    Err(e) => Err(e),
                }
            },
        }
    }

    /// The CAR file. Without blocks it is empty.
    pub fn finish(self) -> (r: CarFile)
        ensures
            bytes_of(r.bytes) == self@.bytes,
    {
        CarFile { bytes: bytes_from_vec(self.bytes) }
    }
}

/// Whether a CAR file in memory and a CAR stream have taken in the same: the chunks that were handed
/// out and what is still buffered join to what was written.
pub open spec fn in_step(sink: SinkState, stream: LimitedCar, chunks: Seq<Seq<u8>>) -> bool {
    &&& stream.started == sink.progress.started
    &&& stream.emitted == sink.progress.written
    &&& stream.size_limit == sink.progress.size_limit
    &&& chunks.flatten() + stream.buffered == sink.bytes
    &&& !stream.started ==> stream.emitted == 0 && sink.bytes.len() == 0
}

/// The chunks that were handed out together with one more, if there is one.
pub open spec fn with_chunk(chunks: Seq<Seq<u8>>, more: Option<Seq<u8>>) -> Seq<Seq<u8>> {
    match more {
        Some(chunk) => chunks.push(chunk),
        None => chunks,
    }
}

/// A CAR file in memory and a CAR stream start out in step.
pub proof fn responses_start_in_step(size_limit: Option<usize>)
    ensures
        in_step(SinkState::empty(size_limit), LimitedCar::empty(size_limit), Seq::empty()),
{
    assert(Seq::<Seq<u8>>::empty().flatten() =~= Seq::<u8>::empty());
    assert(Seq::<u8>::empty() + Seq::<u8>::empty() =~= Seq::<u8>::empty());
}

/// A CAR file in memory and a CAR stream stay in step: they have room for the same blocks, so a
/// response has the same bytes whether it is streamed or not.
pub proof fn responses_stay_in_step(
    sink: SinkState,
    stream: LimitedCar,
    chunks: Seq<Seq<u8>>,
    block: (Cid, Bytes),
)
    requires
        in_step(sink, stream, chunks),
    ensures
        sink.has_room(block) == stream.accepts(block.0.parts(), bytes_of(block.1)),
        in_step(
            sink.with_block(block),
            stream.with_block(block.0.parts(), bytes_of(block.1)),
            with_chunk(chunks, stream.completes(block.0.parts(), bytes_of(block.1))),
        ),
{
    let (parts, data) = (block.0.parts(), bytes_of(block.1));
    let next = stream.with_block(parts, data);
    let grown = stream.grown(parts, data);
    if stream.accepts(parts, data) {
        if stream.started {
            assert(chunks.flatten() + grown =~= (chunks.flatten() + stream.buffered) + car_frame(
                parts,
                data,
            ));
        } else {
            assert(chunks.flatten().len() == 0);
            assert(chunks.flatten() + grown =~= grown);
            assert(sink.bytes + grown =~= grown);
        }
        if stream.completes(parts, data) is Some {
            chunks.lemma_flatten_push(grown);
            assert(chunks.push(grown).flatten() + next.buffered =~= chunks.flatten() + grown);
        }
    }
}

/// A CAR file in memory that is handed one block after the other, until there is no room for one.
pub open spec fn sink_run(sink: SinkState, blocks: Seq<(Cid, Bytes)>) -> SinkState
    decreases blocks.len(),
{
    if blocks.len() == 0 || !sink.has_room(blocks[0]) {
        sink
    } else {
        sink_run(sink.with_block(blocks[0]), blocks.drop_first())
    }
}

/// A CAR file in memory that was handed some blocks is the CAR file of as many of them as there is
/// room for.
pub proof fn responses_are_car_files(size_limit: Option<usize>, blocks: Seq<(Cid, Bytes)>)
    ensures
        sink_run(SinkState::empty(size_limit), blocks).holds(car_prefix(blocks, size_limit)),
        sink_run(SinkState::empty(size_limit), blocks).bytes == car_file_of(
            car_prefix(blocks, size_limit),
        ),
{
    let sink = SinkState::empty(size_limit);
    let nothing = Seq::<(Cid, Bytes)>::empty();
    assert(sink.holds(nothing));
    if blocks.len() > 0 {
        let first = nothing.push(blocks[0]);
        let start = car_header(blocks[0].0.parts()) + frame_of(blocks[0]);
        let rest = blocks.drop_first();
        sink_holds_what_it_took_in(sink, nothing, blocks[0]);
        lemma_sink_run(sink.with_block(blocks[0]), size_limit, first, rest);
        assert(sink.with_block(blocks[0]).bytes =~= start);
        let n = car_accepts(size_limit, start.len() as int, rest) as int;
        lemma_car_accepts_is_short(size_limit, start.len() as int, rest);
        assert(first + rest.take(n) =~= blocks.take(1 + n));
    } else {
        assert(car_prefix(blocks, size_limit) =~= nothing);
    }
}

proof fn lemma_sink_run(
    sink: SinkState,
    size_limit: Option<usize>,
    taken: Seq<(Cid, Bytes)>,
    blocks: Seq<(Cid, Bytes)>,
)
    requires
        sink.holds(taken),
        taken.len() > 0,
        sink.progress.size_limit == size_limit,
    ensures
        sink_run(sink, blocks).holds(
            taken + blocks.take(
                car_accepts(size_limit, sink.bytes.len() as int, blocks) as int,
            ),
        ),
    decreases blocks.len(),
{
    if blocks.len() > 0 {
        let frame = frame_of(blocks[0]);
        let rest = blocks.drop_first();
        let (parts, data) = (blocks[0].0.parts(), bytes_of(blocks[0].1));
        uvarints_are_short(parts.encoding().len() + data.len());
        assert(frame.len() > 0);
        assert(sink.has_room(blocks[0]) == frame_fits(size_limit, sink.bytes.len() as int, frame));
        if sink.has_room(blocks[0]) {
            let next = sink.with_block(blocks[0]);
            let n = car_accepts(size_limit, next.bytes.len() as int, rest) as int;
            sink_holds_what_it_took_in(sink, taken, blocks[0]);
            lemma_sink_run(next, size_limit, taken.push(blocks[0]), rest);
            lemma_car_accepts_is_short(size_limit, next.bytes.len() as int, rest);
            assert(taken.push(blocks[0]) + rest.take(n) =~= taken + blocks.take(1 + n));
        } else {
            assert(taken + blocks.take(0) =~= taken);
        }
    } else {
        assert(taken + blocks.take(0) =~= taken);
    }
}

/// A CAR stream that is handed one block after the other, until there is no room for one, with the
/// chunks that it has handed out.
pub open spec fn stream_run(
    stream: LimitedCar,
    chunks: Seq<Seq<u8>>,
    blocks: Seq<(Cid, Bytes)>,
) -> (LimitedCar, Seq<Seq<u8>>)
    decreases blocks.len(),
{
    if blocks.len() == 0 || !stream.accepts(blocks[0].0.parts(), bytes_of(blocks[0].1)) {
        (stream, chunks)
    } else {
        let (parts, data) = (blocks[0].0.parts(), bytes_of(blocks[0].1));
        stream_run(
            stream.with_block(parts, data),
            with_chunk(chunks, stream.completes(parts, data)),
            blocks.drop_first(),
        )
    }
}

/// The chunks of a CAR stream that was handed some blocks join, with what is left at the end, to the
/// very bytes of the CAR file in memory that was handed the same blocks.
pub proof fn streamed_responses_are_car_files(
    size_limit: Option<usize>,
    blocks: Seq<(Cid, Bytes)>,
)
    ensures
        ({
            let (stream, chunks) = stream_run(LimitedCar::empty(size_limit), Seq::empty(), blocks);
            &&& chunks.flatten() + stream.buffered == sink_run(
                SinkState::empty(size_limit),
                blocks,
            ).bytes
            &&& chunks.flatten() + stream.buffered == car_file_of(car_prefix(blocks, size_limit))
        }),
{
    responses_start_in_step(size_limit);
    lemma_runs_stay_in_step(
        SinkState::empty(size_limit),
        LimitedCar::empty(size_limit),
        Seq::empty(),
        blocks,
    );
    responses_are_car_files(size_limit, blocks);
}

proof fn lemma_runs_stay_in_step(
    sink: SinkState,
    stream: LimitedCar,
    chunks: Seq<Seq<u8>>,
    blocks: Seq<(Cid, Bytes)>,
)
    requires
        in_step(sink, stream, chunks),
    ensures
        ({
            let (after, handed_out) = stream_run(stream, chunks, blocks);
            in_step(sink_run(sink, blocks), after, handed_out)
        }),
    decreases blocks.len(),
{
    if blocks.len() > 0 {
        let (parts, data) = (blocks[0].0.parts(), bytes_of(blocks[0].1));
        responses_stay_in_step(sink, stream, chunks, blocks[0]);
        lemma_runs_stay_in_step(
            sink.with_block(blocks[0]),
            stream.with_block(parts, data),
            with_chunk(chunks, stream.completes(parts, data)),
            blocks.drop_first(),
        );
    }
}

impl CarFrames {
    /// The sections of the CAR file for what is sent, and what is needed to go on.
    pub fn accept(&mut self, sent: Sent) -> (r: Result<(Vec<Bytes>, Sending), Error>)
        ensures
            r is Ok,
            r->Ok_0.1 == sent.next,
            final(self).started() == (old(self).started() || sent.block is Some),
            all_bytes(r->Ok_0.0@) == (match sent.block {
                Some(block) => if old(self).started() {
                    seq![frame_of(block)]
                } else {
                    seq![car_header(block.0.parts()), frame_of(block)]
                },
                None => Seq::empty(),
            }),
    {
        match sent.block {
            None => {
                let sections: Vec<Bytes> = Vec::new();
                proof {
                    assert(all_bytes(sections@) =~= Seq::<Seq<u8>>::empty());
                }
                Ok((sections, sent.next))
            },
            Some((cid, block)) => {
                match self.add_block(cid, &block) {
                    Ok(sections) => Ok((sections, sent.next)),
                    Err(e) => Err(e),
                }
            },
        }
    }
}

impl LimitedCarFrames {
    /// Takes in what is sent, if there is room for it, hands out a chunk if that completes one, and
    /// goes on. If there is no room, all that is sent is sent.
    pub fn accept(&mut self, sent: Sent) -> (r: Result<(Option<Bytes>, Sending), Error>)
        ensures
            r is Ok,
            match sent.block {
                Some(block) => {
                    let (parts, data) = (block.0.parts(), bytes_of(block.1));
                    &&& some_bytes(r->Ok_0.0) == old(self)@.completes(parts, data)
                    &&& final(self)@ == old(self)@.with_block(parts, data)
                    &&& old(self)@.accepts(parts, data) ==> r->Ok_0.1 == sent.next
                    &&& !old(self)@.accepts(parts, data) ==> r->Ok_0.1 is Done
                },
                None => {
                    &&& r->Ok_0.0 is None && r->Ok_0.1 == sent.next
                    &&& final(self)@ == old(self)@
                },
            },
    {
        match sent.block {
            None => Ok((None, sent.next)),
            Some((cid, block)) => {
                match self.add_block(cid, &block) {
                    Ok((accepted, chunk)) => {
                        if accepted {
                            Ok((chunk, sent.next))
                        } else {
                            Ok((chunk, Sending::Done))
                        }
                    },
                    Err(e) => Err(e),
                }
            },
        }
    }
}

/// This is the streaming equivalent of [`block_send`]: blocks are to be framed one by one as a CAR
/// file of limited size.
pub fn block_send_car_stream(
    root: Cid,
    last_state: Option<ReceiverState>,
    send_limit: Option<usize>,
    prune_bloom_subgraphs: bool,
) -> (r: (Sending, CarWriting))
    requires
        last_state matches Some(state) ==> state.fits(),
    ensures
        exists|plan: SendPlan| #[trigger]
            plan.follows_from(last_state, prune_bloom_subgraphs) && send_begins(
                root,
                requested_roots(root, last_state),
                plan,
                r.0,
            ),
        r.1@ == CarProgress::empty(send_limit),
{
    (
        block_send_block_stream_pruning(root, last_state, prune_bloom_subgraphs),
        CarWriting::new(send_limit),
    )
}

/// This function is run on the block sending side of the protocol.
///
/// It's used on the client during the push protocol, or on the server
/// during the pull protocol.
///
/// It leads to a CAR file of (a subset) of all blocks below `root`, that
/// are thought to be missing on the receiving end.
pub fn block_send(root: Cid, last_state: Option<ReceiverState>, config: &Config) -> (r: (
    Sending,
    CarSink,
))
    requires
        last_state matches Some(state) ==> state.fits(),
    ensures
        exists|plan: SendPlan| #[trigger]
            plan.follows_from(last_state, config.bloom_implies_complete_subgraphs) && send_begins(
                root,
                requested_roots(root, last_state),
                plan,
                r.0,
            ),
        r.1@ == SinkState::empty(Some(config.receive_maximum)),
        r.1@.holds(Seq::empty()),
{
    let (sending, writing) = block_send_car_stream(
        root,
        last_state,
        Some(config.receive_maximum),
        config.bloom_implies_complete_subgraphs,
    );
    (sending, CarSink { writing, bytes: Vec::new() })
}

} // verus!
