//! What arriving blocks do to the receiving side, and what it tells the sending side in the end.
//!
//! A store is described by the links of the blocks that it holds.

use crate::bloom::{bloom_bits, bloom_hashes, bloom_with_all, in_bloom};
use crate::buffered::{BufferedBlockQuestion, BufferedReceiving};
use crate::cid::Cid;
use crate::cid_set::{ascending, in_order};
use crate::common::Config;
use crate::dag::reach;
use crate::error::{Error, IncrementalVerificationError};
use crate::exploration::{exploration_of, in_sight};
use crate::incremental_verification::{
    encodings, BlockState, DagState, IncrementalDagVerification,
};
use crate::ipld::{block_links, digest_of, hash_supported};
use crate::messages::{PullRequest, PushResponse};
use crate::payload::bytes_of;
use crate::receive::{BlockQuestion, BloomRequest, Receiving, StoreRequest};
use crate::receiver_state::ReceiverState;
use crate::receiving::{
    buffered_runs_know_their_store, is_buffered_run, is_run, links_of, results_in,
    runs_know_their_store, runs_take_in_what_arrives, taken_in, with_blocks, BufferedPosition,
    Position,
};
use bytes::Bytes;
use deterministic_bloom::runtime_size::BloomFilter;
use vstd::prelude::*;

verus! {

/// What the receiving side can come across in its store.
pub open spec fn sight_of(root: Cid, config: Config, store: Map<Cid, Seq<Cid>>) -> Set<Cid> {
    in_sight(set![root], config.skip_subgraph_roots@, store)
}

/// In sight is what can be reached from the root without going through a skip root.
pub proof fn sight_stops_at_skip_roots(root: Cid, config: Config, store: Map<Cid, Seq<Cid>>)
    ensures
        sight_of(root, config, store) == reach(
            set![root],
            store.remove_keys(config.skip_subgraph_roots@),
        ),
{
}

/// What is in sight and stored.
pub open spec fn held(root: Cid, config: Config, store: Map<Cid, Seq<Cid>>) -> Set<Cid> {
    Set::new(
        |c: Cid|
            sight_of(root, config, store).contains(c) && store.dom().contains(c)
                && !config.skip_subgraph_roots@.contains(c),
    )
}

/// What is in sight and not stored.
pub open spec fn missing(root: Cid, config: Config, store: Map<Cid, Seq<Cid>>) -> Set<Cid> {
    Set::new(
        |c: Cid|
            sight_of(root, config, store).contains(c) && !store.dom().contains(c)
                && !config.skip_subgraph_roots@.contains(c),
    )
}

/// Whether two bloom filters, or none, are alike.
pub open spec fn same_bloom(a: Option<BloomFilter>, b: Option<BloomFilter>) -> bool {
    match (a, b) {
        (Some(a), Some(b)) => bloom_hashes(a) == bloom_hashes(b) && bloom_bits(a) == bloom_bits(b),
        (None, None) => true,
        _ => false,
    }
}

/// Whether two states tell the same.
pub open spec fn same_state(a: ReceiverState, b: ReceiverState) -> bool {
    &&& a.missing_subgraph_roots@ == b.missing_subgraph_roots@
    &&& a.skip_subgraph_roots@ == b.skip_subgraph_roots@
    &&& same_bloom(a.have_cids_bloom, b.have_cids_bloom)
}

/// Whether a run takes in these blocks, with this store at first and that one in the end, and tells
/// this state.
pub open spec fn leads_to(
    root: Cid,
    config: Config,
    run: Seq<Position>,
    store: Map<Cid, Seq<Cid>>,
    blocks: Seq<(Cid, Bytes)>,
    empty_bloom: BloomFilter,
    after: Map<Cid, Seq<Cid>>,
    state: ReceiverState,
) -> bool {
    &&& is_run(root, config, run)
    &&& run[0].store == store && run[0].arriving == blocks
    &&& run.last().store == after
    &&& results_in(run.last().session, empty_bloom, state)
}

proof fn lemma_leads_to(
    root: Cid,
    config: Config,
    run: Seq<Position>,
    store: Map<Cid, Seq<Cid>>,
    blocks: Seq<(Cid, Bytes)>,
    empty_bloom: BloomFilter,
    after: Map<Cid, Seq<Cid>>,
    state: ReceiverState,
)
    requires
        leads_to(root, config, run, store, blocks, empty_bloom, after, state),
    ensures
        after == taken_in(root, config.skip_subgraph_roots@, store, blocks),
{
    runs_take_in_what_arrives(root, config, run);
}

/// What a run tells follows from the store that it ends with.
pub proof fn same_store_means_same_state(
    root: Cid,
    config: Config,
    one: Seq<Position>,
    other: Seq<Position>,
    empty_bloom: BloomFilter,
    state: ReceiverState,
    other_state: ReceiverState,
)
    requires
        is_run(root, config, one),
        is_run(root, config, other),
        one.last().store == other.last().store,
        results_in(one.last().session, empty_bloom, state),
        results_in(other.last().session, empty_bloom, other_state),
    ensures
        same_state(state, other_state),
{
    runs_take_in_what_arrives(root, config, one);
    runs_take_in_what_arrives(root, config, other);
}

/// Whether taking in blocks comes to an end before the last of them.
spec fn ends_within(
    root: Cid,
    skip_roots: Set<Cid>,
    store: Map<Cid, Seq<Cid>>,
    blocks: Seq<(Cid, Bytes)>,
) -> bool
    decreases blocks.len(),
{
    if blocks.len() == 0 {
        false
    } else {
        let (cid, rest) = (blocks[0].0, blocks.drop_first());
        match exploration_of(set![root], skip_roots, store).block_state(cid) {
            BlockState::Have => ends_within(root, skip_roots, store, rest),
            BlockState::Unexpected => true,
            BlockState::Want => ends_within(
                root,
                skip_roots,
                store.insert(cid, links_of(blocks[0])),
                rest,
            ),
        }
    }
}

proof fn lemma_taken_in_one_after_the_other(
    root: Cid,
    skip_roots: Set<Cid>,
    store: Map<Cid, Seq<Cid>>,
    a: Seq<(Cid, Bytes)>,
    b: Seq<(Cid, Bytes)>,
)
    ensures
        taken_in(root, skip_roots, store, a + b) == (if ends_within(root, skip_roots, store, a) {
            taken_in(root, skip_roots, store, a)
        } else {
            taken_in(root, skip_roots, taken_in(root, skip_roots, store, a), b)
        }),
    decreases a.len(),
{
    if a.len() == 0 {
        assert(a + b =~= b);
    } else {
        let rest = a.drop_first();
        assert((a + b).drop_first() =~= rest + b);
        assert((a + b)[0] == a[0]);
        lemma_taken_in_one_after_the_other(root, skip_roots, store, rest, b);
        lemma_taken_in_one_after_the_other(
            root,
            skip_roots,
            store.insert(a[0].0, links_of(a[0])),
            rest,
            b,
        );
    }
}

proof fn lemma_known_blocks_are_skipped(
    root: Cid,
    config: Config,
    store: Map<Cid, Seq<Cid>>,
    a: Seq<(Cid, Bytes)>,
    b: (Cid, Bytes),
    c: Seq<(Cid, Bytes)>,
)
    requires
        ({
            let after_a = taken_in(root, config.skip_subgraph_roots@, store, a);
            config.skip_subgraph_roots@.contains(b.0) || (sight_of(
                root,
                config,
                after_a,
            ).contains(b.0) && after_a.dom().contains(b.0))
        }),
    ensures
        taken_in(root, config.skip_subgraph_roots@, store, a + seq![b] + c) == taken_in(
            root,
            config.skip_subgraph_roots@,
            store,
            a + c,
        ),
{
    let skip_roots = config.skip_subgraph_roots@;
    assert(a + seq![b] + c =~= a + (seq![b] + c));
    lemma_taken_in_one_after_the_other(root, skip_roots, store, a, seq![b] + c);
    lemma_taken_in_one_after_the_other(root, skip_roots, store, a, c);
    assert((seq![b] + c).drop_first() =~= c);
    assert((seq![b] + c)[0] == b);
}

/// A block that is a skip root, or that is stored and in sight when it arrives, changes nothing:
/// neither what is stored in the end, nor what is told.
pub proof fn known_blocks_change_nothing(
    root: Cid,
    config: Config,
    store: Map<Cid, Seq<Cid>>,
    a: Seq<(Cid, Bytes)>,
    b: (Cid, Bytes),
    c: Seq<(Cid, Bytes)>,
    empty_bloom: BloomFilter,
    first: Seq<Position>,
    with: Seq<Position>,
    without: Seq<Position>,
    after_a: Map<Cid, Seq<Cid>>,
    after_with: Map<Cid, Seq<Cid>>,
    after_without: Map<Cid, Seq<Cid>>,
    state_a: ReceiverState,
    state_with: ReceiverState,
    state_without: ReceiverState,
)
    requires
        leads_to(root, config, first, store, a, empty_bloom, after_a, state_a),
        leads_to(root, config, with, store, a + seq![b] + c, empty_bloom, after_with, state_with),
        leads_to(root, config, without, store, a + c, empty_bloom, after_without, state_without),
        config.skip_subgraph_roots@.contains(b.0) || (sight_of(root, config, after_a).contains(b.0)
            && after_a.dom().contains(b.0)),
    ensures
        after_with == after_without,
        same_state(state_with, state_without),
{
    lemma_leads_to(root, config, first, store, a, empty_bloom, after_a, state_a);
    lemma_leads_to(
        root,
        config,
        with,
        store,
        a + seq![b] + c,
        empty_bloom,
        after_with,
        state_with,
    );
    lemma_leads_to(root, config, without, store, a + c, empty_bloom, after_without, state_without);
    lemma_known_blocks_are_skipped(root, config, store, a, b, c);
    same_store_means_same_state(
        root,
        config,
        with,
        without,
        empty_bloom,
        state_with,
        state_without,
    );
}

/// A block that is out of sight when it arrives, and no skip root, is the end of it: neither it nor
/// what follows is taken in.
pub proof fn unrelated_blocks_are_the_end(
    root: Cid,
    config: Config,
    store: Map<Cid, Seq<Cid>>,
    a: Seq<(Cid, Bytes)>,
    b: (Cid, Bytes),
    c: Seq<(Cid, Bytes)>,
    empty_bloom: BloomFilter,
    first: Seq<Position>,
    with: Seq<Position>,
    after_a: Map<Cid, Seq<Cid>>,
    after_with: Map<Cid, Seq<Cid>>,
    state_a: ReceiverState,
    state_with: ReceiverState,
)
    requires
        leads_to(root, config, first, store, a, empty_bloom, after_a, state_a),
        leads_to(root, config, with, store, a + seq![b] + c, empty_bloom, after_with, state_with),
        !config.skip_subgraph_roots@.contains(b.0),
        !sight_of(root, config, after_a).contains(b.0),
    ensures
        after_with == after_a,
        same_state(state_with, state_a),
{
    let skip_roots = config.skip_subgraph_roots@;
    lemma_leads_to(root, config, first, store, a, empty_bloom, after_a, state_a);
    lemma_leads_to(
        root,
        config,
        with,
        store,
        a + seq![b] + c,
        empty_bloom,
        after_with,
        state_with,
    );
    assert(a + seq![b] + c =~= a + (seq![b] + c));
    lemma_taken_in_one_after_the_other(root, skip_roots, store, a, seq![b] + c);
    assert((seq![b] + c)[0] == b);
    same_store_means_same_state(root, config, with, first, empty_bloom, state_with, state_a);
}

/// Whether each of some blocks is new and in sight by the time it arrives.
pub open spec fn all_useful(
    root: Cid,
    config: Config,
    store: Map<Cid, Seq<Cid>>,
    blocks: Seq<(Cid, Bytes)>,
) -> bool {
    forall|i: int|
        0 <= i < blocks.len() ==> missing(
            root,
            config,
            with_blocks(store, blocks.take(i)),
        ).contains((#[trigger] blocks[i]).0)
}

/// Blocks that are missing and in sight when they arrive are all stored, to the last one.
pub proof fn useful_blocks_are_all_stored(
    root: Cid,
    config: Config,
    store: Map<Cid, Seq<Cid>>,
    blocks: Seq<(Cid, Bytes)>,
    empty_bloom: BloomFilter,
    run: Seq<Position>,
    after: Map<Cid, Seq<Cid>>,
    state: ReceiverState,
)
    requires
        leads_to(root, config, run, store, blocks, empty_bloom, after, state),
        all_useful(root, config, store, blocks),
    ensures
        after == with_blocks(store, blocks),
{
    lemma_leads_to(root, config, run, store, blocks, empty_bloom, after, state);
    lemma_all_are_stored(root, config, store, blocks, 0);
    assert(blocks.skip(0) =~= blocks);
    assert(blocks.take(0) =~= Seq::<(Cid, Bytes)>::empty());
}

proof fn lemma_all_are_stored(
    root: Cid,
    config: Config,
    store: Map<Cid, Seq<Cid>>,
    blocks: Seq<(Cid, Bytes)>,
    i: int,
)
    requires
        all_useful(root, config, store, blocks),
        0 <= i <= blocks.len(),
    ensures
        taken_in(
            root,
            config.skip_subgraph_roots@,
            with_blocks(store, blocks.take(i)),
            blocks.skip(i),
        ) == with_blocks(store, blocks),
    decreases blocks.len() - i,
{
    if i < blocks.len() {
        let here = with_blocks(store, blocks.take(i));
        assert(missing(root, config, here).contains(blocks[i].0));
        assert(blocks.skip(i)[0] == blocks[i]);
        assert(blocks.skip(i).drop_first() =~= blocks.skip(i + 1));
        assert(blocks.take(i + 1).drop_last() =~= blocks.take(i));
        assert(blocks.take(i + 1).last() == blocks[i]);
        lemma_all_are_stored(root, config, store, blocks, i + 1);
    } else {
        assert(blocks.take(i) =~= blocks);
    }
}

/// What becomes of a block that arrives. If it is too large, that is an error. If it is a skip root or
/// stored and in sight, the next block is asked for. If it is out of sight, nothing more is taken in.
/// If it is missing and in sight, it is to be stored if its bytes have the digest that its CID gives,
/// and else that is an error.
pub proof fn arriving_blocks_are_judged(
    root: Cid,
    config: Config,
    run: Seq<Position>,
    i: int,
    cid: Cid,
    block: Bytes,
    r: Result<Receiving, Error>,
)
    requires
        is_run(root, config, run),
        0 <= i < run.len(),
        run[i].session is NextBlock,
        call_ensures(BlockQuestion::block, (run[i].session->NextBlock_0, cid, block), r),
    ensures
        ({
            let sight = sight_of(root, config, run[i].store);
            let code = cid.parts().hash_code;
            let data = bytes_of(block);
            if data.len() > config.max_block_size {
                r matches Err(Error::BlockSizeExceeded { cid: c, block_bytes, max_block_size })
                    && c == cid && block_bytes == data.len() && max_block_size
                    == config.max_block_size
            } else if config.skip_subgraph_roots@.contains(cid) || (sight.contains(cid)
                && run[i].store.dom().contains(cid)) {
                r matches Ok(next) && next is NextBlock
            } else if !sight.contains(cid) {
                r matches Ok(next) && (next is Bloom || next is Done)
            } else if !hash_supported(code) {
                r matches Err(Error::UnsupportedHashCode { cid: c }) && c == cid
            } else if digest_of(code, data) != cid.parts().digest {
                r matches Err(
                    Error::IncrementalVerificationError(
                        IncrementalVerificationError::DigestMismatch { cid: c, actual_cid },
                    ),
                ) && c == cid && actual_cid.parts().digest == digest_of(code, data)
            } else {
                r matches Ok(Receiving::Store(s)) && s.stores() == (cid, block)
            }
        }),
{
    runs_know_their_store(root, config, run, i);
}

/// What becomes of a block that arrives if blocks are captured: the same, going by the store with what was
/// captured put into it. Only that a block whose links cannot be read is an error at once.
#[verifier::rlimit(40)]
pub proof fn captured_blocks_are_judged(
    root: Cid,
    config: Config,
    store: Map<Cid, Seq<Cid>>,
    run: Seq<BufferedPosition>,
    i: int,
    cid: Cid,
    block: Bytes,
    r: Result<BufferedReceiving, Error>,
)
    requires
        is_buffered_run(root, config, store, run),
        0 <= i < run.len(),
        run[i].session is NextBlock,
        call_ensures(BufferedBlockQuestion::block, (run[i].session->NextBlock_0, cid, block), r),
    ensures
        ({
            let there = with_blocks(store, run[i].session->NextBlock_0.blocks());
            let sight = sight_of(root, config, there);
            let code = cid.parts().hash_code;
            let data = bytes_of(block);
            if data.len() > config.max_block_size {
                r matches Err(Error::BlockSizeExceeded { cid: c, block_bytes, max_block_size })
                    && c == cid && block_bytes == data.len() && max_block_size
                    == config.max_block_size
            } else if config.skip_subgraph_roots@.contains(cid) || (sight.contains(cid)
                && there.dom().contains(cid)) {
                r matches Ok(next) && next is NextBlock
            } else if !sight.contains(cid) {
                r matches Ok(next) && (next is Bloom || next is Done)
            } else if !hash_supported(code) {
                r matches Err(Error::UnsupportedHashCode { cid: c }) && c == cid
            } else if digest_of(code, data) != cid.parts().digest {
                r matches Err(
                    Error::IncrementalVerificationError(
                        IncrementalVerificationError::DigestMismatch { cid: c, actual_cid },
                    ),
                ) && c == cid && actual_cid.parts().digest == digest_of(code, data)
            } else if block_links(cid.parts().codec, data) is None {
                r matches Err(e) && e is ParsingError
            } else {
                r matches Ok(next) && (next is IsPresent || next is NextBlock)
            }
        }),
{
    buffered_runs_know_their_store(root, config, store, run, i);
}

/// A block that was stored is followed if its links can be read, and else that is an error.
pub proof fn stored_blocks_are_followed(s: StoreRequest, r: Result<Receiving, Error>)
    requires
        call_ensures(StoreRequest::stored, (s,), r),
    ensures
        r is Ok <==> block_links(s.stores().0.parts().codec, bytes_of(s.stores().1)) is Some,
        r is Err ==> r->Err_0 is ParsingError,
{
}

/// What a run tells in the end, going by the store that it ends with: some of what is missing, as much
/// as may be requested; all skip roots; and a bloom filter that holds all that is held, unless nothing
/// is held or nothing is missing.
#[verifier::rlimit(40)]
pub proof fn runs_tell_what_is_missing_and_held(
    root: Cid,
    config: Config,
    run: Seq<Position>,
    empty_bloom: BloomFilter,
    state: ReceiverState,
)
    requires
        is_run(root, config, run),
        results_in(run.last().session, empty_bloom, state),
    ensures
        ({
            let held = held(root, config, run.last().store);
            let missing = missing(root, config, run.last().store);
            let told = state.missing_subgraph_roots@;
            &&& told.no_duplicates() && ascending(told)
            &&& told.to_set().subset_of(missing)
            &&& missing.finite()
            &&& told.len() == (if missing.len() <= config.max_roots_per_round {
                missing.len() as int
            } else {
                config.max_roots_per_round as int
            })
            &&& missing.len() <= config.max_roots_per_round ==> told.to_set() == missing
            &&& forall|a: Cid, b: Cid|
                told.contains(a) && missing.contains(b) && !told.contains(b) ==> #[trigger] a.before(
                    b,
                )
            &&& ascending(state.skip_subgraph_roots@)
            &&& state.skip_subgraph_roots@.to_set() == config.skip_subgraph_roots@
            &&& state.have_cids_bloom is Some <==> (exists|c: Cid| held.contains(c)) && (exists|
                c: Cid,
            | missing.contains(c))
            &&& state.have_cids_bloom matches Some(bloom) ==> {
                &&& bloom_hashes(bloom) == bloom_hashes(empty_bloom)
                &&& bloom_bits(bloom).len() == bloom_bits(empty_bloom).len()
                &&& forall|c: Cid| #[trigger]
                    held.contains(c) ==> in_bloom(bloom, c.parts().encoding())
                &&& bloom_bits(bloom) == bloom_with_all(
                    bloom_hashes(empty_bloom),
                    bloom_bits(empty_bloom),
                    encodings(in_order(held)),
                )
            }
        }),
{
    let store = run.last().store;
    let dag = exploration_of(set![root], config.skip_subgraph_roots@, store);
    let all = in_order(dag.want);
    let told = state.missing_subgraph_roots@;
    runs_take_in_what_arrives(root, config, run);
    assert(held(root, config, store) =~= dag.have);
    assert(missing(root, config, store) =~= dag.want);
    vstd::seq_lib::seq_to_set_is_finite(all);
    all.unique_seq_to_set();
    assert forall|c: Cid| told.to_set().contains(c) implies dag.want.contains(c) by {
        let i = choose|i: int| 0 <= i < told.len() && told[i] == c;
        assert(all[i] == c);
        assert(all.to_set().contains(c));
    }
    if dag.have != Set::<Cid>::empty() {
        assert(exists|c: Cid| dag.have.contains(c)) by {
            if forall|c: Cid| !dag.have.contains(c) {
                assert(dag.have =~= Set::<Cid>::empty());
            }
        }
    }
    if dag.want != Set::<Cid>::empty() {
        assert(exists|c: Cid| dag.want.contains(c)) by {
            if forall|c: Cid| !dag.want.contains(c) {
                assert(dag.want =~= Set::<Cid>::empty());
            }
        }
    }
    if all.len() <= config.max_roots_per_round {
        assert(told == all);
    }
    assert forall|a: Cid, b: Cid|
        told.contains(a) && dag.want.contains(b) && !told.contains(b) implies #[trigger] a.before(
        b,
    ) by {
        let i = choose|i: int| 0 <= i < told.len() && told[i] == a;
        assert(all.to_set().contains(b));
        let j = choose|j: int| 0 <= j < all.len() && all[j] == b;
        if j < told.len() {
            assert(told[j] == b);
        }
        assert(all[i].before(all[j]));
    }
}

/// A bloom filter is asked for that has room for just what is held.
pub proof fn blooms_have_room_for_what_is_held(
    root: Cid,
    config: Config,
    run: Seq<Position>,
    capacity: u64,
)
    requires
        is_run(root, config, run),
        run.last().session is Bloom,
        call_ensures(BloomRequest::capacity, (&run.last().session->Bloom_0,), capacity),
    ensures
        capacity == held(root, config, run.last().store).len(),
{
    let store = run.last().store;
    runs_take_in_what_arrives(root, config, run);
    assert(held(root, config, store) =~= exploration_of(
        set![root],
        config.skip_subgraph_roots@,
        store,
    ).have);
}

/// Of a verification that holds something and misses something, a receiver state has a bloom filter of
/// all that is held, and of nothing else. Otherwise it has none.
pub proof fn receiver_states_have_blooms(
    verification: IncrementalDagVerification,
    capacity: Option<u64>,
    empty_bloom: Option<BloomFilter>,
    state: ReceiverState,
    h: Cid,
    w: Cid,
)
    requires
        call_ensures(IncrementalDagVerification::bloom_capacity, (&verification,), capacity),
        call_ensures(
            IncrementalDagVerification::into_receiver_state,
            (verification, empty_bloom),
            state,
        ),
    ensures
        ({
            let dag: DagState = verification@;
            &&& state.missing_subgraph_roots@.to_set() == dag.want
            &&& ascending(state.missing_subgraph_roots@)
            &&& state.skip_subgraph_roots@.to_set() == dag.boundary_hits
            &&& ascending(state.skip_subgraph_roots@)
            &&& dag.have.contains(h) && dag.want.contains(w) ==> {
                &&& capacity matches Some(n) && n == dag.have.len()
                &&& state.have_cids_bloom matches Some(bloom) && in_bloom(
                    bloom,
                    h.parts().encoding(),
                ) && bloom_hashes(bloom) == bloom_hashes(empty_bloom->0) && bloom_bits(bloom)
                    == bloom_with_all(
                    bloom_hashes(empty_bloom->0),
                    bloom_bits(empty_bloom->0),
                    encodings(in_order(dag.have)),
                )
            }
            &&& dag.have == Set::<Cid>::empty() || dag.want == Set::<Cid>::empty() ==> {
                &&& capacity is None
                &&& state.have_cids_bloom is None
            }
        }),
{
}

/// A request says that it is finished exactly if nothing is missing in sight. A limit of no roots at
/// all would hide what is missing.
pub proof fn finished_requests_mean_complete_stores(
    root: Cid,
    config: Config,
    run: Seq<Position>,
    empty_bloom: BloomFilter,
    state: ReceiverState,
    pull: PullRequest,
    push: PushResponse,
    pull_is_finished: bool,
    push_is_finished: bool,
)
    requires
        is_run(root, config, run),
        results_in(run.last().session, empty_bloom, state),
        config.max_roots_per_round > 0,
        call_ensures(<PullRequest as From<ReceiverState>>::from, (state,), pull),
        call_ensures(<PushResponse as From<ReceiverState>>::from, (state,), push),
        call_ensures(PullRequest::indicates_finished, (&pull,), pull_is_finished),
        call_ensures(PushResponse::indicates_finished, (&push,), push_is_finished),
    ensures
        ({
            let store = run.last().store;
            let complete = sight_of(root, config, store).subset_of(
                store.dom().union(config.skip_subgraph_roots@),
            );
            pull_is_finished == complete && push_is_finished == complete
        }),
{
    let store = run.last().store;
    let missing = missing(root, config, store);
    let sight = sight_of(root, config, store);
    let there = store.dom().union(config.skip_subgraph_roots@);
    runs_tell_what_is_missing_and_held(root, config, run, empty_bloom, state);
    if missing.len() == 0 {
        assert forall|c: Cid| sight.contains(c) implies there.contains(c) by {
            if !there.contains(c) {
                assert(missing.contains(c));
            }
        }
    } else {
        let c = missing.choose();
        assert(missing.contains(c));
    }
}

} // verus!
