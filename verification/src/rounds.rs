//! What a whole transfer achieves, over all of its rounds.
//!
//! A store is described by the links of the blocks that it holds.

use crate::block_walk::{WalkRules, WalkState};
use crate::bloom::in_bloom;
use crate::car::{
    all_readable, car_file_of, car_file_keeps_to_its_limit,
    car_files_start_with_the_first_block, car_prefix, chunks_make_a_car_file, chunks_of,
    files_and_streams_are_cut_alike, frame_readable, single_blocks_fit, stream_prefix,
    MAX_FRAMING,
};
use crate::cid::Cid;
use crate::cid_set::in_order;
use crate::dag::{reach, reach_contains_seeds, reach_is_closed, reach_is_least, reach_is_monotone};
use crate::error::Error;
use crate::exploration::{
    above, exploration_of, explored, explored_is_unique, in_sight, links_are_in_sight,
    sight_grows,
};
use crate::incremental_verification::{digest_matches, BlockState, DagState};
use crate::ipld::{block_links, hash_supported};
use crate::payload::bytes_of;
use crate::receive::{cannot_be_read, refuses, summary, takes_in, Receiving, Terms};
use crate::receiver_state::ReceiverState;
use crate::receiving::taken_in;
use crate::send::{walks_on, SendPlan, Sending};
use crate::sending::{
    concerns, walk_graph, walk_left, walk_run, walking, walks_get_shorter, walks_go_well,
    walks_send_the_first_root_first, what_is_needed_was_come_across,
};
use crate::subgraph_roots::{searching, SearchState};
use crate::transfer::{
    agree, all_requested_roots_are_found, finished_means_complete, known_of, lemma_received_grows,
    lemma_sent_is_in_sight, lemma_with_received, only_what_is_missing_is_requested,
    what_is_missing_is_below_the_root, with_received,
};
use bytes::Bytes;
use vstd::prelude::*;

verus! {

/// Whether a block is the one that the sending side stores under its CID, and nothing keeps the
/// receiving side from taking it in: its digest can be computed and is right, its links can be read,
/// and neither it nor its frame is too large.
pub open spec fn authentic(block: (Cid, Bytes), server: Map<Cid, Seq<Cid>>, terms: Terms) -> bool {
    &&& block.0.stored()
    &&& server.dom().contains(block.0)
    &&& hash_supported(block.0.parts().hash_code)
    &&& digest_matches(block.0, bytes_of(block.1))
    &&& block_links(block.0.parts().codec, bytes_of(block.1)) == Some(server[block.0])
    &&& bytes_of(block.1).len() <= terms.max_block_size
    &&& frame_readable(block.0.parts(), bytes_of(block.1))
}

/// The CIDs of some blocks.
pub open spec fn cids_of(blocks: Seq<(Cid, Bytes)>) -> Seq<Cid> {
    blocks.map_values(|block: (Cid, Bytes)| block.0)
}

/// The store of the receiving side once it was handed some blocks: wanted ones are stored, present
/// ones are skipped, and an unexpected one is the end of it.
pub open spec fn received(
    root: Cid,
    skip_roots: Set<Cid>,
    client: Map<Cid, Seq<Cid>>,
    server: Map<Cid, Seq<Cid>>,
    cids: Seq<Cid>,
) -> Map<Cid, Seq<Cid>>
    decreases cids.len(),
{
    if cids.len() == 0 {
        client
    } else {
        let cid = cids[0];
        match exploration_of(set![root], skip_roots, client).block_state(cid) {
            BlockState::Have => received(root, skip_roots, client, server, cids.drop_first()),
            BlockState::Unexpected => client,
            BlockState::Want => received(
                root,
                skip_roots,
                client.insert(cid, server[cid]),
                server,
                cids.drop_first(),
            ),
        }
    }
}

/// One round of a transfer.
pub struct Round {
    /// What the receiving side tells.
    pub state: ReceiverState,
    /// What the sending side makes of that.
    pub plan: SendPlan,
    /// The requested roots, in the order in which the sending side finds them.
    pub roots: Seq<Cid>,
    /// What the cache of the sending side answers.
    pub cached: Seq<bool>,
    /// All blocks that the sending side would send if there were no limit.
    pub blocks: Seq<(Cid, Bytes)>,
}

impl Round {
    /// What the walk of the sending side goes by.
    pub open spec fn rules(self) -> WalkRules {
        self.plan.rules(self.roots.to_set())
    }
}

/// Whether these are the roots that the sending side finds.
pub open spec fn finds(
    root: Cid,
    requested: Seq<Cid>,
    server: Map<Cid, Seq<Cid>>,
    roots: Seq<Cid>,
) -> bool {
    if requested == seq![root] {
        roots == requested
    } else {
        exists|search: SearchState| #[trigger]
            searching(search, root, server) && search.requested == requested.to_set() && (
            search.upcoming() is None || search.all_found()) && roots == search.found
    }
}

/// Whether a round goes by the rules: the receiving side tells what it misses, the sending side looks
/// for that below the root, and walks from there to the end. Nothing is said of the bloom filter.
pub open spec fn is_round(
    root: Cid,
    terms: Terms,
    client: Map<Cid, Seq<Cid>>,
    server: Map<Cid, Seq<Cid>>,
    round: Round,
) -> bool {
    let (state, sent) = walk_run(round.rules(), round.roots, server, round.cached);
    &&& summary(exploration_of(set![root], terms.skip_roots, client), terms, round.state)
    &&& finds(root, round.state.missing_subgraph_roots@, server, round.roots)
    &&& round.plan.skip_roots == round.state.skip_subgraph_roots@.to_set()
    &&& state.step(round.rules()).0 is Done
    &&& cids_of(round.blocks) == sent
    &&& forall|i: int|
        0 <= i < round.blocks.len() ==> authentic(#[trigger] round.blocks[i], server, terms)
}

/// Whether the sending side has all blocks below the root.
pub open spec fn has_all(root: Cid, server: Map<Cid, Seq<Cid>>) -> bool {
    server.dom().finite() && reach(set![root], server).subset_of(server.dom())
}

/// What the receiving side lacks of the blocks below the root, down to the skip roots.
pub open spec fn lacking(
    root: Cid,
    skip_roots: Set<Cid>,
    client: Map<Cid, Seq<Cid>>,
    server: Map<Cid, Seq<Cid>>,
) -> Set<Cid> {
    in_sight(set![root], skip_roots, server).difference(skip_roots).difference(client.dom())
}

/// Nothing is refused that the sending side has.
pub proof fn authentic_blocks_are_not_refused(
    block: (Cid, Bytes),
    server: Map<Cid, Seq<Cid>>,
    terms: Terms,
    dag: DagState,
    e: Error,
)
    requires
        authentic(block, server, terms),
    ensures
        !refuses(dag, terms, block.0, bytes_of(block.1), e),
        !cannot_be_read(block.0, bytes_of(block.1), e),
{
}

/// The sending side never looks in vain for a block when it searches for the requested roots.
pub proof fn searched_blocks_are_present(
    state: SearchState,
    root: Cid,
    server: Map<Cid, Seq<Cid>>,
)
    requires
        searching(state, root, server),
        has_all(root, server),
    ensures
        state.upcoming() matches Some(cid) ==> server.dom().contains(cid),
{
    let n = SearchState::known_prefix(state.visited, state.queue) as int;
    if n < state.queue.len() {
        assert(state.queue.to_set().contains(state.queue[n]));
    }
}

/// The sending side never looks in vain for a block when it walks.
pub proof fn walked_blocks_are_present(
    root: Cid,
    server: Map<Cid, Seq<Cid>>,
    rules: WalkRules,
    roots: Seq<Cid>,
    cached: Seq<bool>,
    cid: Cid,
)
    requires
        has_all(root, server),
        roots.to_set().subset_of(reach(set![root], server)),
        concerns(walk_run(rules, roots, server, cached).0.step(rules).0, cid),
    ensures
        server.dom().contains(cid),
{
    lemma_walk_stays_below(root, server, rules, roots.to_set());
    walks_go_well(rules, roots, server, cached);
    let (state, sent) = walk_run(rules, roots, server, cached);
    what_is_needed_was_come_across(state, rules, roots.to_set(), server, sent);
}

/// The sending side runs a walk as [`walk_run`] says, if it is answered rightly.
pub proof fn answers_run_the_walk(
    rules: WalkRules,
    roots: Seq<Cid>,
    server: Map<Cid, Seq<Cid>>,
    cached: Seq<bool>,
    r: Sending,
)
    requires
        walks_on(walk_run(rules, roots, server, cached).0, rules, r),
    ensures
        ({
            let (state, sent) = walk_run(rules, roots, server, cached);
            match r {
                Sending::CachedLinksOf(q) => {
                    &&& server.dom().contains(q.asks()) ==> walk_run(
                        rules,
                        roots,
                        server,
                        cached.push(true),
                    ) == (q.walk().expanded(server[q.asks()]), sent)
                    &&& walk_run(rules, roots, server, cached.push(false)) == (
                        q.walk().set_down(q.asks()),
                        sent,
                    )
                },
                Sending::BytesOf(q) => forall|hit: bool|
                    {
                        let goes_on = rules.follows(q.asks()) && server.dom().contains(q.asks());
                        #[trigger] walk_run(rules, roots, server, cached.push(hit)) == (
                            if goes_on {
                                q.walk().expanded(server[q.asks()])
                            } else {
                                q.walk()
                            },
                            if q.emits() {
                                sent.push(q.asks())
                            } else {
                                sent
                            },
                        )
                    },
                _ => state.step(rules).0 is Done,
            }
        }),
{
    assert(cached.push(true).drop_last() =~= cached);
    assert(cached.push(false).drop_last() =~= cached);
}

/// A walk of the sending side comes to an end, whatever the cache answers. How long it takes is
/// limited by the number of blocks that the sending side has.
pub proof fn walks_come_to_an_end(
    root: Cid,
    server: Map<Cid, Seq<Cid>>,
    rules: WalkRules,
    roots: Seq<Cid>,
    cached: Seq<bool>,
)
    requires
        has_all(root, server),
        roots.to_set().subset_of(reach(set![root], server)),
        forall|n: int|
            0 <= n < cached.len() ==> !(#[trigger] walk_run(
                rules,
                roots,
                server,
                cached.take(n),
            ).0.step(rules).0 is Done),
    ensures
        cached.len() + walk_left(walk_run(rules, roots, server, cached).0, server.dom())
            <= walk_left(WalkState::initial(roots), server.dom()),
    decreases cached.len(),
{
    if cached.len() > 0 {
        let before = cached.drop_last();
        let (state, sent) = walk_run(rules, roots, server, before);
        assert(before =~= cached.take(cached.len() - 1));
        assert forall|n: int| 0 <= n < before.len() implies !(#[trigger] walk_run(
            rules,
            roots,
            server,
            before.take(n),
        ).0.step(rules).0 is Done) by {
            assert(before.take(n) =~= cached.take(n));
        }
        walks_come_to_an_end(root, server, rules, roots, before);
        lemma_walk_stays_below(root, server, rules, roots.to_set());
        walks_go_well(rules, roots, server, before);
        what_is_needed_was_come_across(state, rules, roots.to_set(), server, sent);
        reach_is_closed(set![root], server);
        assert forall|c: Cid| #[trigger]
            concerns(state.step(rules).0, c) implies server[c].to_set().subset_of(
            server.dom(),
        ) by {
            assert(reach(set![root], server).contains(c));
            assert forall|d: Cid| server[c].to_set().contains(d) implies server.dom().contains(
                d,
            ) by {
                assert(server[c].contains(d));
            }
        }
        walks_get_shorter(state, rules, server, cached.last(), server.dom());
    }
}

proof fn lemma_walk_stays_below(
    root: Cid,
    server: Map<Cid, Seq<Cid>>,
    rules: WalkRules,
    roots: Set<Cid>,
)
    requires
        has_all(root, server),
        roots.subset_of(reach(set![root], server)),
    ensures
        reach(roots, walk_graph(rules, server)).subset_of(reach(set![root], server)),
        reach(roots, walk_graph(rules, server)).subset_of(server.dom()),
{
    let graph = walk_graph(rules, server);
    let all = reach(set![root], server);
    reach_is_closed(set![root], server);
    assert forall|c: Cid, d: Cid|
        all.contains(c) && graph.dom().contains(c) && #[trigger] graph[c].contains(d) implies
        all.contains(d) by {
        assert(server.dom().contains(c));
        assert(server[c].contains(d));
    }
    reach_is_least(roots, graph, all);
}

/// The receiving side takes in blocks as [`received`] says.
pub proof fn blocks_are_taken_in_one_by_one(
    root: Cid,
    dag: DagState,
    terms: Terms,
    client: Map<Cid, Seq<Cid>>,
    server: Map<Cid, Seq<Cid>>,
    block: (Cid, Bytes),
    more: Seq<Cid>,
    next: Receiving,
)
    requires
        explored(dag, set![root], client),
        takes_in(dag, terms, block.0, block.1, next),
    ensures
        ({
            let cids = seq![block.0] + more;
            let skip_roots = dag.boundary;
            match next {
                Receiving::NextBlock(_) => received(root, skip_roots, client, server, cids)
                    == received(root, skip_roots, client, server, more),
                Receiving::Store(_) => received(root, skip_roots, client, server, cids)
                    == received(
                    root,
                    skip_roots,
                    client.insert(block.0, server[block.0]),
                    server,
                    more,
                ),
                _ => received(root, skip_roots, client, server, cids) == client,
            }
        }),
{
    explored_is_unique(dag, set![root], client);
    assert((seq![block.0] + more).drop_first() =~= more);
}

/// What blocks of the sending side bring the receiving side to store is what it makes of them itself.
pub proof fn authentic_blocks_are_taken_in(
    root: Cid,
    terms: Terms,
    client: Map<Cid, Seq<Cid>>,
    server: Map<Cid, Seq<Cid>>,
    blocks: Seq<(Cid, Bytes)>,
)
    requires
        forall|i: int| 0 <= i < blocks.len() ==> authentic(#[trigger] blocks[i], server, terms),
    ensures
        taken_in(root, terms.skip_roots, client, blocks) == received(
            root,
            terms.skip_roots,
            client,
            server,
            cids_of(blocks),
        ),
    decreases blocks.len(),
{
    if blocks.len() > 0 {
        let (cid, rest) = (blocks[0].0, blocks.drop_first());
        assert(authentic(blocks[0], server, terms));
        assert(cids_of(blocks)[0] == cid);
        assert(cids_of(blocks).drop_first() =~= cids_of(rest));
        assert forall|i: int| 0 <= i < rest.len() implies authentic(
            #[trigger] rest[i],
            server,
            terms,
        ) by {
            assert(rest[i] == blocks[i + 1]);
        }
        authentic_blocks_are_taken_in(root, terms, client, server, rest);
        authentic_blocks_are_taken_in(
            root,
            terms,
            client.insert(cid, server[cid]),
            server,
            rest,
        );
    }
}

proof fn lemma_received(
    root: Cid,
    skip_roots: Set<Cid>,
    client: Map<Cid, Seq<Cid>>,
    server: Map<Cid, Seq<Cid>>,
    cids: Seq<Cid>,
)
    requires
        client.submap_of(server),
        forall|i: int| 0 <= i < cids.len() ==> server.dom().contains(#[trigger] cids[i]),
    ensures
        client.submap_of(received(root, skip_roots, client, server, cids)),
        received(root, skip_roots, client, server, cids).submap_of(server),
    decreases cids.len(),
{
    if cids.len() > 0 {
        let cid = cids[0];
        let rest = cids.drop_first();
        let larger = client.insert(cid, server[cid]);
        assert forall|i: int| 0 <= i < rest.len() implies server.dom().contains(
            #[trigger] rest[i],
        ) by {
            assert(rest[i] == cids[i + 1]);
        }
        assert(larger.submap_of(server)) by {
            assert(server.dom().contains(cids[0]));
        }
        assert(client.submap_of(larger)) by {
            assert forall|c: Cid| #[trigger] client.dom().contains(c) implies larger.dom().contains(
                c,
            ) && larger[c] == client[c] by {
                assert(server.dom().contains(c));
            }
        }
        lemma_received(root, skip_roots, client, server, rest);
        lemma_received(root, skip_roots, larger, server, rest);
        let after = received(root, skip_roots, larger, server, rest);
        assert forall|c: Cid| #[trigger] client.dom().contains(c) implies after.dom().contains(c)
            && after[c] == client[c] by {
            assert(larger.dom().contains(c));
        }
    }
}

/// What a round that goes by the rules has found out.
proof fn lemma_round(
    root: Cid,
    terms: Terms,
    client: Map<Cid, Seq<Cid>>,
    server: Map<Cid, Seq<Cid>>,
    round: Round,
)
    requires
        client.submap_of(server),
        has_all(root, server),
        is_round(root, terms, client, server, round),
    ensures
        ({
            let dag = exploration_of(set![root], terms.skip_roots, client);
            let (state, sent) = walk_run(round.rules(), round.roots, server, round.cached);
            &&& explored(dag, set![root], client)
            &&& round.roots.to_set() == round.state.missing_subgraph_roots@.to_set()
            &&& round.roots.to_set().subset_of(dag.want)
            &&& round.rules().skip_roots == terms.skip_roots
            &&& walking(state, round.rules(), round.roots.to_set(), server, sent)
            &&& forall|i: int| 0 <= i < sent.len() ==> server.dom().contains(#[trigger] sent[i])
        }),
{
    let dag = exploration_of(set![root], terms.skip_roots, client);
    let requested = round.state.missing_subgraph_roots@;
    let (state, sent) = walk_run(round.rules(), round.roots, server, round.cached);
    assert forall|c: Cid| requested.to_set().contains(c) implies dag.want.contains(c) by {
        only_what_is_missing_is_requested(dag, terms, round.state, root, client, c);
    }
    vstd::seq_lib::seq_to_set_is_finite(requested);
    if requested != seq![root] {
        let search = choose|search: SearchState| #[trigger]
            searching(search, root, server) && search.requested == requested.to_set() && (
            search.upcoming() is None || search.all_found()) && round.roots == search.found;
        all_requested_roots_are_found(dag, root, client, server, search);
    }
    what_is_missing_is_below_the_root(dag, root, client, server);
    lemma_walk_stays_below(root, server, round.rules(), round.roots.to_set());
    walks_go_well(round.rules(), round.roots, server, round.cached);
    assert forall|i: int| 0 <= i < sent.len() implies server.dom().contains(#[trigger] sent[i]) by {
        assert(round.blocks[i].0 == cids_of(round.blocks)[i]);
        assert(authentic(round.blocks[i], server, terms));
    }
}

proof fn lemma_lacking_is_finite(
    root: Cid,
    skip_roots: Set<Cid>,
    client: Map<Cid, Seq<Cid>>,
    server: Map<Cid, Seq<Cid>>,
)
    requires
        has_all(root, server),
    ensures
        lacking(root, skip_roots, client, server).finite(),
        lacking(root, skip_roots, client, server).subset_of(server.dom()),
{
    assert(above(skip_roots, server).submap_of(server));
    reach_is_monotone(set![root], above(skip_roots, server), set![root], server);
    vstd::set_lib::lemma_len_subset(
        lacking(root, skip_roots, client, server),
        server.dom(),
    );
}

/// Every round that requests something leaves the receiving side lacking less, however small the
/// limit and whatever the bloom filter says.
pub proof fn every_round_leaves_less_to_do(
    root: Cid,
    terms: Terms,
    size_limit: Option<usize>,
    client: Map<Cid, Seq<Cid>>,
    server: Map<Cid, Seq<Cid>>,
    round: Round,
)
    requires
        client.submap_of(server),
        has_all(root, server),
        is_round(root, terms, client, server, round),
        round.state.missing_subgraph_roots@.len() > 0,
    ensures
        ({
            let got = car_prefix(round.blocks, size_limit);
            let after = received(root, terms.skip_roots, client, server, cids_of(got));
            &&& client.submap_of(after)
            &&& after.submap_of(server)
            &&& lacking(root, terms.skip_roots, after, server).len() < lacking(
                root,
                terms.skip_roots,
                client,
                server,
            ).len()
        }),
{
    let skip_roots = terms.skip_roots;
    let dag = exploration_of(set![root], skip_roots, client);
    let requested = round.state.missing_subgraph_roots@;
    let got = car_prefix(round.blocks, size_limit);
    let cids = cids_of(got);
    let after = received(root, skip_roots, client, server, cids);
    let before = lacking(root, skip_roots, client, server);
    lemma_round(root, terms, client, server, round);
    car_files_start_with_the_first_block(round.blocks, size_limit);
    assert(round.roots.to_set().contains(requested[0]));
    assert(round.roots.len() > 0);
    walks_send_the_first_root_first(round.rules(), round.roots, server, round.cached);
    let first = round.roots[0];
    assert(cids_of(round.blocks)[0] == first);
    assert(round.blocks[0].0 == first);
    assert(cids[0] == first);
    assert(round.roots.to_set().contains(first));
    assert(dag.want.contains(first));
    assert forall|i: int| 0 <= i < cids.len() implies server.dom().contains(#[trigger] cids[i]) by {
        assert(got[i] == round.blocks[i]);
        assert(authentic(round.blocks[i], server, terms));
    }
    lemma_received(root, skip_roots, client, server, cids);
    let rest = cids.drop_first();
    assert forall|i: int| 0 <= i < rest.len() implies server.dom().contains(#[trigger] rest[i]) by {
        assert(rest[i] == cids[i + 1]);
    }
    let larger = client.insert(first, server[first]);
    assert(larger.submap_of(server)) by {
        assert(server.dom().contains(cids[0]));
    }
    lemma_received(root, skip_roots, larger, server, rest);
    assert(larger.dom().contains(first));
    assert(after.dom().contains(first));
    sight_grows(set![root], skip_roots, client, server);
    lemma_lacking_is_finite(root, skip_roots, client, server);
    let left = lacking(root, skip_roots, after, server);
    assert(before.contains(first));
    assert forall|c: Cid| left.contains(c) implies before.remove(first).contains(c) by {
        if client.dom().contains(c) {
            assert(after.dom().contains(c));
        }
    }
    vstd::set_lib::lemma_len_subset(left, before.remove(first));
}

/// Whether all that is present on the receiving side is in its sight.
pub open spec fn nothing_hidden(
    root: Cid,
    skip_roots: Set<Cid>,
    client: Map<Cid, Seq<Cid>>,
    server: Map<Cid, Seq<Cid>>,
) -> bool {
    forall|c: Cid| #[trigger]
        client.dom().contains(c) && in_sight(set![root], skip_roots, server).contains(c)
            && !skip_roots.contains(c) ==> in_sight(set![root], skip_roots, client).contains(c)
}

/// Whether the bloom filter holds, of what the sending side knows of, exactly what is present on the
/// receiving side.
pub open spec fn exact_bloom(
    rules: WalkRules,
    dag: DagState,
    root: Cid,
    server: Map<Cid, Seq<Cid>>,
) -> bool {
    forall|c: Cid|
        known_of(root, server).contains(c) ==> (#[trigger] in_bloom(
            rules.bloom,
            c.parts().encoding(),
        ) <==> dag.have.contains(c))
}

proof fn lemma_sent_is_lacking(
    root: Cid,
    terms: Terms,
    client: Map<Cid, Seq<Cid>>,
    server: Map<Cid, Seq<Cid>>,
    round: Round,
    i: int,
)
    requires
        client.submap_of(server),
        has_all(root, server),
        is_round(root, terms, client, server, round),
        exact_bloom(
            round.rules(),
            exploration_of(set![root], terms.skip_roots, client),
            root,
            server,
        ),
        nothing_hidden(root, terms.skip_roots, client, server),
        0 <= i < round.blocks.len(),
    ensures
        ({
            let sent = cids_of(round.blocks);
            let store = with_received(client, server, sent.take(i));
            &&& in_sight(set![root], terms.skip_roots, store).contains(sent[i])
            &&& lacking(root, terms.skip_roots, client, server).contains(sent[i])
            &&& !store.dom().contains(sent[i])
            &&& store.submap_of(server)
            &&& sent.no_duplicates()
            &&& forall|j: int| 0 <= j < sent.len() ==> server.dom().contains(#[trigger] sent[j])
        }),
{
    let skip_roots = terms.skip_roots;
    let dag = exploration_of(set![root], skip_roots, client);
    let rules = round.rules();
    let roots = round.roots.to_set();
    let (state, sent) = walk_run(rules, round.roots, server, round.cached);
    let store = with_received(client, server, sent.take(i));
    lemma_round(root, terms, client, server, round);
    assert(agree(dag, root, client, server, roots, rules));
    lemma_sent_is_in_sight(dag, root, client, server, roots, rules, state, sent, i);
    assert forall|j: int| 0 <= j < i implies server.dom().contains(#[trigger] sent.take(i)[j]) by {
        assert(sent.take(i)[j] == sent[j]);
    }
    lemma_with_received(client, server, sent.take(i));
    sight_grows(set![root], skip_roots, store, server);
    assert(sent.contains(sent[i]));
    assert(rules.sends(sent[i]));
    if sent.take(i).to_set().contains(sent[i]) {
        let j = choose|j: int| 0 <= j < sent.take(i).len() && sent.take(i)[j] == sent[i];
        assert(sent[j] == sent[i]);
    }
    if roots.contains(sent[i]) {
        assert(dag.want.contains(sent[i]));
    }
    assert(!skip_roots.contains(sent[i]));
    assert(!client.dom().contains(sent[i]));
}

proof fn lemma_all_is_taken_in(
    root: Cid,
    terms: Terms,
    client: Map<Cid, Seq<Cid>>,
    server: Map<Cid, Seq<Cid>>,
    round: Round,
    i: int,
    n: int,
)
    requires
        client.submap_of(server),
        has_all(root, server),
        is_round(root, terms, client, server, round),
        exact_bloom(
            round.rules(),
            exploration_of(set![root], terms.skip_roots, client),
            root,
            server,
        ),
        nothing_hidden(root, terms.skip_roots, client, server),
        0 <= i <= n <= round.blocks.len(),
    ensures
        ({
            let sent = cids_of(round.blocks);
            received(
                root,
                terms.skip_roots,
                with_received(client, server, sent.take(i)),
                server,
                sent.subrange(i, n),
            ) == with_received(client, server, sent.take(n))
        }),
    decreases n - i,
{
    let sent = cids_of(round.blocks);
    if i < n {
        let rest = sent.subrange(i, n);
        lemma_sent_is_lacking(root, terms, client, server, round, i);
        lemma_all_is_taken_in(root, terms, client, server, round, i + 1, n);
        assert(sent.take(i + 1).drop_last() =~= sent.take(i));
        assert(sent.take(i + 1).last() == sent[i]);
        assert(rest[0] == sent[i]);
        assert(rest.drop_first() =~= sent.subrange(i + 1, n));
    }
}

/// With a bloom filter that is neither incomplete nor wrong, a round brings nothing but blocks that
/// the receiving side lacks, and none of them twice. It stores them all.
///
/// Blocks that are present, but only below others that are not, are left out here: the receiving side
/// does not know of them.
pub proof fn rounds_bring_only_what_is_lacking(
    root: Cid,
    terms: Terms,
    size_limit: Option<usize>,
    client: Map<Cid, Seq<Cid>>,
    server: Map<Cid, Seq<Cid>>,
    round: Round,
)
    requires
        client.submap_of(server),
        has_all(root, server),
        is_round(root, terms, client, server, round),
        exact_bloom(
            round.rules(),
            exploration_of(set![root], terms.skip_roots, client),
            root,
            server,
        ),
        nothing_hidden(root, terms.skip_roots, client, server),
    ensures
        ({
            let skip_roots = terms.skip_roots;
            let got = cids_of(car_prefix(round.blocks, size_limit));
            let after = received(root, skip_roots, client, server, got);
            &&& got.no_duplicates()
            &&& got.to_set().subset_of(lacking(root, skip_roots, client, server))
            &&& after == with_received(client, server, got)
            &&& lacking(root, skip_roots, after, server) == lacking(
                root,
                skip_roots,
                client,
                server,
            ).difference(got.to_set())
            &&& lacking(root, skip_roots, after, server).len() + got.len() == lacking(
                root,
                skip_roots,
                client,
                server,
            ).len()
            &&& nothing_hidden(root, skip_roots, after, server)
        }),
{
    let skip_roots = terms.skip_roots;
    let sent = cids_of(round.blocks);
    let prefix = car_prefix(round.blocks, size_limit);
    let got = cids_of(prefix);
    let n = prefix.len() as int;
    let after = received(root, skip_roots, client, server, got);
    let before = lacking(root, skip_roots, client, server);
    let left = lacking(root, skip_roots, after, server);
    car_files_start_with_the_first_block(round.blocks, size_limit);
    assert(got =~= sent.take(n));
    assert(sent.subrange(0, n) =~= got);
    assert(sent.take(0) =~= Seq::<Cid>::empty());
    lemma_all_is_taken_in(root, terms, client, server, round, 0, n);
    assert(after == with_received(client, server, got));
    assert forall|i: int| 0 <= i < got.len() implies #[trigger] before.contains(got[i])
        && server.dom().contains(got[i]) by {
        lemma_sent_is_lacking(root, terms, client, server, round, i);
        assert(got[i] == sent[i]);
    }
    assert(got.no_duplicates()) by {
        if round.blocks.len() > 0 {
            lemma_sent_is_lacking(root, terms, client, server, round, 0);
        }
    }
    assert forall|i: int| 0 <= i < got.len() implies server.dom().contains(#[trigger] got[i]) by {
        assert(before.contains(got[i]));
    }
    lemma_with_received(client, server, got);
    assert forall|c: Cid| got.to_set().contains(c) implies before.contains(c) by {
        let i = choose|i: int| 0 <= i < got.len() && got[i] == c;
        assert(before.contains(got[i]));
    }
    assert(left =~= before.difference(got.to_set()));
    lemma_lacking_is_finite(root, skip_roots, client, server);
    vstd::seq_lib::seq_to_set_is_finite(got);
    got.unique_seq_to_set();
    assert(before =~= left.union(got.to_set()));
    assert(left.disjoint(got.to_set()));
    vstd::set_lib::lemma_len_subset(left, before);
    vstd::set_lib::lemma_set_disjoint_lens(left, got.to_set());
    sight_grows(set![root], skip_roots, client, after);
    assert forall|c: Cid| #[trigger]
        after.dom().contains(c) && in_sight(set![root], skip_roots, server).contains(c)
            && !skip_roots.contains(c) implies in_sight(set![root], skip_roots, after).contains(c) by {
        if client.dom().contains(c) {
            assert(in_sight(set![root], skip_roots, client).contains(c));
        } else {
            assert(got.to_set().contains(c));
            let i = choose|i: int| 0 <= i < got.len() && got[i] == c;
            lemma_sent_is_lacking(root, terms, client, server, round, i);
            let store = with_received(client, server, sent.take(i));
            lemma_received_grows(client, server, sent, i, n);
            sight_grows(set![root], skip_roots, store, after);
        }
    }
}

/// When the receiving side requests nothing, it has all that the sending side has below the root,
/// down to the skip roots, and without skip roots the same graph is below the root on both sides.
pub proof fn nothing_requested_means_same_graph(
    root: Cid,
    terms: Terms,
    client: Map<Cid, Seq<Cid>>,
    server: Map<Cid, Seq<Cid>>,
    state: ReceiverState,
)
    requires
        client.submap_of(server),
        summary(exploration_of(set![root], terms.skip_roots, client), terms, state),
        state.missing_subgraph_roots@.len() == 0,
        terms.max_roots > 0,
    ensures
        in_sight(set![root], terms.skip_roots, server).subset_of(
            client.dom().union(terms.skip_roots),
        ),
        lacking(root, terms.skip_roots, client, server) == Set::<Cid>::empty(),
        terms.skip_roots == Set::<Cid>::empty() ==> reach(set![root], client) == reach(
            set![root],
            server,
        ) && reach(set![root], server).subset_of(client.dom()),
{
    let skip_roots = terms.skip_roots;
    let dag = exploration_of(set![root], skip_roots, client);
    let sight = in_sight(set![root], skip_roots, client);
    let all = above(skip_roots, server);
    finished_means_complete(dag, terms, state, root, client);
    reach_contains_seeds(set![root], above(skip_roots, client));
    assert forall|c: Cid, d: Cid|
        sight.contains(c) && all.dom().contains(c) && #[trigger] all[c].contains(d) implies
        sight.contains(d) by {
        assert(server.dom().contains(c) && !skip_roots.contains(c));
        assert(client.dom().contains(c));
        assert(client[c] == server[c]);
        links_are_in_sight(set![root], skip_roots, client, c, d);
    }
    reach_is_least(set![root], all, sight);
    sight_grows(set![root], skip_roots, client, server);
    assert(lacking(root, skip_roots, client, server) =~= Set::<Cid>::empty());
    if skip_roots == Set::<Cid>::empty() {
        assert(above(skip_roots, server) =~= server);
        assert(above(skip_roots, client) =~= client);
        assert(reach(set![root], client) =~= reach(set![root], server));
    }
}

/// When the receiving side lacks nothing, it requests nothing.
pub proof fn nothing_lacking_means_nothing_requested(
    root: Cid,
    terms: Terms,
    client: Map<Cid, Seq<Cid>>,
    server: Map<Cid, Seq<Cid>>,
    state: ReceiverState,
)
    requires
        client.submap_of(server),
        summary(exploration_of(set![root], terms.skip_roots, client), terms, state),
        lacking(root, terms.skip_roots, client, server) == Set::<Cid>::empty(),
    ensures
        state.missing_subgraph_roots@.len() == 0,
{
    let dag = exploration_of(set![root], terms.skip_roots, client);
    let missing = in_order(dag.want);
    sight_grows(set![root], terms.skip_roots, client, server);
    if missing.len() > 0 {
        assert(missing.to_set().contains(missing[0]));
        assert(lacking(root, terms.skip_roots, client, server).contains(missing[0]));
    }
}

/// Whether a transfer has a round that requests something between two stores, and the second is the
/// first with what goes into a CAR file, which may be of limited size.
pub open spec fn buffered_round(
    root: Cid,
    terms: Terms,
    size_limit: Option<usize>,
    server: Map<Cid, Seq<Cid>>,
    stores: Seq<Map<Cid, Seq<Cid>>>,
    rounds: Seq<Round>,
    i: int,
) -> bool {
    &&& is_round(root, terms, stores[i], server, rounds[i])
    &&& rounds[i].state.missing_subgraph_roots@.len() > 0
    &&& stores[i + 1] == received(
        root,
        terms.skip_roots,
        stores[i],
        server,
        cids_of(car_prefix(rounds[i].blocks, size_limit)),
    )
}

/// Like [`buffered_round`], but with what goes into a CAR stream.
pub open spec fn streamed_round(
    root: Cid,
    terms: Terms,
    size_limit: Option<usize>,
    server: Map<Cid, Seq<Cid>>,
    stores: Seq<Map<Cid, Seq<Cid>>>,
    rounds: Seq<Round>,
    i: int,
) -> bool {
    &&& is_round(root, terms, stores[i], server, rounds[i])
    &&& rounds[i].state.missing_subgraph_roots@.len() > 0
    &&& stores[i + 1] == received(
        root,
        terms.skip_roots,
        stores[i],
        server,
        cids_of(stream_prefix(rounds[i].blocks, size_limit)),
    )
}

proof fn lemma_rounds_count(
    root: Cid,
    terms: Terms,
    size_limit: Option<usize>,
    server: Map<Cid, Seq<Cid>>,
    stores: Seq<Map<Cid, Seq<Cid>>>,
    rounds: Seq<Round>,
    n: int,
)
    requires
        has_all(root, server),
        stores.len() == rounds.len() + 1,
        stores[0].submap_of(server),
        0 <= n <= rounds.len(),
        forall|i: int|
            0 <= i < rounds.len() ==> #[trigger] buffered_round(
                root,
                terms,
                size_limit,
                server,
                stores,
                rounds,
                i,
            ),
    ensures
        stores[n].submap_of(server),
        lacking(root, terms.skip_roots, stores[n], server).len() + n <= lacking(
            root,
            terms.skip_roots,
            stores[0],
            server,
        ).len(),
    decreases n,
{
    if n > 0 {
        lemma_rounds_count(root, terms, size_limit, server, stores, rounds, n - 1);
        assert(buffered_round(root, terms, size_limit, server, stores, rounds, n - 1));
        every_round_leaves_less_to_do(
            root,
            terms,
            size_limit,
            stores[n - 1],
            server,
            rounds[n - 1],
        );
    }
}

/// How many blocks some rounds transfer, if each sends what goes into a CAR file.
pub open spec fn blocks_transferred(rounds: Seq<Round>, size_limit: Option<usize>) -> nat
    decreases rounds.len(),
{
    if rounds.len() == 0 {
        0
    } else {
        blocks_transferred(rounds.drop_last(), size_limit) + car_prefix(
            rounds.last().blocks,
            size_limit,
        ).len()
    }
}

proof fn lemma_blocks_count(
    root: Cid,
    terms: Terms,
    size_limit: Option<usize>,
    server: Map<Cid, Seq<Cid>>,
    stores: Seq<Map<Cid, Seq<Cid>>>,
    rounds: Seq<Round>,
    n: int,
)
    requires
        has_all(root, server),
        stores.len() == rounds.len() + 1,
        stores[0].submap_of(server),
        nothing_hidden(root, terms.skip_roots, stores[0], server),
        0 <= n <= rounds.len(),
        forall|i: int|
            0 <= i < rounds.len() ==> #[trigger] buffered_round(
                root,
                terms,
                size_limit,
                server,
                stores,
                rounds,
                i,
            ) && exact_bloom(
                rounds[i].rules(),
                exploration_of(set![root], terms.skip_roots, stores[i]),
                root,
                server,
            ),
    ensures
        nothing_hidden(root, terms.skip_roots, stores[n], server),
        lacking(root, terms.skip_roots, stores[n], server).len() + blocks_transferred(
            rounds.take(n),
            size_limit,
        ) == lacking(root, terms.skip_roots, stores[0], server).len(),
    decreases n,
{
    if n > 0 {
        lemma_blocks_count(root, terms, size_limit, server, stores, rounds, n - 1);
        lemma_rounds_count(root, terms, size_limit, server, stores, rounds, n - 1);
        assert(buffered_round(root, terms, size_limit, server, stores, rounds, n - 1));
        rounds_bring_only_what_is_lacking(
            root,
            terms,
            size_limit,
            stores[n - 1],
            server,
            rounds[n - 1],
        );
        assert(rounds.take(n).drop_last() =~= rounds.take(n - 1));
    }
}

/// However many rounds a transfer takes, it brings each block that is lacking at first just once and
/// no others, if the bloom filters are neither incomplete nor wrong. Since CAR files and CAR streams
/// are cut alike, this goes for both.
pub proof fn transfers_bring_each_block_once(
    root: Cid,
    terms: Terms,
    size_limit: Option<usize>,
    server: Map<Cid, Seq<Cid>>,
    stores: Seq<Map<Cid, Seq<Cid>>>,
    rounds: Seq<Round>,
    last: ReceiverState,
)
    requires
        has_all(root, server),
        terms.max_roots > 0,
        stores.len() == rounds.len() + 1,
        stores[0].submap_of(server),
        nothing_hidden(root, terms.skip_roots, stores[0], server),
        forall|i: int|
            0 <= i < rounds.len() ==> #[trigger] buffered_round(
                root,
                terms,
                size_limit,
                server,
                stores,
                rounds,
                i,
            ) && exact_bloom(
                rounds[i].rules(),
                exploration_of(set![root], terms.skip_roots, stores[i]),
                root,
                server,
            ),
        summary(exploration_of(set![root], terms.skip_roots, stores.last()), terms, last),
    ensures
        lacking(root, terms.skip_roots, stores.last(), server).len() + blocks_transferred(
            rounds,
            size_limit,
        ) == lacking(root, terms.skip_roots, stores[0], server).len(),
        last.missing_subgraph_roots@.len() == 0 ==> blocks_transferred(rounds, size_limit)
            == lacking(root, terms.skip_roots, stores[0], server).len(),
{
    let n = rounds.len() as int;
    lemma_blocks_count(root, terms, size_limit, server, stores, rounds, n);
    lemma_rounds_count(root, terms, size_limit, server, stores, rounds, n);
    assert(rounds.take(n) =~= rounds);
    if last.missing_subgraph_roots@.len() == 0 {
        nothing_requested_means_same_graph(root, terms, stores.last(), server, last);
    }
}

/// Whether a limit leaves room for a block by itself, or for any block that is not too large.
pub open spec fn fits_alone(block: (Cid, Bytes), terms: Terms, limit: usize) -> bool {
    car_file_of(seq![block]).len() <= limit || terms.max_block_size + MAX_FRAMING <= limit
}

/// A transfer in rounds of CAR files comes to an end, and the receiving side has everything then.
///
/// There are no more rounds than there are blocks that it lacks at first. After that many rounds it
/// requests nothing any more, and once it requests nothing it has all blocks below the root, down to
/// the skip roots. All CAR files can be read, and the receiving side does not find them too large, if
/// the limit leaves room for their first block. It does so by default: all blocks that are not too
/// large fit then.
pub proof fn buffered_transfers_complete(
    root: Cid,
    terms: Terms,
    receive_maximum: usize,
    server: Map<Cid, Seq<Cid>>,
    stores: Seq<Map<Cid, Seq<Cid>>>,
    rounds: Seq<Round>,
    last: ReceiverState,
)
    requires
        has_all(root, server),
        terms.max_roots > 0,
        stores.len() == rounds.len() + 1,
        stores[0].submap_of(server),
        forall|i: int|
            0 <= i < rounds.len() ==> #[trigger] buffered_round(
                root,
                terms,
                Some(receive_maximum),
                server,
                stores,
                rounds,
                i,
            ),
        summary(exploration_of(set![root], terms.skip_roots, stores.last()), terms, last),
    ensures
        ({
            let lacking_at_first = lacking(root, terms.skip_roots, stores[0], server).len();
            &&& rounds.len() <= lacking_at_first
            &&& rounds.len() == lacking_at_first ==> last.missing_subgraph_roots@.len() == 0
        }),
        last.missing_subgraph_roots@.len() == 0 ==> {
            &&& in_sight(set![root], terms.skip_roots, server).subset_of(
                stores.last().dom().union(terms.skip_roots),
            )
            &&& terms.skip_roots == Set::<Cid>::empty() ==> reach(set![root], stores.last())
                == reach(set![root], server) && reach(set![root], server).subset_of(
                stores.last().dom(),
            )
        },
        forall|i: int|
            0 <= i < rounds.len() ==> {
                let got = car_prefix((#[trigger] rounds[i]).blocks, Some(receive_maximum));
                &&& got.len() > 0 && all_readable(got)
                &&& fits_alone(got[0], terms, receive_maximum) ==> car_file_of(got).len()
                    <= receive_maximum
            },
{
    let skip_roots = terms.skip_roots;
    lemma_rounds_count(
        root,
        terms,
        Some(receive_maximum),
        server,
        stores,
        rounds,
        rounds.len() as int,
    );
    lemma_lacking_is_finite(root, skip_roots, stores.last(), server);
    if rounds.len() == lacking(root, skip_roots, stores[0], server).len() {
        assert(lacking(root, skip_roots, stores.last(), server) =~= Set::<Cid>::empty());
        nothing_lacking_means_nothing_requested(root, terms, stores.last(), server, last);
    }
    if last.missing_subgraph_roots@.len() == 0 {
        nothing_requested_means_same_graph(root, terms, stores.last(), server, last);
    }
    assert forall|i: int| 0 <= i < rounds.len() implies {
        let got = car_prefix((#[trigger] rounds[i]).blocks, Some(receive_maximum));
        &&& got.len() > 0 && all_readable(got)
        &&& fits_alone(got[0], terms, receive_maximum) ==> car_file_of(got).len()
            <= receive_maximum
    } by {
        assert(buffered_round(root, terms, Some(receive_maximum), server, stores, rounds, i));
        lemma_rounds_count(root, terms, Some(receive_maximum), server, stores, rounds, i);
        lemma_got(root, terms, Some(receive_maximum), stores[i], server, rounds[i]);
        let got = car_prefix(rounds[i].blocks, Some(receive_maximum));
        car_file_keeps_to_its_limit(rounds[i].blocks, receive_maximum);
        if got.len() == 1 {
            assert(got =~= seq![rounds[i].blocks[0]]);
        }
        assert(authentic(rounds[i].blocks[0], server, terms));
        if terms.max_block_size + MAX_FRAMING <= receive_maximum {
            single_blocks_fit(rounds[i].blocks[0], receive_maximum);
        }
    }
}

proof fn lemma_got(
    root: Cid,
    terms: Terms,
    size_limit: Option<usize>,
    client: Map<Cid, Seq<Cid>>,
    server: Map<Cid, Seq<Cid>>,
    round: Round,
)
    requires
        client.submap_of(server),
        has_all(root, server),
        is_round(root, terms, client, server, round),
        round.state.missing_subgraph_roots@.len() > 0,
    ensures
        ({
            let got = car_prefix(round.blocks, size_limit);
            &&& got.len() > 0 && got[0] == round.blocks[0]
            &&& all_readable(got)
        }),
{
    let requested = round.state.missing_subgraph_roots@;
    let got = car_prefix(round.blocks, size_limit);
    lemma_round(root, terms, client, server, round);
    assert(round.roots.to_set().contains(requested[0]));
    walks_send_the_first_root_first(round.rules(), round.roots, server, round.cached);
    assert(cids_of(round.blocks).len() > 0);
    car_files_start_with_the_first_block(round.blocks, size_limit);
    assert forall|i: int| 0 <= i < got.len() implies (#[trigger] got[i]).0.stored()
        && frame_readable(got[i].0.parts(), bytes_of(got[i].1)) by {
        assert(got[i] == round.blocks[i]);
        assert(authentic(round.blocks[i], server, terms));
    }
}

/// A transfer in rounds of CAR streams comes to an end, and the receiving side has everything then.
///
/// There are no more rounds than there are blocks that it lacks at first. After that many rounds it
/// requests nothing any more, and once it requests nothing it has all blocks below the root, down to
/// the skip roots. The chunks of each stream join to a CAR file that can be read. The streams may be of
/// limited size or not.
pub proof fn streamed_transfers_complete(
    root: Cid,
    terms: Terms,
    size_limit: Option<usize>,
    server: Map<Cid, Seq<Cid>>,
    stores: Seq<Map<Cid, Seq<Cid>>>,
    rounds: Seq<Round>,
    last: ReceiverState,
)
    requires
        has_all(root, server),
        terms.max_roots > 0,
        stores.len() == rounds.len() + 1,
        stores[0].submap_of(server),
        forall|i: int|
            0 <= i < rounds.len() ==> #[trigger] streamed_round(
                root,
                terms,
                size_limit,
                server,
                stores,
                rounds,
                i,
            ),
        summary(exploration_of(set![root], terms.skip_roots, stores.last()), terms, last),
    ensures
        ({
            let lacking_at_first = lacking(root, terms.skip_roots, stores[0], server).len();
            &&& rounds.len() <= lacking_at_first
            &&& rounds.len() == lacking_at_first ==> last.missing_subgraph_roots@.len() == 0
        }),
        last.missing_subgraph_roots@.len() == 0 ==> {
            &&& in_sight(set![root], terms.skip_roots, server).subset_of(
                stores.last().dom().union(terms.skip_roots),
            )
            &&& terms.skip_roots == Set::<Cid>::empty() ==> reach(set![root], stores.last())
                == reach(set![root], server) && reach(set![root], server).subset_of(
                stores.last().dom(),
            )
        },
        forall|i: int|
            0 <= i < rounds.len() ==> {
                let got = stream_prefix((#[trigger] rounds[i]).blocks, size_limit);
                &&& chunks_of(got).flatten() == car_file_of(got)
                &&& got.len() > 0 && all_readable(got)
            },
{
    let skip_roots = terms.skip_roots;
    assert forall|i: int| 0 <= i < rounds.len() implies #[trigger] buffered_round(
        root,
        terms,
        size_limit,
        server,
        stores,
        rounds,
        i,
    ) by {
        assert(streamed_round(root, terms, size_limit, server, stores, rounds, i));
        files_and_streams_are_cut_alike(rounds[i].blocks, size_limit);
    }
    lemma_rounds_count(
        root,
        terms,
        size_limit,
        server,
        stores,
        rounds,
        rounds.len() as int,
    );
    lemma_lacking_is_finite(root, skip_roots, stores.last(), server);
    if rounds.len() == lacking(root, skip_roots, stores[0], server).len() {
        assert(lacking(root, skip_roots, stores.last(), server) =~= Set::<Cid>::empty());
        nothing_lacking_means_nothing_requested(root, terms, stores.last(), server, last);
    }
    if last.missing_subgraph_roots@.len() == 0 {
        nothing_requested_means_same_graph(root, terms, stores.last(), server, last);
    }
    assert forall|i: int| 0 <= i < rounds.len() implies {
        let got = stream_prefix((#[trigger] rounds[i]).blocks, size_limit);
        &&& chunks_of(got).flatten() == car_file_of(got)
        &&& got.len() > 0 && all_readable(got)
    } by {
        assert(buffered_round(root, terms, size_limit, server, stores, rounds, i));
        lemma_rounds_count(root, terms, size_limit, server, stores, rounds, i);
        lemma_got(root, terms, size_limit, stores[i], server, rounds[i]);
        files_and_streams_are_cut_alike(rounds[i].blocks, size_limit);
        chunks_make_a_car_file(stream_prefix(rounds[i].blocks, size_limit));
    }
}

} // verus!
