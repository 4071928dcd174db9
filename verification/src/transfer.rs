//! What a transfer achieves: how the two sides work together.
//!
//! A store is described by the links of the blocks that it holds.

use crate::bloom::in_bloom;
use crate::block_walk::{WalkRules, WalkState, WalkStep};
use crate::cid::{Cid, CODEC_RAW};
use crate::cid_set::in_order;
use crate::dag::{reach, reach_contains_seeds, reach_is_closed, reach_is_least, reach_is_monotone};
use crate::exploration::{above, explored, explored_settles_all, exploring, exploring_ends_explored, in_sight, links_are_in_sight, nothing_wanted_means_complete, rounds_keep_exploring, sight_grows, stored_block_keeps_exploring, verification_starts_exploring};
use crate::incremental_verification::{digest_matches, lemma_settled_prefix, BlockState, DagState};
use crate::payload::bytes_of;
use crate::receive::{dag_at_start, explores_on, queue_at_start, summary, takes_in, Receiving, Terms};
use crate::receiver_state::ReceiverState;
use crate::send::{searches_on, walk_begins, walks_on, SendPlan, Sending};
use crate::sending::{first_root_is_sent_first, links_to, walk_ends, walk_goes_on, walk_graph, walking};
use crate::subgraph_roots::{search_ends, search_goes_on, search_may_end_early, search_round, searching, SearchState};
use bytes::Bytes;
use vstd::prelude::*;

verus! {

/// The receiving side starts out exploring its store.
pub proof fn receiving_starts_exploring(
    root: Cid,
    skip_roots: Set<Cid>,
    store: Map<Cid, Seq<Cid>>,
)
    ensures
        exploring(
            dag_at_start(root, skip_roots),
            queue_at_start(root, skip_roots),
            set![root],
            store,
        ),
{
    let queue = queue_at_start(root, skip_roots);
    assert(queue.to_set() =~= set![root].difference(skip_roots)) by {
        if !skip_roots.contains(root) {
            assert(queue[0] == root);
        }
    }
    verification_starts_exploring(skip_roots, queue, set![root], store);
}

/// Right answers keep the receiving side exploring its store, and when it asks for the next block,
/// it has explored its store.
pub proof fn answers_keep_exploring(
    dag: DagState,
    queue: Seq<Cid>,
    terms: Terms,
    roots: Set<Cid>,
    store: Map<Cid, Seq<Cid>>,
    r: Receiving,
)
    requires
        exploring(dag, queue, roots, store),
        explores_on(dag, queue, terms, r),
    ensures
        match r {
            Receiving::IsPresent(q) => if store.dom().contains(q.asks()) {
                exploring(
                    q.dag().marked(q.asks(), true),
                    q.queue() + store[q.asks()],
                    roots,
                    store,
                )
            } else {
                exploring(q.dag().marked(q.asks(), false), q.queue(), roots, store)
            },
            Receiving::NextBlock(q) => explored(q.dag(), roots, store),
            _ => false,
        },
{
    lemma_settled_prefix(dag, queue);
    rounds_keep_exploring(dag, queue, roots, store);
    match r {
        Receiving::NextBlock(q) => {
            assert(queue.take(queue.len() as int) =~= queue);
            exploring_ends_explored(q.dag(), roots, store);
        },
        _ => {},
    }
}

/// No block is stored but one that is wanted, that is small enough, and whose bytes have the digest
/// that its CID gives.
pub proof fn only_verified_blocks_are_stored(
    dag: DagState,
    terms: Terms,
    cid: Cid,
    block: Bytes,
    next: Receiving,
)
    requires
        takes_in(dag, terms, cid, block, next),
        next is Store,
    ensures
        next->Store_0.stores() == (cid, block),
        dag.want.contains(cid),
        bytes_of(block).len() <= terms.max_block_size,
        digest_matches(cid, bytes_of(block)),
{
}

/// A stored block that was wanted keeps the receiving side exploring.
pub proof fn storing_keeps_exploring(
    dag: DagState,
    roots: Set<Cid>,
    store: Map<Cid, Seq<Cid>>,
    cid: Cid,
    links: Seq<Cid>,
)
    requires
        explored(dag, roots, store),
        dag.want.contains(cid),
    ensures
        exploring(dag.marked_as_have(cid), links, roots, store.insert(cid, links)),
        !store.dom().contains(cid),
{
    stored_block_keeps_exploring(dag, roots, store, cid, links);
}

/// Right answers keep the sending side searching for the requested roots below the root. Whether the
/// search is over or ends early, it has found exactly those of the requested roots that are below
/// the root.
pub proof fn answers_keep_searching(
    state: SearchState,
    plan: SendPlan,
    root: Cid,
    store: Map<Cid, Seq<Cid>>,
    r: Sending,
)
    requires
        searching(state, root, store),
        searches_on(state, plan, r),
        state.requested.finite(),
    ensures
        match state.upcoming() {
            Some(cid) => {
                let q = r->IsPresent_0;
                let looked = q.search().looked_at(cid, store[cid]);
                &&& r is IsPresent && q.asks() == cid
                &&& store.dom().contains(cid) ==> searching(looked, root, store)
                &&& store.dom().contains(cid) && looked.all_found() ==> looked.found.to_set()
                    == state.requested.intersect(reach(set![root], store))
            },
            None => state.found.to_set() == state.requested.intersect(reach(set![root], store))
                && walk_begins(state.found, plan, r),
        },
{
    match state.upcoming() {
        Some(cid) => {
            if store.dom().contains(cid) {
                search_goes_on(state, root, store);
                let looked = search_round(state, store);
                if looked.all_found() {
                    search_may_end_early(looked, root, store);
                }
            }
        },
        None => {
            search_ends(state, root, store);
        },
    }
}

/// Right answers keep the sending side walking, even if a block is missing from the store that is only
/// walked through. When it is done, it has sent exactly those of the blocks that can be reached by the
/// links that are followed that are to be sent.
pub proof fn answers_keep_walking(
    state: WalkState,
    rules: WalkRules,
    roots: Set<Cid>,
    store: Map<Cid, Seq<Cid>>,
    sent: Seq<Cid>,
    r: Sending,
)
    requires
        walking(state, rules, roots, store, sent),
        walks_on(state, rules, r),
    ensures
        match r {
            Sending::CachedLinksOf(q) => {
                &&& store.dom().contains(q.asks()) ==> walking(
                    q.walk().expanded(store[q.asks()]),
                    rules,
                    roots,
                    store,
                    sent,
                )
                &&& walking(q.walk().set_down(q.asks()), rules, roots, store, sent)
            },
            Sending::BytesOf(q) => {
                &&& store.dom().contains(q.asks()) ==> walking(
                    if rules.follows(q.asks()) {
                        q.walk().expanded(store[q.asks()])
                    } else {
                        q.walk()
                    },
                    rules,
                    roots,
                    store,
                    if q.emits() {
                        sent.push(q.asks())
                    } else {
                        sent
                    },
                )
                &&& !store.dom().contains(q.asks()) && !q.emits() ==> walking(
                    q.walk(),
                    rules,
                    roots,
                    store,
                    sent,
                )
            },
            Sending::Done => forall|c: Cid| #[trigger]
                sent.contains(c) <==> reach(roots, walk_graph(rules, store)).contains(c)
                    && rules.sends(c),
            _ => false,
        },
{
    match r {
        Sending::CachedLinksOf(q) => {
            walk_goes_on(state, rules, roots, store, sent, true);
            walk_goes_on(state, rules, roots, store, sent, false);
        },
        Sending::BytesOf(q) => {
            if store.dom().contains(q.asks()) || !q.emits() {
                walk_goes_on(state, rules, roots, store, sent, true);
            }
        },
        _ => {
            walk_ends(state, rules, roots, store, sent);
        },
    }
}

/// What the receiving side misses is below the root in any store that extends its own, so the
/// sending side will not take it for unrelated.
pub proof fn what_is_missing_is_below_the_root(
    dag: DagState,
    root: Cid,
    client: Map<Cid, Seq<Cid>>,
    server: Map<Cid, Seq<Cid>>,
)
    requires
        explored(dag, set![root], client),
        client.submap_of(server),
    ensures
        dag.want.subset_of(reach(set![root], server)),
{
    assert(above(dag.boundary, client).submap_of(server));
    reach_is_monotone(set![root], above(dag.boundary, client), set![root], server);
}

/// When the search for the requested roots is over, whether early or not, it has found all of them,
/// if the receiving side misses them.
pub proof fn all_requested_roots_are_found(
    dag: DagState,
    root: Cid,
    client: Map<Cid, Seq<Cid>>,
    server: Map<Cid, Seq<Cid>>,
    search: SearchState,
)
    requires
        explored(dag, set![root], client),
        client.submap_of(server),
        searching(search, root, server),
        search.requested.finite(),
        search.requested.subset_of(dag.want),
        search.upcoming() is None || search.all_found(),
    ensures
        search.found.to_set() == search.requested,
{
    what_is_missing_is_below_the_root(dag, root, client, server);
    if search.upcoming() is None {
        search_ends(search, root, server);
        assert(search.requested.intersect(reach(set![root], server)) =~= search.requested);
    } else {
        search_may_end_early(search, root, server);
    }
}

/// As long as something is missing, a transfer makes progress: the first block that is sent is one
/// that the receiving side wants. So less is missing afterwards.
pub proof fn every_round_makes_progress(
    dag: DagState,
    root: Cid,
    client: Map<Cid, Seq<Cid>>,
    server: Map<Cid, Seq<Cid>>,
    roots: Seq<Cid>,
    rules: WalkRules,
)
    requires
        explored(dag, set![root], client),
        client.submap_of(server),
        server.dom().finite(),
        roots.len() > 0,
        roots.to_set().subset_of(dag.want),
        rules.requested == roots.to_set(),
        server.dom().contains(roots[0]),
    ensures
        WalkState::initial(roots).step(rules).0 == WalkStep::Read(roots[0], true),
        dag.block_state(roots[0]) == BlockState::Want,
        server.dom().difference(client.insert(roots[0], server[roots[0]]).dom()).len()
            < server.dom().difference(client.dom()).len(),
{
    assert forall|i: int| 0 <= i < roots.len() implies rules.requested.contains(
        #[trigger] roots[i],
    ) by {
        assert(roots.to_set().contains(roots[i]));
    }
    first_root_is_sent_first(rules, roots);
    assert(roots.to_set().contains(roots[0]));
    let left = server.dom().difference(client.dom());
    assert(left.contains(roots[0]));
    assert(server.dom().difference(client.insert(roots[0], server[roots[0]]).dom())
        =~= left.remove(roots[0]));
}

/// A store with some blocks of another store put into it.
pub open spec fn with_received(
    client: Map<Cid, Seq<Cid>>,
    server: Map<Cid, Seq<Cid>>,
    received: Seq<Cid>,
) -> Map<Cid, Seq<Cid>>
    decreases received.len(),
{
    if received.len() == 0 {
        client
    } else {
        with_received(client, server, received.drop_last()).insert(
            received.last(),
            server[received.last()],
        )
    }
}

/// Blocks of a larger store add up.
pub proof fn lemma_with_received(
    client: Map<Cid, Seq<Cid>>,
    server: Map<Cid, Seq<Cid>>,
    received: Seq<Cid>,
)
    requires
        client.submap_of(server),
        forall|i: int| 0 <= i < received.len() ==> server.dom().contains(#[trigger] received[i]),
    ensures
        client.submap_of(with_received(client, server, received)),
        with_received(client, server, received).submap_of(server),
        with_received(client, server, received).dom() == client.dom().union(received.to_set()),
    decreases received.len(),
{
    let all = with_received(client, server, received);
    if received.len() > 0 {
        let before = received.drop_last();
        lemma_with_received(client, server, before);
        crate::cid_set::lemma_to_set_push(before, received.last());
        assert(before.push(received.last()) =~= received);
        assert(server.dom().contains(received[received.len() - 1]));
        assert(all.dom() =~= client.dom().union(received.to_set()));
        assert forall|c: Cid| #[trigger] client.dom().contains(c) implies all.dom().contains(c)
            && all[c] == client[c] by {
            assert(server.dom().contains(c));
        }
    } else {
        assert(all.dom() =~= client.dom().union(received.to_set()));
    }
}

/// All that the sending side knows of.
pub open spec fn known_of(root: Cid, server: Map<Cid, Seq<Cid>>) -> Set<Cid> {
    server.dom().union(reach(set![root], server))
}

/// The bloom filter claims nothing wrong of what the sending side knows of: what it holds of that is
/// present on the receiving side.
pub open spec fn no_false_positives(
    rules: WalkRules,
    dag: DagState,
    root: Cid,
    server: Map<Cid, Seq<Cid>>,
) -> bool {
    forall|c: Cid|
        known_of(root, server).contains(c) && #[trigger] in_bloom(
            rules.bloom,
            c.parts().encoding(),
        ) ==> dag.have.contains(c)
}

/// The two sides of a transfer agree: the walk started from roots that the receiving side misses,
/// and goes by what the receiving side has said.
pub open spec fn agree(
    dag: DagState,
    root: Cid,
    client: Map<Cid, Seq<Cid>>,
    server: Map<Cid, Seq<Cid>>,
    roots: Set<Cid>,
    rules: WalkRules,
) -> bool {
    &&& explored(dag, set![root], client)
    &&& client.submap_of(server)
    &&& roots.subset_of(dag.want)
    &&& rules.requested == roots
    &&& rules.skip_roots == dag.boundary
    &&& no_false_positives(rules, dag, root, server)
}

/// Blocks come in an order in which the receiving side can verify them: unless the bloom filter is
/// wrong, each one is either wanted or present by the time it comes, if those before it were stored.
pub proof fn blocks_come_in_order(
    dag: DagState,
    root: Cid,
    client: Map<Cid, Seq<Cid>>,
    server: Map<Cid, Seq<Cid>>,
    roots: Set<Cid>,
    rules: WalkRules,
    state: WalkState,
    sent: Seq<Cid>,
    i: int,
    now: DagState,
)
    requires
        agree(dag, root, client, server, roots, rules),
        walking(state, rules, roots, server, sent),
        forall|j: int| 0 <= j < sent.len() ==> server.dom().contains(#[trigger] sent[j]),
        0 <= i < sent.len(),
        now.boundary == dag.boundary,
        explored(now, set![root], with_received(client, server, sent.take(i))),
    ensures
        now.block_state(sent[i]) != BlockState::Unexpected,
{
    lemma_sent_is_in_sight(dag, root, client, server, roots, rules, state, sent, i);
    explored_settles_all(now, set![root], with_received(client, server, sent.take(i)));
}

/// What is sent is in sight of the receiving side by the time it comes, if those before it were
/// stored and unless the bloom filter is wrong.
pub proof fn lemma_sent_is_in_sight(
    dag: DagState,
    root: Cid,
    client: Map<Cid, Seq<Cid>>,
    server: Map<Cid, Seq<Cid>>,
    roots: Set<Cid>,
    rules: WalkRules,
    state: WalkState,
    sent: Seq<Cid>,
    i: int,
)
    requires
        agree(dag, root, client, server, roots, rules),
        walking(state, rules, roots, server, sent),
        forall|j: int| 0 <= j < sent.len() ==> server.dom().contains(#[trigger] sent[j]),
        0 <= i < sent.len(),
    ensures
        in_sight(
            set![root],
            dag.boundary,
            with_received(client, server, sent.take(i)),
        ).contains(sent[i]),
    decreases i,
{
    let boundary = dag.boundary;
    let graph = walk_graph(rules, server);
    let store = with_received(client, server, sent.take(i));
    assert forall|j: int| 0 <= j < i implies server.dom().contains(#[trigger] sent.take(i)[j]) by {
        assert(sent.take(i)[j] == sent[j]);
    }
    lemma_with_received(client, server, sent.take(i));
    sight_grows(set![root], boundary, client, store);
    if roots.contains(sent[i]) {
        assert(in_sight(set![root], boundary, client).contains(sent[i]));
    } else {
        assert(crate::sending::comes_after_parent(sent, roots, rules, graph, i));
        let p = choose|p: Cid| #[trigger]
            links_to(graph, p, sent[i]) && (rules.sends(p) ==> sent.take(i).contains(p));
        assert(rules.follows(p));
        assert(server.dom().contains(p));
        assert(graph[p] == server[p]);
        assert(!boundary.contains(p)) by {
            assert(!rules.drops(p));
            if roots.contains(p) {
                assert(dag.want.contains(p));
            }
        }
        if rules.sends(p) {
            let j = choose|j: int| 0 <= j < sent.take(i).len() && sent.take(i)[j] == p;
            assert(sent[j] == p);
            lemma_sent_is_in_sight(dag, root, client, server, roots, rules, state, sent, j);
            let earlier = with_received(client, server, sent.take(j));
            lemma_received_grows(client, server, sent, j, i);
            sight_grows(set![root], boundary, earlier, store);
            assert(sent.take(i).to_set().contains(p));
            assert(store.dom().contains(p));
        } else {
            assert(rules.skips(p));
            assert(dag.have.contains(p));
            assert(in_sight(set![root], boundary, client).contains(p));
            assert(store.dom().contains(p));
        }
        assert(store[p] == server[p]);
        links_are_in_sight(set![root], boundary, store, p, sent[i]);
    }
}

/// The more blocks are received, the larger the store.
pub proof fn lemma_received_grows(
    client: Map<Cid, Seq<Cid>>,
    server: Map<Cid, Seq<Cid>>,
    sent: Seq<Cid>,
    j: int,
    i: int,
)
    requires
        client.submap_of(server),
        0 <= j <= i <= sent.len(),
        forall|k: int| 0 <= k < sent.len() ==> server.dom().contains(#[trigger] sent[k]),
    ensures
        with_received(client, server, sent.take(j)).submap_of(
            with_received(client, server, sent.take(i)),
        ),
{
    assert forall|k: int| 0 <= k < i implies server.dom().contains(#[trigger] sent.take(i)[k]) by {
        assert(sent.take(i)[k] == sent[k]);
    }
    assert forall|k: int| 0 <= k < j implies server.dom().contains(#[trigger] sent.take(j)[k]) by {
        assert(sent.take(j)[k] == sent[k]);
    }
    lemma_with_received(client, server, sent.take(i));
    lemma_with_received(client, server, sent.take(j));
    let small = with_received(client, server, sent.take(j));
    let large = with_received(client, server, sent.take(i));
    assert forall|c: Cid| #[trigger] small.dom().contains(c) implies large.dom().contains(c)
        && large[c] == small[c] by {
        if !client.dom().contains(c) {
            let k = choose|k: int| 0 <= k < sent.take(j).len() && sent.take(j)[k] == c;
            assert(sent.take(i)[k] == c);
            assert(sent.take(i).to_set().contains(c));
        }
    }
}

/// A round that is not cut short completes the transfer: if all that is missing was requested and
/// all that the walk sends is stored, then nothing is missing any more, unless the bloom filter is
/// wrong.
pub proof fn one_full_round_completes_the_transfer(
    dag: DagState,
    root: Cid,
    client: Map<Cid, Seq<Cid>>,
    server: Map<Cid, Seq<Cid>>,
    rules: WalkRules,
    state: WalkState,
    sent: Seq<Cid>,
    now: DagState,
)
    requires
        agree(dag, root, client, server, dag.want, rules),
        walking(state, rules, dag.want, server, sent),
        state.step(rules).0 is Done,
        forall|j: int| 0 <= j < sent.len() ==> server.dom().contains(#[trigger] sent[j]),
        forall|c: Cid| #[trigger]
            server.dom().contains(c) && c.parts().codec == CODEC_RAW ==> server[c].len() == 0,
        now.boundary == dag.boundary,
        explored(now, set![root], with_received(client, server, sent)),
    ensures
        now.want == Set::<Cid>::empty(),
{
    let boundary = dag.boundary;
    let graph = walk_graph(rules, server);
    let walked = reach(dag.want, graph);
    let store = with_received(client, server, sent);
    let seen = in_sight(set![root], boundary, client);
    let there = store.dom().union(boundary);
    let good = seen.union(walked).intersect(there);
    lemma_with_received(client, server, sent);
    walk_ends(state, rules, dag.want, server, sent);
    explored_settles_all(dag, set![root], client);
    reach_contains_seeds(dag.want, graph);
    reach_contains_seeds(set![root], above(boundary, client));
    reach_is_closed(dag.want, graph);
    what_is_missing_is_below_the_root(dag, root, client, server);
    assert(walked.subset_of(reach(set![root], server))) by {
        reach_is_closed(set![root], server);
        assert forall|c: Cid, d: Cid|
            reach(set![root], server).contains(c) && graph.dom().contains(c)
                && #[trigger] graph[c].contains(d) implies reach(set![root], server).contains(d) by {
            assert(server.dom().contains(c));
            assert(server[c].contains(d));
        }
        reach_is_least(dag.want, graph, reach(set![root], server));
    }
    // What was missing is there now.
    assert forall|c: Cid| seen.contains(c) implies there.contains(c) by {
        if dag.want.contains(c) {
            assert(rules.sends(c));
            assert(sent.contains(c));
            assert(sent.to_set().contains(c));
        }
    }
    assert forall|c: Cid| walked.contains(c) implies there.contains(c) by {
        if rules.sends(c) {
            assert(sent.contains(c));
            assert(sent.to_set().contains(c));
        } else if rules.drops(c) {
            assert(boundary.contains(c));
        } else {
            assert(rules.skips(c));
            assert(dag.have.contains(c));
        }
    }
    let lower = above(boundary, store);
    assert forall|c: Cid, d: Cid|
        good.contains(c) && lower.dom().contains(c) && #[trigger] lower[c].contains(d) implies
        good.contains(d) by {
        assert(store.dom().contains(c) && !boundary.contains(c));
        assert(server.dom().contains(c));
        assert(store[c] == server[c]);
        assert(server[c].contains(d));
        if seen.contains(c) && client.dom().contains(c) {
            assert(client[c] == server[c]);
            links_are_in_sight(set![root], boundary, client, c, d);
        } else {
            if !walked.contains(c) {
                assert(dag.want.contains(c));
                assert(walked.contains(c));
            }
            if !rules.sends(c) {
                assert(!rules.drops(c));
                assert(rules.skips(c));
                assert(dag.have.contains(c));
                assert(seen.contains(c) && client.dom().contains(c));
            }
            assert(rules.sends(c));
            assert(server[c].len() > 0);
            assert(c.parts().codec != CODEC_RAW);
            assert(rules.follows(c));
            assert(graph.dom().contains(c));
            assert(graph[c].contains(d));
            assert(walked.contains(d));
        }
    }
    assert(set![root].subset_of(good)) by {
        assert(set![root].contains(root));
        assert(seen.contains(root));
    }
    reach_is_least(set![root], lower, good);
    assert forall|c: Cid| !now.want.contains(c) by {
        if now.want.contains(c) {
            assert(in_sight(set![root], boundary, store).contains(c));
            assert(good.contains(c));
        }
    }
    assert(now.want =~= Set::<Cid>::empty());
}

/// When the receiving side requests nothing, it has all blocks below the root, down to the skip
/// roots. A limit of no roots at all would hide what is missing.
pub proof fn finished_means_complete(
    dag: DagState,
    terms: Terms,
    state: ReceiverState,
    root: Cid,
    store: Map<Cid, Seq<Cid>>,
)
    requires
        explored(dag, set![root], store),
        summary(dag, terms, state),
        state.missing_subgraph_roots@.len() == 0,
        terms.max_roots > 0,
    ensures
        in_sight(set![root], dag.boundary, store).subset_of(store.dom().union(dag.boundary)),
{
    assert(in_order(dag.want).len() == 0);
    assert(dag.want =~= Set::<Cid>::empty()) by {
        assert(in_order(dag.want).to_set() =~= Set::<Cid>::empty());
    }
    nothing_wanted_means_complete(dag, set![root], store);
}

/// When the receiving side has all blocks, it requests nothing.
pub proof fn complete_means_finished(
    dag: DagState,
    terms: Terms,
    state: ReceiverState,
    root: Cid,
    store: Map<Cid, Seq<Cid>>,
)
    requires
        explored(dag, set![root], store),
        summary(dag, terms, state),
        in_sight(set![root], dag.boundary, store).subset_of(store.dom().union(dag.boundary)),
    ensures
        state.missing_subgraph_roots@.len() == 0,
{
    let missing = in_order(dag.want);
    if missing.len() > 0 {
        assert(missing.to_set().contains(missing[0]));
        assert(dag.want.contains(missing[0]));
    }
}

/// Nothing is requested that is a skip root or that is present.
pub proof fn only_what_is_missing_is_requested(
    dag: DagState,
    terms: Terms,
    state: ReceiverState,
    root: Cid,
    store: Map<Cid, Seq<Cid>>,
    cid: Cid,
)
    requires
        explored(dag, set![root], store),
        summary(dag, terms, state),
        state.missing_subgraph_roots@.contains(cid),
    ensures
        dag.want.contains(cid),
        !store.dom().contains(cid),
        !dag.boundary.contains(cid),
        in_sight(set![root], dag.boundary, store).contains(cid),
{
    let missing = in_order(dag.want);
    let i = choose|i: int|
        0 <= i < state.missing_subgraph_roots@.len() && state.missing_subgraph_roots@[i] == cid;
    assert(missing[i] == cid);
    assert(missing.to_set().contains(cid));
}

} // verus!
