//! What a whole run of the sending side sends, going by what it was asked for.

use crate::block_walk::{WalkRules, WalkState};
use crate::bloom::{bloom_hit, in_bloom};
use crate::car::{CarFrames, CarWriting, LimitedCarFrames};
use crate::cid::{Cid, CODEC_RAW};
use crate::common::Config;
use crate::dag::{reach, reach_contains_seeds, reach_is_closed, reach_is_least};
use crate::error::Error;
use crate::ipld::{block_links, codec_supported, ReferencesError};
use crate::messages::PullRequest;
use crate::payload::bytes_of;
use crate::pull;
use crate::receiver_state::ReceiverState;
use crate::send::{
    block_send, block_send_block_stream, block_send_block_stream_pruning, block_send_car_stream,
    requested_roots,
    searches_on, send_begins, walk_begins, walks_on, BlockQuestion, CacheQuestion, CarSink,
    LinksQuestion, PresenceQuestion, SendPlan, Sending, Sent,
};
use crate::sending::{
    concerns, lemma_step, rightly_read, walk_ends, walk_goes_on, walk_graph, walk_round,
    walk_starts, walking, with_sent,
};
use crate::subgraph_roots::{
    search_ends, search_goes_on, search_may_end_early, search_round, search_starts, searching,
    SearchState,
};
use bytes::Bytes;
use vstd::prelude::*;

verus! {

/// The links of the blocks of a store.
pub open spec fn links_in(store: Map<Cid, Seq<u8>>) -> Map<Cid, Seq<Cid>> {
    Map::new(
        |c: Cid| store.dom().contains(c),
        |c: Cid| block_links(c.parts().codec, store[c])->0,
    )
}

/// Whether the links of all blocks of a store can be read.
pub open spec fn readable(store: Map<Cid, Seq<u8>>) -> bool {
    forall|c: Cid| #[trigger]
        store.dom().contains(c) ==> block_links(c.parts().codec, store[c]) is Some
}

/// Whether a cache answers rightly: with the links of a block that is in the store, or with nothing.
pub open spec fn cached_rightly(
    store: Map<Cid, Seq<u8>>,
    cid: Cid,
    cached: Option<Vec<Cid>>,
) -> bool {
    cached matches Some(links) ==> store.dom().contains(cid) && links@ == links_in(store)[cid]
}

/// How far a run of the sending side has got.
pub struct Departure {
    /// What is needed to go on.
    pub session: Sending,
    /// What was sent.
    pub sent: Seq<(Cid, Bytes)>,
}

/// Whether what comes of a block leads here.
pub open spec fn sent_on(now: Departure, sent: Sent, next: Departure) -> bool {
    &&& next.session == sent.next
    &&& next.sent == (match sent.block {
        Some(block) => now.sent.push(block),
        None => now.sent,
    })
}

/// Whether a run goes on like this: what is needed is answered rightly, going by a store, and what is
/// to be sent is sent.
pub open spec fn departs(store: Map<Cid, Seq<u8>>, now: Departure, next: Departure) -> bool {
    match now.session {
        Sending::IsPresent(q) => {
            &&& next.sent == now.sent
            &&& call_ensures(
                PresenceQuestion::answer,
                (q, store.dom().contains(q.asks())),
                Ok::<Sending, Error>(next.session),
            )
        },
        Sending::LinksOf(q) => {
            &&& next.sent == now.sent
            &&& exists|links: Vec<Cid>|
                links@ == links_in(store)[q.asks()] && #[trigger] call_ensures(
                    LinksQuestion::answer,
                    (q, links),
                    next.session,
                )
        },
        Sending::CachedLinksOf(q) => {
            &&& next.sent == now.sent
            &&& exists|cached: Option<Vec<Cid>>|
                cached_rightly(store, q.asks(), cached) && #[trigger] call_ensures(
                    CacheQuestion::answer,
                    (q, cached),
                    next.session,
                )
        },
        Sending::BytesOf(q) => if store.dom().contains(q.asks()) {
            exists|bytes: Bytes, cached: Option<Vec<Cid>>, sent: Sent|
                bytes_of(bytes) == store[q.asks()] && cached_rightly(store, q.asks(), cached)
                    && sent_on(now, sent, next) && #[trigger] call_ensures(
                    BlockQuestion::answer,
                    (q, bytes, cached),
                    Ok::<Sent, Error>(sent),
                )
        } else {
            &&& next.sent == now.sent
            &&& call_ensures(BlockQuestion::absent, (q,), Ok::<Sending, Error>(next.session))
        },
        Sending::Done => false,
    }
}

/// Whether these are the steps of a run that is over.
pub open spec fn is_whole_run(store: Map<Cid, Seq<u8>>, begun: Sending, run: Seq<Departure>) -> bool {
    &&& run.len() > 0
    &&& run[0].session == begun && run[0].sent.len() == 0
    &&& forall|i: int| 0 <= i < run.len() - 1 ==> departs(store, #[trigger] run[i], run[i + 1])
    &&& run.last().session is Done
}

/// The CIDs of what was sent.
pub open spec fn cids_sent(sent: Seq<(Cid, Bytes)>) -> Seq<Cid> {
    sent.map_values(|block: (Cid, Bytes)| block.0)
}

/// Of what is requested, all that lies below the root.
pub open spec fn below(root: Cid, store: Map<Cid, Seq<u8>>, requested: Set<Cid>) -> Set<Cid> {
    requested.intersect(reach(set![root], links_in(store)))
}

/// What is to be sent: all that can be reached from the given roots, but not what is skipped or held,
/// nor what lies only below what is skipped, or, with pruning, below what is held. What is explicitly
/// requested is sent in any case.
pub open spec fn to_be_sent(
    store: Map<Cid, Seq<u8>>,
    roots: Set<Cid>,
    skipped: Set<Cid>,
    held: Set<Cid>,
    prune: bool,
) -> Set<Cid> {
    let dead_ends = if prune {
        skipped.union(held)
    } else {
        skipped
    };
    reach(roots, links_in(store).remove_keys(dead_ends.difference(roots))).difference(
        skipped.union(held).difference(roots),
    )
}

/// What a bloom filter, or none, seems to hold.
pub open spec fn held_by(state: ReceiverState) -> Set<Cid> {
    Set::new(
        |c: Cid|
            state.have_cids_bloom matches Some(bloom) && in_bloom(bloom, c.parts().encoding()),
    )
}

/// Whether exactly these blocks were sent, each of them once, with the bytes that the store has.
pub open spec fn sent_exactly(
    store: Map<Cid, Seq<u8>>,
    sent: Seq<(Cid, Bytes)>,
    cids: Set<Cid>,
) -> bool {
    &&& cids_sent(sent).no_duplicates()
    &&& cids_sent(sent).to_set() == cids
    &&& forall|i: int|
        0 <= i < sent.len() ==> store.dom().contains((#[trigger] sent[i]).0) && bytes_of(sent[i].1)
            == store[sent[i].0]
}

/// Whether the sent bytes are those of the store.
spec fn rightly_sent(store: Map<Cid, Seq<u8>>, sent: Seq<(Cid, Bytes)>) -> bool {
    forall|i: int|
        0 <= i < sent.len() ==> store.dom().contains((#[trigger] sent[i]).0) && bytes_of(sent[i].1)
            == store[sent[i].0]
}

/// Whether a search is where it should be.
pub open spec fn in_search(
    root: Cid,
    requested: Set<Cid>,
    plan: SendPlan,
    store: Map<Cid, Seq<u8>>,
    p: Departure,
    search: SearchState,
) -> bool {
    &&& searching(search, root, links_in(store))
    &&& search.requested == requested
    &&& p.sent.len() == 0
    &&& match p.session {
        Sending::IsPresent(q) => search.upcoming() == Some(q.asks()) && q.search()
            == search.advanced() && q.plan() == plan,
        Sending::LinksOf(q) => search.upcoming() == Some(q.asks()) && q.search()
            == search.advanced() && q.plan() == plan && store.dom().contains(q.asks()),
        _ => false,
    }
}

/// Whether a walk is where it should be.
spec fn in_walk(
    roots: Set<Cid>,
    plan: SendPlan,
    store: Map<Cid, Seq<u8>>,
    p: Departure,
    walk: WalkState,
) -> bool {
    &&& walking(walk, plan.rules(roots), roots, links_in(store), cids_sent(p.sent))
    &&& walks_on(walk, plan.rules(roots), p.session)
    &&& rightly_sent(store, p.sent)
}

spec fn in_order_so_far(
    root: Cid,
    requested: Set<Cid>,
    plan: SendPlan,
    store: Map<Cid, Seq<u8>>,
    p: Departure,
) -> bool {
    ||| exists|search: SearchState| #[trigger] in_search(root, requested, plan, store, p, search)
    ||| exists|walk: WalkState| #[trigger]
        in_walk(below(root, store, requested), plan, store, p, walk)
}

proof fn lemma_walk_begins(
    root: Cid,
    requested: Set<Cid>,
    plan: SendPlan,
    store: Map<Cid, Seq<u8>>,
    p: Departure,
    roots: Seq<Cid>,
)
    requires
        roots.to_set() == below(root, store, requested),
        walk_begins(roots, plan, p.session),
        p.sent.len() == 0,
    ensures
        in_order_so_far(root, requested, plan, store, p),
{
    let walk = WalkState::initial(roots);
    walk_starts(plan.rules(roots.to_set()), roots, links_in(store));
    assert(cids_sent(p.sent) =~= Seq::<Cid>::empty());
    assert(in_walk(below(root, store, requested), plan, store, p, walk));
}

/// Whether a run is where it should be before the first block is read: it searches, or else the walk begins
/// from what was found.
pub open spec fn not_yet_sending(
    root: Cid,
    requested: Set<Cid>,
    plan: SendPlan,
    store: Map<Cid, Seq<u8>>,
    p: Departure,
) -> bool {
    &&& p.sent.len() == 0
    &&& {
        ||| exists|search: SearchState| #[trigger]
            in_search(root, requested, plan, store, p, search)
        ||| exists|roots: Seq<Cid>|
            roots.to_set() == below(root, store, requested) && roots.no_duplicates()
                && #[trigger] walk_begins(roots, plan, p.session)
    }
}

proof fn lemma_sending_soon(
    root: Cid,
    requested: Set<Cid>,
    plan: SendPlan,
    store: Map<Cid, Seq<u8>>,
    p: Departure,
)
    requires
        not_yet_sending(root, requested, plan, store, p),
    ensures
        in_order_so_far(root, requested, plan, store, p),
{
    if !(exists|search: SearchState| #[trigger]
        in_search(root, requested, plan, store, p, search)) {
        let roots = choose|roots: Seq<Cid>|
            roots.to_set() == below(root, store, requested) && roots.no_duplicates()
                && #[trigger] walk_begins(roots, plan, p.session);
        lemma_walk_begins(root, requested, plan, store, p, roots);
    }
}

proof fn lemma_searches_on(
    root: Cid,
    requested: Set<Cid>,
    plan: SendPlan,
    store: Map<Cid, Seq<u8>>,
    p: Departure,
    search: SearchState,
)
    requires
        searching(search, root, links_in(store)),
        search.requested == requested,
        searches_on(search, plan, p.session),
        p.sent.len() == 0,
    ensures
        not_yet_sending(root, requested, plan, store, p),
{
    match search.upcoming() {
        Some(_) => {
            assert(in_search(root, requested, plan, store, p, search));
        },
        None => {
            search_ends(search, root, links_in(store));
            assert(search.found.to_set() =~= below(root, store, requested));
        },
    }
}

/// A run begins with a search for what is requested, or at once with the walk from it.
pub proof fn runs_begin_before_sending(
    root: Cid,
    requested: Seq<Cid>,
    plan: SendPlan,
    store: Map<Cid, Seq<u8>>,
    p: Departure,
)
    requires
        send_begins(root, requested, plan, p.session),
        p.sent.len() == 0,
    ensures
        not_yet_sending(root, requested.to_set(), plan, store, p),
{
    reach_contains_seeds(set![root], links_in(store));
    if requested == seq![root] {
        assert(requested.to_set() =~= below(root, store, requested.to_set())) by {
            assert forall|c: Cid| requested.to_set().contains(c) implies c == root by {}
            assert(set![root].contains(root));
        }
    } else {
        let search = SearchState::initial(root, requested.to_set());
        search_starts(root, requested.to_set(), links_in(store));
        lemma_searches_on(root, requested.to_set(), plan, store, p, search);
    }
}

/// A search goes on, or leads to the walk from what was found.
pub proof fn searches_lead_to_walks(
    root: Cid,
    requested: Set<Cid>,
    plan: SendPlan,
    store: Map<Cid, Seq<u8>>,
    now: Departure,
    next: Departure,
    search: SearchState,
)
    requires
        requested.finite(),
        in_search(root, requested, plan, store, now, search),
        departs(store, now, next),
    ensures
        not_yet_sending(root, requested, plan, store, next),
{
    let links = links_in(store);
    match now.session {
        Sending::IsPresent(q) => {
            assert(in_search(root, requested, plan, store, next, search));
        },
        Sending::LinksOf(q) => {
            let looked = q.search().looked_at(q.asks(), links[q.asks()]);
            search_goes_on(search, root, links);
            assert(looked == search_round(search, links));
            if looked.requested.contains(q.asks()) && looked.all_found() {
                search_may_end_early(looked, root, links);
                assert(looked.found.to_set() =~= below(root, store, requested));
            } else {
                lemma_searches_on(root, requested, plan, store, next, looked);
            }
        },
        _ => {},
    }
}

proof fn lemma_departs(
    root: Cid,
    requested: Set<Cid>,
    plan: SendPlan,
    store: Map<Cid, Seq<u8>>,
    now: Departure,
    next: Departure,
)
    requires
        requested.finite(),
        readable(store),
        in_order_so_far(root, requested, plan, store, now),
        departs(store, now, next),
    ensures
        in_order_so_far(root, requested, plan, store, next),
{
    if exists|search: SearchState| #[trigger] in_search(root, requested, plan, store, now, search) {
        let search = choose|search: SearchState| #[trigger]
            in_search(root, requested, plan, store, now, search);
        searches_lead_to_walks(root, requested, plan, store, now, next, search);
        lemma_sending_soon(root, requested, plan, store, next);
    } else {
        let roots = below(root, store, requested);
        let walk = choose|walk: WalkState| #[trigger] in_walk(roots, plan, store, now, walk);
        lemma_walk_departs(roots, plan, store, now, next, walk);
    }
}

proof fn lemma_walk_departs(
    roots: Set<Cid>,
    plan: SendPlan,
    store: Map<Cid, Seq<u8>>,
    now: Departure,
    next: Departure,
    walk: WalkState,
)
    requires
        readable(store),
        in_walk(roots, plan, store, now, walk),
        departs(store, now, next),
    ensures
        exists|after: WalkState| #[trigger] in_walk(roots, plan, store, next, after),
{
    let links = links_in(store);
    let rules = plan.rules(roots);
    let sent = cids_sent(now.sent);
    let need = walk.step(rules).0;
    lemma_step(walk, rules);
    match now.session {
        Sending::CachedLinksOf(q) => {
            let cached = choose|cached: Option<Vec<Cid>>|
                cached_rightly(store, q.asks(), cached) && #[trigger] call_ensures(
                    CacheQuestion::answer,
                    (q, cached),
                    next.session,
                );
            let after = walk_round(walk, rules, links, cached is Some).0;
            walk_goes_on(walk, rules, roots, links, sent, cached is Some);
            assert(in_walk(roots, plan, store, next, after));
        },
        Sending::BytesOf(q) => {
            let cid = q.asks();
            let (after, more) = walk_round(walk, rules, links, true);
            assert(concerns(need, cid));
            assert(rightly_read(rules, (cid, q.emits())));
            if store.dom().contains(cid) {
                let (bytes, cached, r) = choose|
                    bytes: Bytes,
                    cached: Option<Vec<Cid>>,
                    r: Sent,
                |
                    bytes_of(bytes) == store[q.asks()] && cached_rightly(store, q.asks(), cached)
                        && sent_on(now, r, next) && #[trigger] call_ensures(
                        BlockQuestion::answer,
                        (q, bytes, cached),
                        Ok::<Sent, Error>(r),
                    );
                walk_goes_on(walk, rules, roots, links, sent, true);
                assert(rules.follows(cid) <==> cid.parts().codec != CODEC_RAW);
                if q.emits() {
                    assert(cids_sent(next.sent) =~= sent.push(cid));
                }
                assert(cids_sent(next.sent) == with_sent(sent, more));
                assert(in_walk(roots, plan, store, next, after));
            } else {
                walk_goes_on(walk, rules, roots, links, sent, true);
                assert(in_walk(roots, plan, store, next, after));
            }
        },
        _ => {},
    }
}

proof fn lemma_runs_are_in_order(
    root: Cid,
    requested: Seq<Cid>,
    plan: SendPlan,
    store: Map<Cid, Seq<u8>>,
    begun: Sending,
    run: Seq<Departure>,
    n: int,
)
    requires
        readable(store),
        send_begins(root, requested, plan, begun),
        is_whole_run(store, begun, run),
        0 <= n < run.len(),
    ensures
        in_order_so_far(root, requested.to_set(), plan, store, run[n]),
    decreases n,
{
    vstd::seq_lib::seq_to_set_is_finite(requested);
    if n == 0 {
        runs_begin_before_sending(root, requested, plan, store, run[0]);
        lemma_sending_soon(root, requested.to_set(), plan, store, run[0]);
    } else {
        lemma_runs_are_in_order(root, requested, plan, store, begun, run, n - 1);
        assert(departs(store, run[n - 1], run[n - 1 + 1]));
        lemma_departs(root, requested.to_set(), plan, store, run[n - 1], run[n]);
    }
}

/// What the bloom filter of a plan seems to hold.
spec fn held_in(plan: SendPlan) -> Set<Cid> {
    Set::new(|c: Cid| in_bloom(plan.bloom, c.parts().encoding()))
}

proof fn lemma_whole_runs(
    root: Cid,
    requested: Seq<Cid>,
    plan: SendPlan,
    store: Map<Cid, Seq<u8>>,
    begun: Sending,
    run: Seq<Departure>,
)
    requires
        readable(store),
        send_begins(root, requested, plan, begun),
        is_whole_run(store, begun, run),
    ensures
        sent_exactly(
            store,
            run.last().sent,
            to_be_sent(
                store,
                below(root, store, requested.to_set()),
                plan.skip_roots,
                held_in(plan),
                plan.prune_bloom_subgraphs,
            ),
        ),
{
    let last = run.last();
    let roots = below(root, store, requested.to_set());
    let rules = plan.rules(roots);
    let links = links_in(store);
    let graph = walk_graph(rules, links);
    let skipped = plan.skip_roots;
    let held = held_in(plan);
    lemma_runs_are_in_order(root, requested, plan, store, begun, run, run.len() - 1);
    assert(!(exists|search: SearchState| #[trigger]
        in_search(root, requested.to_set(), plan, store, last, search)));
    let walk = choose|walk: WalkState| #[trigger] in_walk(roots, plan, store, last, walk);
    let sent = cids_sent(last.sent);
    walk_ends(walk, rules, roots, links, sent);
    let dead_ends = if plan.prune_bloom_subgraphs {
        skipped.union(held)
    } else {
        skipped
    };
    let open = links.remove_keys(dead_ends.difference(roots));
    lemma_same_reach(rules, roots, store, open);
    let cids = to_be_sent(store, roots, skipped, held, plan.prune_bloom_subgraphs);
    assert forall|c: Cid| sent.to_set().contains(c) <==> cids.contains(c) by {
        assert(sent.contains(c) <==> reach(roots, graph).contains(c) && rules.sends(c));
        assert(rules.sends(c) <==> !skipped.union(held).difference(roots).contains(c));
    }
    assert(sent.to_set() =~= cids);
}

/// Raw blocks have no links, so it does not matter whether they are followed.
proof fn lemma_same_reach(
    rules: WalkRules,
    roots: Set<Cid>,
    store: Map<Cid, Seq<u8>>,
    open: Map<Cid, Seq<Cid>>,
)
    requires
        rules.requested == roots,
        open == links_in(store).remove_keys(
            (if rules.prune_bloom_subgraphs {
                rules.skip_roots.union(
                    Set::new(|c: Cid| in_bloom(rules.bloom, c.parts().encoding())),
                )
            } else {
                rules.skip_roots
            }).difference(roots),
        ),
    ensures
        reach(roots, walk_graph(rules, links_in(store))) == reach(roots, open),
{
    let graph = walk_graph(rules, links_in(store));
    assert forall|c: Cid, d: Cid|
        (graph.dom().contains(c) && #[trigger] graph[c].contains(d)) <==> (open.dom().contains(c)
            && open[c].contains(d)) by {
        if links_in(store).dom().contains(c) && c.parts().codec == CODEC_RAW {
            assert(links_in(store)[c] =~= Seq::<Cid>::empty());
        }
    }
    reach_contains_seeds(roots, graph);
    reach_contains_seeds(roots, open);
    reach_is_closed(roots, graph);
    reach_is_closed(roots, open);
    assert forall|c: Cid, d: Cid|
        reach(roots, graph).contains(c) && open.dom().contains(c) && #[trigger] open[c].contains(
            d,
        ) implies reach(roots, graph).contains(d) by {
        assert(graph[c].contains(d) ==> graph.dom().contains(c) ==> reach(roots, graph).contains(
            d,
        ));
        if c.parts().codec == CODEC_RAW {
            assert(links_in(store)[c] =~= Seq::<Cid>::empty());
        }
        assert(graph.dom().contains(c));
        assert(graph[c] == open[c]);
    }
    assert forall|c: Cid, d: Cid|
        reach(roots, open).contains(c) && graph.dom().contains(c) && #[trigger] graph[c].contains(
            d,
        ) implies reach(roots, open).contains(d) by {
        assert(open.dom().contains(c));
        assert(open[c] == graph[c]);
        assert(open[c].contains(d));
    }
    reach_is_least(roots, open, reach(roots, graph));
    reach_is_least(roots, graph, reach(roots, open));
    assert(reach(roots, graph) =~= reach(roots, open));
}

/// Whatever asks for a run to begin without a receiver state, a run of the sending side sends all that
/// can be reached from the root, each block once.
pub proof fn everything_is_sent_at_first(
    root: Cid,
    config: Config,
    prune: bool,
    store: Map<Cid, Seq<u8>>,
    send_limit: Option<usize>,
    begun: Sending,
    sink: CarSink,
    writing: CarWriting,
    run: Seq<Departure>,
)
    requires
        readable(store),
        call_ensures(
            block_send_block_stream_pruning,
            (root, None::<ReceiverState>, prune),
            begun,
        ) || call_ensures(block_send_block_stream, (root, None::<ReceiverState>), begun)
            || call_ensures(block_send, (root, None::<ReceiverState>, &config), (begun, sink))
            || call_ensures(
            block_send_car_stream,
            (root, None::<ReceiverState>, send_limit, prune),
            (begun, writing),
        ),
        is_whole_run(store, begun, run),
    ensures
        sent_exactly(store, run.last().sent, reach(set![root], links_in(store))),
{
    let links = links_in(store);
    let none = None::<ReceiverState>;
    let pruning = if call_ensures(block_send_block_stream_pruning, (root, none, prune), begun)
        || call_ensures(
        block_send_car_stream,
        (root, none, send_limit, prune),
        (begun, writing),
    ) {
        prune
    } else if call_ensures(block_send_block_stream, (root, none), begun) {
        false
    } else {
        config.bloom_implies_complete_subgraphs
    };
    let requested = requested_roots(root, none);
    let plan = choose|plan: SendPlan| #[trigger]
        plan.follows_from(none, pruning) && send_begins(root, requested, plan, begun);
    lemma_whole_runs(root, requested, plan, store, begun, run);
    let roots = below(root, store, requested.to_set());
    reach_contains_seeds(set![root], links);
    assert(roots =~= set![root]) by {
        assert(requested[0] == root);
        assert(set![root].contains(root));
    }
    assert(held_in(plan) =~= Set::<Cid>::empty());
    let nothing = Set::<Cid>::empty();
    assert(nothing.union(nothing).difference(roots) =~= nothing);
    assert(nothing.difference(roots) =~= nothing);
    assert(links.remove_keys(nothing) =~= links);
    assert(reach(roots, links).difference(nothing) =~= reach(roots, links));
}

/// Whatever asks for a run to begin, a run of the sending side sends, of what the receiver state
/// requests and what lies below that, just what the receiver state does not rule out.
pub proof fn what_is_asked_for_is_sent(
    root: Cid,
    state: ReceiverState,
    config: Config,
    prune: bool,
    store: Map<Cid, Seq<u8>>,
    send_limit: Option<usize>,
    begun: Sending,
    sink: CarSink,
    writing: CarWriting,
    run: Seq<Departure>,
)
    requires
        readable(store),
        call_ensures(block_send_block_stream_pruning, (root, Some(state), prune), begun)
            || call_ensures(
            block_send_car_stream,
            (root, Some(state), send_limit, prune),
            (begun, writing),
        ) || (
        !prune && call_ensures(block_send_block_stream, (root, Some(state)), begun)) || (prune
            == config.bloom_implies_complete_subgraphs && call_ensures(
            block_send,
            (root, Some(state), &config),
            (begun, sink),
        )),
        is_whole_run(store, begun, run),
    ensures
        sent_exactly(
            store,
            run.last().sent,
            to_be_sent(
                store,
                below(root, store, state.missing_subgraph_roots@.to_set()),
                state.skip_subgraph_roots@.to_set(),
                held_by(state),
                prune,
            ),
        ),
{
    let requested = requested_roots(root, Some(state));
    let plan = choose|plan: SendPlan| #[trigger]
        plan.follows_from(Some(state), prune) && send_begins(root, requested, plan, begun);
    lemma_whole_runs(root, requested, plan, store, begun, run);
    assert(held_in(plan) =~= held_by(state));
}

/// What the bloom filter of a request seems to hold. Without bits there is none.
pub open spec fn held_by_request(request: PullRequest) -> Set<Cid> {
    Set::new(
        |c: Cid|
            request.bloom_bytes@.len() > 0 && bloom_hit(
                request.bloom_hash_count as nat,
                request.bloom_bytes@,
                c.parts().encoding(),
            ),
    )
}

/// A response to a request, whether it is streamed or not, sends, of what is requested and what lies
/// below that, just what the request does not rule out.
pub proof fn responses_send_what_is_requested(
    root: Cid,
    request: PullRequest,
    config: Config,
    prune: bool,
    store: Map<Cid, Seq<u8>>,
    begun: Sending,
    sink: CarSink,
    frames: CarFrames,
    limited: LimitedCarFrames,
    run: Seq<Departure>,
)
    requires
        readable(store),
        (prune == config.bloom_implies_complete_subgraphs && call_ensures(
            pull::response,
            (root, request, &config),
            (begun, sink),
        )) || (!prune && call_ensures(
            pull::response_streaming,
            (root, request),
            (begun, frames),
        )) || (prune == config.bloom_implies_complete_subgraphs && call_ensures(
            pull::response_streaming_with_config,
            (root, request, &config),
            (begun, limited),
        )),
        is_whole_run(store, begun, run),
    ensures
        sent_exactly(
            store,
            run.last().sent,
            to_be_sent(
                store,
                below(root, store, request.resources@.to_set()),
                request.skip_subgraph_roots@.to_set(),
                held_by_request(request),
                prune,
            ),
        ),
{
    let (state, plan) = choose|state: ReceiverState, plan: SendPlan|
        #[trigger] pull::is_requested(request, state) && #[trigger] plan.follows_from(
            Some(state),
            prune,
        ) && send_begins(root, request.resources@, plan, begun);
    lemma_whole_runs(root, request.resources@, plan, store, begun, run);
    assert(held_in(plan) =~= held_by_request(request));
}

/// A search for requested roots takes a missing block for an error, and no other.
pub proof fn missing_blocks_end_a_search(
    q: PresenceQuestion,
    present: bool,
    r: Result<Sending, Error>,
)
    requires
        call_ensures(PresenceQuestion::answer, (q, present), r),
    ensures
        r is Ok <==> present,
        r matches Err(e) ==> (e matches Error::CidNotFound { cid } && cid == q.asks()),
{
}

/// A missing block is an error only if it is to be sent.
pub proof fn missing_blocks_end_a_walk(q: BlockQuestion, r: Result<Sending, Error>)
    requires
        call_ensures(BlockQuestion::absent, (q,), r),
    ensures
        r is Ok <==> !q.emits(),
        r matches Err(e) ==> (e matches Error::CidNotFound { cid } && cid == q.asks()),
{
}

/// A block of the store is never an error for the sending side if its links can be read. Its links are
/// handed out to be cached if they are not cached already, and those are the links that it has.
pub proof fn readable_blocks_are_sent(
    q: BlockQuestion,
    bytes: Bytes,
    cached: Option<Vec<Cid>>,
    r: Result<Sent, Error>,
)
    requires
        call_ensures(BlockQuestion::answer, (q, bytes, cached), r),
        block_links(q.asks().parts().codec, bytes_of(bytes)) is Some,
    ensures
        r matches Ok(sent) && {
            let raw = q.asks().parts().codec == CODEC_RAW;
            &&& sent.block == (if q.emits() {
                Some((q.asks(), bytes))
            } else {
                None
            })
            &&& sent.to_cache is Some <==> !raw && cached is None
            &&& sent.to_cache matches Some(links) ==> Some(links@) == block_links(
                q.asks().parts().codec,
                bytes_of(bytes),
            )
        },
{
}

/// Cached links, or none as of a raw block, stand in for reading the links of a block. Without them a block
/// whose links cannot be read is an error, which says whether it is for its codec.
pub proof fn unreadable_blocks_end_a_walk(
    q: BlockQuestion,
    bytes: Bytes,
    cached: Option<Vec<Cid>>,
    r: Result<Sent, Error>,
)
    requires
        call_ensures(BlockQuestion::answer, (q, bytes, cached), r),
    ensures
        r is Ok <==> cached is Some || block_links(q.asks().parts().codec, bytes_of(bytes)) is Some,
        r matches Err(e) ==> {
            ||| e matches Error::ParsingError(ReferencesError::UnsupportedCodec { cid })
                && cid == q.asks() && !codec_supported(q.asks().parts().codec)
            ||| e matches Error::ParsingError(ReferencesError::Undecodable { cid })
                && cid == q.asks() && codec_supported(q.asks().parts().codec)
        },
{
}

/// Raw blocks are the only ones whose links are not needed.
pub proof fn raw_blocks_need_no_links(q: BlockQuestion, r: bool)
    requires
        call_ensures(BlockQuestion::needs_links, (&q,), r),
    ensures
        r <==> q.asks().parts().codec != 0x55,
{
}

/// Each question is about the block that it says.
pub proof fn questions_say_what_they_ask(
    presence: PresenceQuestion,
    links: LinksQuestion,
    cache: CacheQuestion,
    block: BlockQuestion,
    asked: (Cid, Cid, Cid, Cid),
)
    requires
        call_ensures(PresenceQuestion::cid, (&presence,), asked.0),
        call_ensures(LinksQuestion::cid, (&links,), asked.1),
        call_ensures(CacheQuestion::cid, (&cache,), asked.2),
        call_ensures(BlockQuestion::cid, (&block,), asked.3),
    ensures
        asked.0 == presence.asks(),
        asked.1 == links.asks(),
        asked.2 == cache.asks(),
        asked.3 == block.asks(),
{
}

} // verus!
