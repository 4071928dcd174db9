//! In which order a walk over blocks sends them, and how often it reads them.
//!
//! A store is described by the links of the blocks that it holds.

use crate::block_walk::{fresh, lemma_fresh, WalkRules, WalkState, WalkStep};
use crate::cid::Cid;
use crate::dag::reach;
use crate::sending::{
    concerns, lemma_contains_add, lemma_contains_push, lemma_expanded, lemma_step,
    lemma_step_in_level, links_to, read_cids, settled, tidy, waiting, walk_goes_on, walk_graph,
    walk_round, walk_run, walking, walks_go_well, what_is_needed_was_come_across, with_sent,
};
use vstd::prelude::*;

verus! {

/// What can be reached from some roots by following no more than the given number of links.
pub open spec fn within(roots: Set<Cid>, graph: Map<Cid, Seq<Cid>>, links: nat) -> Set<Cid>
    decreases links,
{
    if links == 0 {
        roots
    } else {
        let closer = within(roots, graph, (links - 1) as nat);
        closer.union(Set::new(|d: Cid| exists|c: Cid| closer.contains(c) && links_to(graph, c, d)))
    }
}

/// Whether a CID is no farther from the roots than another one.
pub open spec fn no_farther(roots: Set<Cid>, graph: Map<Cid, Seq<Cid>>, a: Cid, b: Cid) -> bool {
    forall|n: nat| #[trigger]
        within(roots, graph, n).contains(b) ==> within(roots, graph, n).contains(a)
}

/// The blocks that a walk from the given roots has read, and those that it has not read because their
/// links were cached, after as many rounds as there are answers of the cache.
pub open spec fn walk_log(
    rules: WalkRules,
    roots: Seq<Cid>,
    store: Map<Cid, Seq<Cid>>,
    cached: Seq<bool>,
) -> (Seq<Cid>, Seq<Cid>)
    decreases cached.len(),
{
    if cached.len() == 0 {
        (Seq::empty(), Seq::empty())
    } else {
        let (reads, hits) = walk_log(rules, roots, store, cached.drop_last());
        let before = walk_run(rules, roots, store, cached.drop_last()).0;
        match before.step(rules).0 {
            WalkStep::Read(cid, _) => (reads.push(cid), hits),
            WalkStep::CachedLinks(cid) => if cached.last() && store.dom().contains(cid) {
                (reads, hits.push(cid))
            } else {
                (reads, hits)
            },
            WalkStep::Done => (reads, hits),
        }
    }
}

/// A walk reads no block twice. It reads each block that it sends, and no block whose links it got from
/// the cache.
pub proof fn blocks_are_read_once(
    rules: WalkRules,
    roots: Seq<Cid>,
    store: Map<Cid, Seq<Cid>>,
    cached: Seq<bool>,
)
    requires
        reach(roots.to_set(), walk_graph(rules, store)).subset_of(store.dom()),
    ensures
        ({
            let sent = walk_run(rules, roots, store, cached).1;
            let (reads, hits) = walk_log(rules, roots, store, cached);
            &&& reads.no_duplicates()
            &&& forall|c: Cid| #[trigger] sent.contains(c) ==> reads.contains(c)
            &&& forall|c: Cid| #[trigger] hits.contains(c) ==> !reads.contains(c)
            &&& forall|c: Cid| #[trigger]
                reads.contains(c) && !sent.contains(c) ==> rules.passes_through(c)
        }),
{
    lemma_log(rules, roots, store, cached);
}

proof fn lemma_log(
    rules: WalkRules,
    roots: Seq<Cid>,
    store: Map<Cid, Seq<Cid>>,
    cached: Seq<bool>,
)
    requires
        reach(roots.to_set(), walk_graph(rules, store)).subset_of(store.dom()),
    ensures
        ({
            let (state, sent) = walk_run(rules, roots, store, cached);
            let (reads, hits) = walk_log(rules, roots, store, cached);
            &&& reads.no_duplicates()
            &&& forall|c: Cid| #[trigger] sent.contains(c) ==> reads.contains(c)
            &&& forall|c: Cid| #[trigger] hits.contains(c) ==> settled(state, c) && !reads.contains(c)
            &&& forall|c: Cid| #[trigger] reads.contains(c) ==> settled(state, c)
            &&& forall|c: Cid| #[trigger]
                reads.contains(c) && !sent.contains(c) ==> rules.passes_through(c)
        }),
    decreases cached.len(),
{
    if cached.len() > 0 {
        let earlier = cached.drop_last();
        let (before, sent_before) = walk_run(rules, roots, store, earlier);
        let (state, sent) = walk_run(rules, roots, store, cached);
        let (reads_before, hits_before) = walk_log(rules, roots, store, earlier);
        let (reads, hits) = walk_log(rules, roots, store, cached);
        let need = before.step(rules).0;
        lemma_log(rules, roots, store, earlier);
        walks_go_well(rules, roots, store, earlier);
        what_is_needed_was_come_across(before, rules, roots.to_set(), store, sent_before);
        match need {
            WalkStep::Read(c, _) => {
                assert(concerns(need, c));
                lemma_step(before, rules);
            },
            WalkStep::CachedLinks(c) => {
                assert(concerns(need, c));
            },
            WalkStep::Done => {},
        }
        walk_goes_on(before, rules, roots.to_set(), store, sent_before, cached.last());
        assert forall|c: Cid| #[trigger] reads.contains(c) <==> reads_before.contains(c) || (
        need is Read && concerns(need, c)) by {
            if need is Read {
                lemma_contains_push(reads_before, need->Read_0, c);
            }
        }
        assert forall|c: Cid| #[trigger] hits.contains(c) ==> hits_before.contains(c) || (
        need is CachedLinks && concerns(need, c) && cached.last() && store.dom().contains(c)) by {
            if need is CachedLinks {
                lemma_contains_push(hits_before, need->CachedLinks_0, c);
            }
        }
        assert forall|c: Cid| #[trigger] sent.contains(c) <==> sent_before.contains(c) || (
        need matches WalkStep::Read(cid, true) && cid == c) by {
            if need is Read {
                lemma_contains_push(sent_before, need->Read_0, c);
            }
        }
        assert forall|c: Cid| #[trigger] hits.contains(c) implies settled(state, c)
            && !reads.contains(c) by {
            if hits_before.contains(c) {
                assert(settled(before, c));
            }
        }
        assert forall|c: Cid| #[trigger] reads.contains(c) implies settled(state, c) by {
            if reads_before.contains(c) {
                assert(settled(before, c));
            }
        }
        assert(reads.no_duplicates()) by {
            if need is Read {
                assert(concerns(need, need->Read_0));
                assert(!reads_before.contains(need->Read_0));
            }
        }
        assert forall|c: Cid| #[trigger] sent.contains(c) implies reads.contains(c) by {
            if !sent_before.contains(c) {
                assert(concerns(need, c));
            }
        }
        assert forall|c: Cid| #[trigger]
            reads.contains(c) && !sent.contains(c) implies rules.passes_through(c) by {
            if reads_before.contains(c) {
                assert(!sent_before.contains(c));
            }
        }
    }
}

/// Whether a CID belongs to the current level and waits there.
spec fn current(state: WalkState, cid: Cid) -> bool {
    state.level.contains(cid) || read_cids(state.to_read).contains(cid)
}

/// Whether the levels of a walk are layers around the roots, and what was sent is no farther out than
/// the current one.
spec fn layered(
    state: WalkState,
    roots: Set<Cid>,
    graph: Map<Cid, Seq<Cid>>,
    sent: Seq<Cid>,
    depth: nat,
) -> bool {
    &&& forall|c: Cid| #[trigger]
        current(state, c) ==> within(roots, graph, depth).contains(c) && is_outside(
            roots,
            graph,
            depth,
            c,
        )
    &&& forall|c: Cid| #[trigger]
        state.next_level.contains(c) ==> within(roots, graph, depth + 1).contains(c) && !within(
            roots,
            graph,
            depth,
        ).contains(c)
    &&& within(roots, graph, depth).subset_of(state.visited)
    &&& state.visited.subset_of(within(roots, graph, depth + 1))
    &&& forall|c: Cid| #[trigger] sent.contains(c) ==> within(roots, graph, depth).contains(c)
}

/// Whether a CID cannot be reached by fewer links.
spec fn is_outside(roots: Set<Cid>, graph: Map<Cid, Seq<Cid>>, depth: nat, cid: Cid) -> bool {
    depth > 0 ==> !within(roots, graph, (depth - 1) as nat).contains(cid)
}

proof fn lemma_within_grows(roots: Set<Cid>, graph: Map<Cid, Seq<Cid>>, a: nat, b: nat)
    requires
        a <= b,
    ensures
        within(roots, graph, a).subset_of(within(roots, graph, b)),
    decreases b,
{
    if a < b {
        lemma_within_grows(roots, graph, a, (b - 1) as nat);
    }
}

/// A step in a level only takes out of it.
proof fn lemma_layers_stay(
    state: WalkState,
    rules: WalkRules,
    roots: Set<Cid>,
    graph: Map<Cid, Seq<Cid>>,
    sent: Seq<Cid>,
    depth: nat,
)
    requires
        tidy(state, rules),
        layered(state, roots, graph, sent, depth),
    ensures
        ({
            let (need, after) = state.step_in_level(rules);
            &&& tidy(after, rules)
            &&& layered(after, roots, graph, sent, depth)
            &&& forall|c: Cid| #[trigger] concerns(need, c) ==> current(state, c)
        }),
{
    let (need, after) = state.step_in_level(rules);
    lemma_step_in_level(state, rules);
    assert forall|c: Cid| #[trigger] current(after, c) implies current(state, c) by {
        assert(waiting(after, c));
        assert(waiting(state, c));
        assert(!after.next_level.contains(c));
    }
    assert forall|c: Cid| #[trigger] concerns(need, c) implies current(state, c) by {
        assert(waiting(state, c));
        if state.next_level.contains(c) {
            assert(waiting(after, c));
        }
    }
}

/// The next level is the next layer.
proof fn lemma_next_layer(
    state: WalkState,
    rules: WalkRules,
    roots: Set<Cid>,
    store: Map<Cid, Seq<Cid>>,
    sent: Seq<Cid>,
    depth: nat,
)
    requires
        walking(state, rules, roots, store, sent),
        layered(state, roots, walk_graph(rules, store), sent, depth),
        state.step_in_level(rules).0 is Done,
    ensures
        layered(
            state.step_in_level(rules).1.descended(),
            roots,
            walk_graph(rules, store),
            sent,
            depth + 1,
        ),
        tidy(state.step_in_level(rules).1.descended(), rules),
{
    let graph = walk_graph(rules, store);
    let (need, left) = state.step_in_level(rules);
    let lower = left.descended();
    lemma_step_in_level(state, rules);
    assert(read_cids(left.to_read) =~= Seq::<Cid>::empty());
    assert(read_cids(lower.to_read) =~= Seq::<Cid>::empty());
    assert forall|d: Cid| within(roots, graph, depth + 1).contains(d) implies lower.visited.contains(
        d,
    ) by {
        if !within(roots, graph, depth).contains(d) {
            let c = choose|c: Cid|
                within(roots, graph, depth).contains(c) && links_to(graph, c, d);
            assert(state.visited.contains(c));
            assert(rules.follows(c));
            assert(!waiting(left, c)) by {
                assert(!left.next_level.contains(c));
            }
            if waiting(state, c) {
                assert(!concerns(need, c));
            }
            assert(settled(state, c));
        }
    }
    lemma_within_grows(roots, graph, depth + 1, depth + 2);
    lemma_within_grows(roots, graph, depth, depth + 1);
    assert forall|c: Cid| #[trigger] lower.level.contains(c) implies lower.visited.contains(c) by {
        assert(left.next_level.contains(c));
    }
    assert forall|c: Cid| #[trigger] current(lower, c) implies within(
        roots,
        graph,
        depth + 1,
    ).contains(c) && is_outside(roots, graph, depth + 1, c) by {
        assert(left.next_level.contains(c));
    }
}

/// Following the links of a block adds to the next layer.
proof fn lemma_expanding_adds_to_the_next_layer(
    state: WalkState,
    rules: WalkRules,
    roots: Set<Cid>,
    graph: Map<Cid, Seq<Cid>>,
    sent: Seq<Cid>,
    depth: nat,
    cid: Cid,
)
    requires
        tidy(state, rules),
        layered(state, roots, graph, sent, depth),
        within(roots, graph, depth).contains(cid),
        graph.dom().contains(cid),
    ensures
        layered(state.expanded(graph[cid]), roots, graph, sent, depth),
{
    let links = graph[cid];
    let after = state.expanded(links);
    lemma_expanded(state, rules, links);
    assert forall|d: Cid| links.contains(d) implies within(roots, graph, depth + 1).contains(d) by {
        assert(links_to(graph, cid, d));
    }
    assert forall|d: Cid| #[trigger] after.next_level.contains(d) implies within(
        roots,
        graph,
        depth + 1,
    ).contains(d) && !within(roots, graph, depth).contains(d) by {
        assert(waiting(after, d));
        if !state.next_level.contains(d) {
            lemma_contains_add(
                state.next_level,
                fresh(state.visited, links),
                d,
            );
            lemma_fresh(state.visited, links);
        }
    }
    assert forall|c: Cid| current(after, c) == current(state, c) by {}
}

/// Whether blocks come in layers: none before one that is closer to the roots.
pub open spec fn in_layers(
    roots: Set<Cid>,
    graph: Map<Cid, Seq<Cid>>,
    sent: Seq<Cid>,
) -> bool {
    forall|i: int, j: int|
        0 <= i < j < sent.len() ==> no_farther(roots, graph, #[trigger] sent[i], #[trigger] sent[j])
}

proof fn lemma_round_keeps_layers(
    state: WalkState,
    rules: WalkRules,
    roots: Set<Cid>,
    store: Map<Cid, Seq<Cid>>,
    sent: Seq<Cid>,
    cached: bool,
    depth: nat,
) -> (deeper: nat)
    requires
        walking(state, rules, roots, store, sent),
        layered(state, roots, walk_graph(rules, store), sent, depth),
        in_layers(roots, walk_graph(rules, store), sent),
    ensures
        ({
            let graph = walk_graph(rules, store);
            let (next, more) = walk_round(state, rules, store, cached);
            &&& layered(next, roots, graph, with_sent(sent, more), deeper)
            &&& in_layers(roots, graph, with_sent(sent, more))
        }),
{
    let graph = walk_graph(rules, store);
    let (first, left) = state.step_in_level(rules);
    let descends = first is Done && state.next_level.len() > 0;
    let deeper: nat = if descends {
        depth + 1
    } else {
        depth
    };
    let from = if descends {
        left.descended()
    } else {
        state
    };
    if descends {
        lemma_next_layer(state, rules, roots, store, sent, depth);
    }
    lemma_layers_stay(from, rules, roots, graph, sent, deeper);
    lemma_step_in_level(from, rules);
    let (need, after) = state.step(rules);
    assert((need, after) == from.step_in_level(rules));
    let (next, more) = walk_round(state, rules, store, cached);
    let now_sent = with_sent(sent, more);
    match need {
        WalkStep::CachedLinks(cid) => {
            assert(concerns(need, cid));
            assert(current(from, cid));
            if cached && store.dom().contains(cid) {
                assert(graph.dom().contains(cid) && graph[cid] == store[cid]);
                lemma_expanding_adds_to_the_next_layer(
                    after,
                    rules,
                    roots,
                    graph,
                    sent,
                    deeper,
                    cid,
                );
            } else {
                assert(read_cids(next.to_read) =~= read_cids(after.to_read).push(cid));
                assert forall|c: Cid| #[trigger] current(next, c) implies current(after, c) || c
                    == cid by {
                    lemma_contains_push(read_cids(after.to_read), cid, c);
                }
            }
        },
        WalkStep::Read(cid, emit) => {
            assert(concerns(need, cid));
            assert(current(from, cid));
            if rules.follows(cid) && store.dom().contains(cid) {
                assert(graph.dom().contains(cid) && graph[cid] == store[cid]);
                lemma_expanding_adds_to_the_next_layer(
                    after,
                    rules,
                    roots,
                    graph,
                    sent,
                    deeper,
                    cid,
                );
            }
            if emit {
                assert forall|c: Cid| #[trigger] now_sent.contains(c) implies within(
                    roots,
                    graph,
                    deeper,
                ).contains(c) by {
                    lemma_contains_push(sent, cid, c);
                }
                assert forall|i: int, j: int| 0 <= i < j < now_sent.len() implies no_farther(
                    roots,
                    graph,
                    #[trigger] now_sent[i],
                    #[trigger] now_sent[j],
                ) by {
                    if j < sent.len() {
                        assert(now_sent[i] == sent[i] && now_sent[j] == sent[j]);
                    } else {
                        assert(now_sent[i] == sent[i] && now_sent[j] == cid);
                        assert(sent.contains(sent[i]));
                        assert forall|n: nat| #[trigger]
                            within(roots, graph, n).contains(cid) implies within(
                            roots,
                            graph,
                            n,
                        ).contains(sent[i]) by {
                            if n < deeper {
                                lemma_within_grows(roots, graph, n, (deeper - 1) as nat);
                            } else {
                                lemma_within_grows(roots, graph, deeper, n);
                            }
                        }
                    }
                }
            }
        },
        WalkStep::Done => {},
    }
    deeper
}

proof fn lemma_walk_keeps_layers(
    rules: WalkRules,
    roots: Seq<Cid>,
    store: Map<Cid, Seq<Cid>>,
    cached: Seq<bool>,
) -> (depth: nat)
    requires
        reach(roots.to_set(), walk_graph(rules, store)).subset_of(store.dom()),
    ensures
        ({
            let graph = walk_graph(rules, store);
            let (state, sent) = walk_run(rules, roots, store, cached);
            &&& layered(state, roots.to_set(), graph, sent, depth)
            &&& in_layers(roots.to_set(), graph, sent)
        }),
    decreases cached.len(),
{
    let graph = walk_graph(rules, store);
    if cached.len() == 0 {
        let state = WalkState::initial(roots);
        lemma_fresh(Set::empty(), roots);
        assert(read_cids(state.to_read) =~= Seq::<Cid>::empty());
        lemma_within_grows(roots.to_set(), graph, 0, 1);
        assert forall|c: Cid| #[trigger] current(state, c) implies roots.to_set().contains(c) by {
            assert(state.level.contains(c));
        }
        0
    } else {
        let earlier = cached.drop_last();
        let depth = lemma_walk_keeps_layers(rules, roots, store, earlier);
        let (before, sent) = walk_run(rules, roots, store, earlier);
        walks_go_well(rules, roots, store, earlier);
        lemma_round_keeps_layers(
            before,
            rules,
            roots.to_set(),
            store,
            sent,
            cached.last(),
            depth,
        )
    }
}

/// Blocks are sent breadth-first: none comes before one that is closer to the roots, going by the links
/// that are followed.
pub proof fn blocks_come_in_layers(
    rules: WalkRules,
    roots: Seq<Cid>,
    store: Map<Cid, Seq<Cid>>,
    cached: Seq<bool>,
)
    requires
        reach(roots.to_set(), walk_graph(rules, store)).subset_of(store.dom()),
    ensures
        in_layers(
            roots.to_set(),
            walk_graph(rules, store),
            walk_run(rules, roots, store, cached).1,
        ),
{
    let _ = lemma_walk_keeps_layers(rules, roots, store, cached);
}

} // verus!
