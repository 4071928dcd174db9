//! Reachability in a graph of blocks.

use crate::cid::Cid;
use vstd::prelude::*;

verus! {

/// Whether each identifier of `path` but the last is a node of `graph` that links to the next.
pub open spec fn is_path(graph: Map<Cid, Seq<Cid>>, path: Seq<Cid>) -> bool {
    &&& path.len() > 0
    &&& forall|i: int|
        0 <= i < path.len() - 1 ==> {
            &&& graph.dom().contains(#[trigger] path[i])
            &&& graph[path[i]].contains(path[i + 1])
        }
}

/// Whether `path` leads from one of `seeds` to `cid`.
pub open spec fn leads_to(
    seeds: Set<Cid>,
    graph: Map<Cid, Seq<Cid>>,
    path: Seq<Cid>,
    cid: Cid,
) -> bool {
    &&& is_path(graph, path)
    &&& seeds.contains(path[0])
    &&& path.last() == cid
}

/// All identifiers that can be reached from `seeds` by following the links of the nodes of
/// `graph`. Identifiers that are not nodes are reached, but nothing is reached through them.
#[verifier::opaque]
pub open spec fn reach(seeds: Set<Cid>, graph: Map<Cid, Seq<Cid>>) -> Set<Cid> {
    Set::new(|cid: Cid| exists|path: Seq<Cid>| #[trigger] leads_to(seeds, graph, path, cid))
}

/// Whether `cids` contains with each node of `graph` all that it links to.
pub open spec fn closed_under(cids: Set<Cid>, graph: Map<Cid, Seq<Cid>>) -> bool {
    forall|c: Cid, d: Cid|
        cids.contains(c) && graph.dom().contains(c) && #[trigger] graph[c].contains(d)
            ==> cids.contains(d)
}

/// Every seed is reached.
pub proof fn reach_contains_seeds(seeds: Set<Cid>, graph: Map<Cid, Seq<Cid>>)
    ensures
        seeds.subset_of(reach(seeds, graph)),
{
    reveal(reach);
    assert forall|c: Cid| seeds.contains(c) implies reach(seeds, graph).contains(c) by {
        assert(leads_to(seeds, graph, seq![c], c));
    }
}

/// What a reached node links to is reached.
pub proof fn reach_is_closed(seeds: Set<Cid>, graph: Map<Cid, Seq<Cid>>)
    ensures
        closed_under(reach(seeds, graph), graph),
{
    reveal(reach);
    assert forall|c: Cid, d: Cid|
        reach(seeds, graph).contains(c) && graph.dom().contains(c) && #[trigger] graph[c].contains(
            d,
        ) implies reach(seeds, graph).contains(d) by {
        let path = choose|path: Seq<Cid>| #[trigger] leads_to(seeds, graph, path, c);
        let longer = path.push(d);
        assert forall|i: int| 0 <= i < longer.len() - 1 implies {
            &&& graph.dom().contains(#[trigger] longer[i])
            &&& graph[longer[i]].contains(longer[i + 1])
        } by {
            if i < path.len() - 1 {
                assert(path[i] == longer[i]);
                assert(path[i + 1] == longer[i + 1]);
            }
        }
        assert(leads_to(seeds, graph, longer, d));
    }
}

/// Nothing else is reached: any set that contains the seeds and is closed under the links contains
/// all that is reached.
pub proof fn reach_is_least(seeds: Set<Cid>, graph: Map<Cid, Seq<Cid>>, cids: Set<Cid>)
    requires
        seeds.subset_of(cids),
        closed_under(cids, graph),
    ensures
        reach(seeds, graph).subset_of(cids),
{
    reveal(reach);
    assert forall|c: Cid| reach(seeds, graph).contains(c) implies cids.contains(c) by {
        let path = choose|path: Seq<Cid>| #[trigger] leads_to(seeds, graph, path, c);
        lemma_path_stays_inside(seeds, graph, cids, path, path.len() - 1);
    }
}

proof fn lemma_path_stays_inside(
    seeds: Set<Cid>,
    graph: Map<Cid, Seq<Cid>>,
    cids: Set<Cid>,
    path: Seq<Cid>,
    i: int,
)
    requires
        seeds.subset_of(cids),
        closed_under(cids, graph),
        is_path(graph, path),
        seeds.contains(path[0]),
        0 <= i < path.len(),
    ensures
        cids.contains(path[i]),
    decreases i,
{
    if i > 0 {
        lemma_path_stays_inside(seeds, graph, cids, path, i - 1);
        assert(graph.dom().contains(path[i - 1]));
        assert(graph[path[i - 1]].contains(path[i - 1 + 1]));
    }
}

/// More seeds and more nodes reach more.
pub proof fn reach_is_monotone(
    seeds: Set<Cid>,
    graph: Map<Cid, Seq<Cid>>,
    more_seeds: Set<Cid>,
    larger: Map<Cid, Seq<Cid>>,
)
    requires
        seeds.subset_of(more_seeds),
        graph.submap_of(larger),
    ensures
        reach(seeds, graph).subset_of(reach(more_seeds, larger)),
{
    reach_contains_seeds(more_seeds, larger);
    reach_is_closed(more_seeds, larger);
    let all = reach(more_seeds, larger);
    assert forall|c: Cid, d: Cid|
        all.contains(c) && graph.dom().contains(c) && #[trigger] graph[c].contains(d) implies
        all.contains(d) by {
        assert(larger.dom().contains(c));
        assert(larger[c] == graph[c]);
        assert(larger[c].contains(d));
    }
    reach_is_least(seeds, graph, all);
}

} // verus!
