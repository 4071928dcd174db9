//! What incremental verification finds out, whatever the order in which blocks arrive.
//!
//! A store is described by the links of the blocks that it holds.

use crate::cid::Cid;
use crate::dag::{reach, reach_contains_seeds, reach_is_closed, reach_is_least, reach_is_monotone};
use crate::incremental_verification::{lemma_settled_prefix, DagState};
use vstd::prelude::*;

verus! {

/// The part of a store that traversal goes through: what lies below the boundary is left out.
pub open spec fn above(boundary: Set<Cid>, store: Map<Cid, Seq<Cid>>) -> Map<Cid, Seq<Cid>> {
    store.remove_keys(boundary)
}

/// Everything that traversal can come across from the given roots.
pub open spec fn in_sight(
    roots: Set<Cid>,
    boundary: Set<Cid>,
    store: Map<Cid, Seq<Cid>>,
) -> Set<Cid> {
    reach(roots, above(boundary, store))
}

/// The state describes the store: of all that is in sight, what is present is "have", what is
/// missing is "want", and what belongs to the boundary is a boundary hit.
pub open spec fn explored(state: DagState, roots: Set<Cid>, store: Map<Cid, Seq<Cid>>) -> bool {
    let sight = in_sight(roots, state.boundary, store);
    &&& state.have == sight.intersect(store.dom()).difference(state.boundary)
    &&& state.want == sight.difference(store.dom()).difference(state.boundary)
    &&& state.boundary_hits == sight.intersect(state.boundary)
}

/// The state that describes a store.
pub open spec fn exploration_of(
    roots: Set<Cid>,
    boundary: Set<Cid>,
    store: Map<Cid, Seq<Cid>>,
) -> DagState {
    let sight = in_sight(roots, boundary, store);
    DagState {
        want: sight.difference(store.dom()).difference(boundary),
        have: sight.intersect(store.dom()).difference(boundary),
        boundary,
        boundary_hits: sight.intersect(boundary),
    }
}

/// What the state has recorded so far is right, and what it has not recorded yet will be come
/// across from the CIDs in the queue.
pub open spec fn exploring(
    state: DagState,
    queue: Seq<Cid>,
    roots: Set<Cid>,
    store: Map<Cid, Seq<Cid>>,
) -> bool {
    let sight = in_sight(roots, state.boundary, store);
    let known = state.have.union(state.want).union(state.boundary_hits).union(queue.to_set());
    &&& state.have.subset_of(store.dom())
    &&& state.want.disjoint(store.dom())
    &&& state.have.disjoint(state.boundary)
    &&& state.want.disjoint(state.boundary)
    &&& state.boundary_hits.subset_of(state.boundary)
    &&& known.subset_of(sight)
    &&& roots.subset_of(known)
    &&& forall|c: Cid, d: Cid|
        state.have.contains(c) && #[trigger] store[c].contains(d) ==> known.contains(d)
}

/// One round of traversal: the CIDs at the front of the queue that need no answer are passed over,
/// the store is asked about the next one, and if it is present its links join the queue.
pub open spec fn discover_round(
    state: DagState,
    queue: Seq<Cid>,
    store: Map<Cid, Seq<Cid>>,
) -> (DagState, Seq<Cid>) {
    let n = state.settled_prefix(queue) as int;
    let passed = state.passed_over(queue.take(n));
    if n >= queue.len() {
        (passed, Seq::empty())
    } else if store.dom().contains(queue[n]) {
        (passed.marked(queue[n], true), queue.skip(n + 1) + store[queue[n]])
    } else {
        (passed.marked(queue[n], false), queue.skip(n + 1))
    }
}

/// Several rounds of traversal.
pub open spec fn discover_rounds(
    state: DagState,
    queue: Seq<Cid>,
    store: Map<Cid, Seq<Cid>>,
    rounds: nat,
) -> (DagState, Seq<Cid>)
    decreases rounds,
{
    if rounds == 0 {
        (state, queue)
    } else {
        let (before, left) = discover_rounds(state, queue, store, (rounds - 1) as nat);
        discover_round(before, left, store)
    }
}

/// What a block in sight links to is in sight.
pub proof fn links_are_in_sight(
    roots: Set<Cid>,
    boundary: Set<Cid>,
    store: Map<Cid, Seq<Cid>>,
    cid: Cid,
    link: Cid,
)
    requires
        in_sight(roots, boundary, store).contains(cid),
        store.dom().contains(cid),
        !boundary.contains(cid),
        store[cid].contains(link),
    ensures
        in_sight(roots, boundary, store).contains(link),
{
    reach_is_closed(roots, above(boundary, store));
    assert(above(boundary, store).dom().contains(cid));
    assert(above(boundary, store)[cid].contains(link));
}

/// More blocks bring more in sight.
pub proof fn sight_grows(
    roots: Set<Cid>,
    boundary: Set<Cid>,
    store: Map<Cid, Seq<Cid>>,
    larger: Map<Cid, Seq<Cid>>,
)
    requires
        store.submap_of(larger),
    ensures
        in_sight(roots, boundary, store).subset_of(in_sight(roots, boundary, larger)),
{
    assert(above(boundary, store).submap_of(above(boundary, larger)));
    reach_is_monotone(roots, above(boundary, store), roots, above(boundary, larger));
}

/// A new verification starts out exploring.
pub proof fn verification_starts_exploring(
    boundary: Set<Cid>,
    queue: Seq<Cid>,
    roots: Set<Cid>,
    store: Map<Cid, Seq<Cid>>,
)
    requires
        queue.to_set() == roots.difference(boundary),
    ensures
        exploring(
            DagState { boundary_hits: roots.intersect(boundary), ..DagState::initial(boundary) },
            queue,
            roots,
            store,
        ),
{
    reach_contains_seeds(roots, above(boundary, store));
}

/// Each round goes on exploring.
pub proof fn rounds_keep_exploring(
    state: DagState,
    queue: Seq<Cid>,
    roots: Set<Cid>,
    store: Map<Cid, Seq<Cid>>,
)
    requires
        exploring(state, queue, roots, store),
    ensures
        ({
            let (next, left) = discover_round(state, queue, store);
            exploring(next, left, roots, store)
        }),
{
    let n = state.settled_prefix(queue) as int;
    let (next, left) = discover_round(state, queue, store);
    let sight = in_sight(roots, state.boundary, store);
    let known = state.have.union(state.want).union(state.boundary_hits).union(queue.to_set());
    let now_known = next.have.union(next.want).union(next.boundary_hits).union(left.to_set());
    lemma_settled_prefix(state, queue);
    reach_is_closed(roots, above(state.boundary, store));
    assert forall|c: Cid| known.contains(c) implies now_known.contains(c) by {
        if queue.contains(c) {
            let i = choose|i: int| 0 <= i < queue.len() && queue[i] == c;
            if i < n {
                assert(queue.take(n)[i] == c);
                assert(queue.take(n).to_set().contains(c));
                assert(state.settles(queue[i]));
            } else if i > n {
                assert(queue.skip(n + 1)[i - n - 1] == c);
                assert(left[i - n - 1] == c);
                assert(left.to_set().contains(c));
            }
        }
    }
    assert forall|c: Cid| now_known.contains(c) implies sight.contains(c) by {
        if left.contains(c) {
            let i = choose|i: int| 0 <= i < left.len() && left[i] == c;
            if i < queue.len() - n - 1 {
                assert(queue[i + n + 1] == c);
                assert(queue.to_set().contains(c));
            } else {
                let asked = queue[n];
                let j = i - (queue.len() - n - 1);
                assert(store[asked][j] == c);
                assert(queue.to_set().contains(asked));
                assert(above(state.boundary, store).dom().contains(asked));
                assert(above(state.boundary, store)[asked].contains(c));
            }
        } else if next.boundary_hits.contains(c) {
            if !state.boundary_hits.contains(c) {
                let i = choose|i: int| 0 <= i < queue.take(n).len() && queue.take(n)[i] == c;
                assert(queue[i] == c);
                assert(queue.to_set().contains(c));
            }
        } else if n < queue.len() && c == queue[n] {
            assert(queue.to_set().contains(c));
        } else {
            assert(known.contains(c));
        }
    }
    assert forall|c: Cid, d: Cid|
        next.have.contains(c) && #[trigger] store[c].contains(d) implies now_known.contains(d) by {
        if state.have.contains(c) {
            assert(known.contains(d));
        } else {
            let j = choose|j: int| 0 <= j < store[c].len() && store[c][j] == d;
            assert(left[queue.skip(n + 1).len() + j] == d);
            assert(left.to_set().contains(d));
        }
    }
}

/// When the queue is empty the state describes the store.
pub proof fn exploring_ends_explored(
    state: DagState,
    roots: Set<Cid>,
    store: Map<Cid, Seq<Cid>>,
)
    requires
        exploring(state, Seq::empty(), roots, store),
    ensures
        explored(state, roots, store),
{
    let graph = above(state.boundary, store);
    let sight = in_sight(roots, state.boundary, store);
    let known = state.have.union(state.want).union(state.boundary_hits).union(
        Seq::<Cid>::empty().to_set(),
    );
    assert forall|c: Cid, d: Cid|
        known.contains(c) && graph.dom().contains(c) && #[trigger] graph[c].contains(d) implies
        known.contains(d) by {
        assert(store.dom().contains(c));
        assert(state.have.contains(c));
        assert(graph[c] == store[c]);
        assert(store[c].contains(d));
    }
    reach_is_least(roots, graph, known);
    assert(!Seq::<Cid>::empty().to_set().contains(arbitrary()));
    assert(state.have =~= sight.intersect(store.dom()).difference(state.boundary));
    assert(state.want =~= sight.difference(store.dom()).difference(state.boundary));
    assert(state.boundary_hits =~= sight.intersect(state.boundary));
}

/// There is only one state that describes a store.
pub proof fn explored_is_unique(state: DagState, roots: Set<Cid>, store: Map<Cid, Seq<Cid>>)
    requires
        explored(state, roots, store),
    ensures
        state == exploration_of(roots, state.boundary, store),
{
    assert(state =~= exploration_of(roots, state.boundary, store));
}

/// A state that describes a store has no CID in two of its sets.
pub proof fn explored_is_consistent(state: DagState, roots: Set<Cid>, store: Map<Cid, Seq<Cid>>)
    requires
        explored(state, roots, store),
    ensures
        state.consistent(),
{
}

/// Everything in sight is either present, missing or part of the boundary.
pub proof fn explored_settles_all(state: DagState, roots: Set<Cid>, store: Map<Cid, Seq<Cid>>)
    requires
        explored(state, roots, store),
    ensures
        in_sight(roots, state.boundary, store) == state.have.union(state.want).union(
            state.boundary_hits,
        ),
{
    assert(in_sight(roots, state.boundary, store) =~= state.have.union(state.want).union(
        state.boundary_hits,
    ));
}

/// If nothing is wanted, all blocks below the roots are present, down to the boundary.
pub proof fn nothing_wanted_means_complete(
    state: DagState,
    roots: Set<Cid>,
    store: Map<Cid, Seq<Cid>>,
)
    requires
        explored(state, roots, store),
        state.want == Set::<Cid>::empty(),
    ensures
        in_sight(roots, state.boundary, store).subset_of(store.dom().union(state.boundary)),
{
    assert forall|c: Cid| in_sight(roots, state.boundary, store).contains(c) implies (
    store.dom().contains(c) || state.boundary.contains(c)) by {
        if !store.dom().contains(c) && !state.boundary.contains(c) {
            assert(state.want.contains(c));
        }
    }
}

/// If something is wanted, some block below the roots is missing.
pub proof fn something_wanted_means_incomplete(
    state: DagState,
    roots: Set<Cid>,
    store: Map<Cid, Seq<Cid>>,
    wanted: Cid,
)
    requires
        explored(state, roots, store),
        state.want.contains(wanted),
    ensures
        in_sight(roots, state.boundary, store).contains(wanted),
        !store.dom().contains(wanted),
{
}

/// After a wanted block was stored, looking at its links alone brings the state up to date: there
/// is no need to walk the graph again.
pub proof fn stored_block_keeps_exploring(
    state: DagState,
    roots: Set<Cid>,
    store: Map<Cid, Seq<Cid>>,
    cid: Cid,
    links: Seq<Cid>,
)
    requires
        explored(state, roots, store),
        state.want.contains(cid),
    ensures
        exploring(state.marked_as_have(cid), links, roots, store.insert(cid, links)),
{
    let larger = store.insert(cid, links);
    let next = state.marked_as_have(cid);
    let sight = in_sight(roots, state.boundary, store);
    let now_sight = in_sight(roots, state.boundary, larger);
    let known = next.have.union(next.want).union(next.boundary_hits).union(links.to_set());
    assert(store.submap_of(larger));
    sight_grows(roots, state.boundary, store, larger);
    reach_contains_seeds(roots, above(state.boundary, store));
    explored_settles_all(state, roots, store);
    assert forall|c: Cid| known.contains(c) implies now_sight.contains(c) by {
        if links.to_set().contains(c) {
            assert(sight.contains(cid));
            links_are_in_sight(roots, state.boundary, larger, cid, c);
        } else {
            assert(sight.contains(c));
        }
    }
    assert forall|c: Cid| roots.contains(c) implies known.contains(c) by {
        assert(sight.contains(c));
    }
    assert forall|c: Cid, d: Cid|
        next.have.contains(c) && #[trigger] larger[c].contains(d) implies known.contains(d) by {
        if c == cid {
            assert(links.to_set().contains(d));
        } else {
            assert(sight.contains(c));
            assert(store[c].contains(d));
            links_are_in_sight(roots, state.boundary, store, c, d);
            assert(sight.contains(d));
        }
    }
}

/// When blocks have appeared in the store by themselves, looking at what was wanted brings the
/// state up to date.
pub proof fn updating_keeps_exploring(
    state: DagState,
    queue: Seq<Cid>,
    roots: Set<Cid>,
    store: Map<Cid, Seq<Cid>>,
    larger: Map<Cid, Seq<Cid>>,
)
    requires
        explored(state, roots, store),
        queue.to_set() == state.want,
        store.submap_of(larger),
    ensures
        exploring(DagState { want: Set::empty(), ..state }, queue, roots, larger),
{
    let next = DagState { want: Set::empty(), ..state };
    let sight = in_sight(roots, state.boundary, store);
    let known = next.have.union(next.want).union(next.boundary_hits).union(queue.to_set());
    sight_grows(roots, state.boundary, store, larger);
    reach_contains_seeds(roots, above(state.boundary, store));
    explored_settles_all(state, roots, store);
    assert(known =~= sight);
    assert forall|c: Cid, d: Cid|
        next.have.contains(c) && #[trigger] larger[c].contains(d) implies known.contains(d) by {
        assert(store.dom().contains(c) && larger.dom().contains(c));
        assert(store[c] == larger[c]);
        links_are_in_sight(roots, state.boundary, store, c, d);
    }
    assert(next.have.subset_of(larger.dom()));
}

/// Several rounds go on exploring too.
pub proof fn many_rounds_keep_exploring(
    state: DagState,
    queue: Seq<Cid>,
    roots: Set<Cid>,
    store: Map<Cid, Seq<Cid>>,
    rounds: nat,
)
    requires
        exploring(state, queue, roots, store),
    ensures
        ({
            let (last, left) = discover_rounds(state, queue, store, rounds);
            exploring(last, left, roots, store)
        }),
    decreases rounds,
{
    if rounds > 0 {
        many_rounds_keep_exploring(state, queue, roots, store, (rounds - 1) as nat);
        let (before, left) = discover_rounds(state, queue, store, (rounds - 1) as nat);
        rounds_keep_exploring(before, left, roots, store);
    }
}

proof fn lemma_first_round_first(
    state: DagState,
    queue: Seq<Cid>,
    store: Map<Cid, Seq<Cid>>,
    rounds: nat,
)
    ensures
        ({
            let (next, left) = discover_round(state, queue, store);
            discover_rounds(state, queue, store, rounds + 1) == discover_rounds(
                next,
                left,
                store,
                rounds,
            )
        }),
    decreases rounds,
{
    reveal_with_fuel(discover_rounds, 2);
    if rounds > 0 {
        lemma_first_round_first(state, queue, store, (rounds - 1) as nat);
    }
}

/// A traversal comes to an end: if no CIDs but those of a finite set occur in the queue and in the
/// store, as many rounds as that set has unclassified members, and one more, empty the queue.
pub proof fn traversal_ends(
    state: DagState,
    queue: Seq<Cid>,
    store: Map<Cid, Seq<Cid>>,
    universe: Set<Cid>,
) -> (rounds: nat)
    requires
        universe.finite(),
        queue.to_set().subset_of(universe),
        forall|c: Cid| #[trigger]
            store.dom().contains(c) ==> store[c].to_set().subset_of(universe),
    ensures
        rounds <= universe.difference(state.have.union(state.want)).len() + 1,
        discover_rounds(state, queue, store, rounds).1 == Seq::<Cid>::empty(),
    decreases universe.difference(state.have.union(state.want)).len(),
{
    let (next, left) = discover_round(state, queue, store);
    let n = state.settled_prefix(queue) as int;
    lemma_settled_prefix(state, queue);
    reveal_with_fuel(discover_rounds, 2);
    if n >= queue.len() {
        1
    } else {
        let asked = queue[n];
        let open_before = universe.difference(state.have.union(state.want));
        let open_after = universe.difference(next.have.union(next.want));
        assert(queue.to_set().contains(asked));
        assert(open_before.contains(asked));
        assert(open_after =~= open_before.remove(asked));
        assert forall|c: Cid| left.to_set().contains(c) implies universe.contains(c) by {
            let i = choose|i: int| 0 <= i < left.len() && left[i] == c;
            if i < queue.len() - n - 1 {
                assert(queue[i + n + 1] == c);
                assert(queue.to_set().contains(c));
            } else {
                assert(store[asked][i - (queue.len() - n - 1)] == c);
                assert(store[asked].to_set().contains(c));
            }
        }
        let rounds = traversal_ends(next, left, store, universe);
        lemma_first_round_first(state, queue, store, rounds);
        rounds + 1
    }
}

/// The CID that the store is asked about in the next round, if any.
pub open spec fn asks(state: DagState, queue: Seq<Cid>) -> Option<Cid> {
    let n = state.settled_prefix(queue) as int;
    if n < queue.len() {
        Some(queue[n])
    } else {
        None
    }
}

/// What is settled stays settled, and what was asked about is settled.
pub proof fn rounds_settle(
    state: DagState,
    queue: Seq<Cid>,
    store: Map<Cid, Seq<Cid>>,
    cid: Cid,
)
    requires
        state.settles(cid) || asks(state, queue) == Some(cid),
    ensures
        discover_round(state, queue, store).0.settles(cid),
{
    lemma_settled_prefix(state, queue);
}

/// What is settled stays settled when a block is stored, so no CID is asked about twice in a whole
/// transfer.
pub proof fn storing_keeps_settled(state: DagState, stored: Cid, cid: Cid)
    requires
        state.settles(cid),
    ensures
        state.marked_as_have(stored).settles(cid),
{
}

/// No CID is asked about twice in a traversal.
pub proof fn no_cid_is_asked_about_twice(
    state: DagState,
    queue: Seq<Cid>,
    store: Map<Cid, Seq<Cid>>,
    earlier: nat,
    later: nat,
)
    requires
        earlier < later,
    ensures
        ({
            let (s1, q1) = discover_rounds(state, queue, store, earlier);
            let (s2, q2) = discover_rounds(state, queue, store, later);
            asks(s1, q1) is Some ==> asks(s1, q1) != asks(s2, q2)
        }),
{
    let (s1, q1) = discover_rounds(state, queue, store, earlier);
    let (s2, q2) = discover_rounds(state, queue, store, later);
    if asks(s1, q1) is Some {
        let cid = asks(s1, q1)->0;
        lemma_asked_stays_settled(state, queue, store, earlier, later, cid);
        lemma_settled_prefix(s2, q2);
    }
}

proof fn lemma_asked_stays_settled(
    state: DagState,
    queue: Seq<Cid>,
    store: Map<Cid, Seq<Cid>>,
    earlier: nat,
    later: nat,
    cid: Cid,
)
    requires
        earlier < later,
        ({
            let (s1, q1) = discover_rounds(state, queue, store, earlier);
            asks(s1, q1) == Some(cid)
        }),
    ensures
        discover_rounds(state, queue, store, later).0.settles(cid),
    decreases later,
{
    let (before, left) = discover_rounds(state, queue, store, (later - 1) as nat);
    if earlier < later - 1 {
        lemma_asked_stays_settled(state, queue, store, earlier, (later - 1) as nat, cid);
    }
    rounds_settle(before, left, store, cid);
}

} // verus!
