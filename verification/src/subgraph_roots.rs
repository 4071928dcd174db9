//! The search for requested CIDs below a root.

use crate::cid::Cid;
use crate::cid_set::{lemma_to_set_push, CidSet};
use crate::dag::{closed_under, reach, reach_contains_seeds, reach_is_closed, reach_is_least};
use std::collections::VecDeque;
use vstd::prelude::*;

verus! {

/// A breadth-first walk below a root that looks out for requested CIDs.
///
/// It walks *unpruned* reachability on purpose: pruning while looking for the requested CIDs would
/// make deeper ones unreachable and stall transfers. It exits early once every requested CID has
/// been found.
#[derive(Debug)]
pub struct RootSearch {
    requested: CidSet,
    found: Vec<Cid>,
    visited: CidSet,
    queue: VecDeque<Cid>,
}

/// What matters of a search.
#[verifier::ext_equal]
pub struct SearchState {
    /// What is looked for.
    pub requested: Set<Cid>,
    /// What was found, in the order in which it was come across.
    pub found: Seq<Cid>,
    /// All that was come across.
    pub visited: Set<Cid>,
    /// What is to be looked at, first come, first served.
    pub queue: Seq<Cid>,
}

impl View for RootSearch {
    type V = SearchState;

    closed spec fn view(&self) -> SearchState {
        SearchState {
            requested: self.requested@,
            found: self.found@,
            visited: self.visited@,
            queue: self.queue@,
        }
    }
}

impl SearchState {
    /// A search that has not begun.
    pub open spec fn initial(root: Cid, requested: Set<Cid>) -> SearchState {
        SearchState {
            requested,
            found: Seq::empty(),
            visited: Set::empty(),
            queue: seq![root],
        }
    }

    /// How many CIDs at the front of a queue were come across before.
    pub open spec fn known_prefix(visited: Set<Cid>, queue: Seq<Cid>) -> nat
        decreases queue.len(),
    {
        if queue.len() == 0 || !visited.contains(queue[0]) {
            0
        } else {
            1 + SearchState::known_prefix(visited, queue.drop_first())
        }
    }

    /// The next CID to look at, if any.
    pub open spec fn upcoming(self) -> Option<Cid> {
        let n = SearchState::known_prefix(self.visited, self.queue) as int;
        if n < self.queue.len() {
            Some(self.queue[n])
        } else {
            None
        }
    }

    /// The search once the next CID, if any, was taken out of the queue.
    pub open spec fn advanced(self) -> SearchState {
        let n = SearchState::known_prefix(self.visited, self.queue) as int;
        if n < self.queue.len() {
            SearchState {
                visited: self.visited.insert(self.queue[n]),
                queue: self.queue.skip(n + 1),
                ..self
            }
        } else {
            SearchState { queue: Seq::empty(), ..self }
        }
    }

    /// The search once a CID was looked at that has the given links.
    pub open spec fn looked_at(self, cid: Cid, links: Seq<Cid>) -> SearchState {
        SearchState {
            found: if self.requested.contains(cid) {
                self.found.push(cid)
            } else {
                self.found
            },
            queue: self.queue + links,
            ..self
        }
    }

    /// Whether all requested CIDs were found.
    pub open spec fn all_found(self) -> bool {
        self.found.len() == self.requested.len()
    }
}

/// Starts to look for the given CIDs below a root, to ensure that any requested subgraph roots are
/// actually part of the DAG from the root.
pub fn verify_missing_subgraph_roots(root: Cid, missing_subgraph_roots: &[Cid]) -> (r: RootSearch)
    ensures
        r@ == SearchState::initial(root, missing_subgraph_roots@.to_set()),
{
    let mut queue: VecDeque<Cid> = VecDeque::new();
    queue.push_back(root);
    let r = RootSearch {
        requested: CidSet::from_slice(missing_subgraph_roots),
        found: Vec::new(),
        visited: CidSet::new(),
        queue,
    };
    proof {
        assert(r@ =~= SearchState::initial(root, missing_subgraph_roots@.to_set()));
    }
    r
}

impl RootSearch {
    /// Takes out the next CID to look at, if any.
    pub fn next_cid(&mut self) -> (r: Option<Cid>)
        ensures
            r == old(self)@.upcoming(),
            final(self)@ == old(self)@.advanced(),
    {
        let ghost start = self@;
        let ghost n = SearchState::known_prefix(start.visited, start.queue) as int;
        let ghost mut i: int = 0;
        proof {
            lemma_known_prefix(start.visited, start.queue);
            assert(self@ =~= (SearchState { queue: start.queue.skip(0), ..start }));
        }
        loop
            invariant
                start == old(self)@,
                n == SearchState::known_prefix(start.visited, start.queue),
                0 <= i <= n <= start.queue.len(),
                forall|j: int| 0 <= j < n ==> start.visited.contains(#[trigger] start.queue[j]),
                n < start.queue.len() ==> !start.visited.contains(start.queue[n]),
                self@ == (SearchState { queue: start.queue.skip(i), ..start }),
            decreases start.queue.len() - i,
        {
            match self.queue.pop_front() {
                None => {
                    proof {
                        assert(start.queue.skip(i).len() == 0);
                        assert(self@ =~= start.advanced());
                    }
                    return None;
                },
                Some(cid) => {
                    proof {
                        assert(cid == start.queue[i]);
                        assert(self@.queue =~= start.queue.skip(i + 1));
                    }
                    if self.visited.insert(cid) {
                        proof {
                            assert(i == n);
                            assert(self@ =~= start.advanced());
                        }
                        return Some(cid);
                    }
                    proof {
                        assert(i < n);
                        assert(self@ =~= (SearchState {
                            queue: start.queue.skip(i + 1),
                            ..start
                        }));
                        i = i + 1;
                    }
                },
            }
        }
    }

    /// Looks at a CID with the given links; says whether all requested CIDs are found.
    pub fn look_at(&mut self, cid: Cid, links: Vec<Cid>) -> (r: bool)
        ensures
            final(self)@ == old(self)@.looked_at(cid, links@),
            r == (old(self)@.requested.contains(cid) && final(self)@.all_found()),
    {
        let mut i: usize = 0;
        proof {
            assert(self@ =~= (SearchState {
                queue: old(self)@.queue + links@.take(0),
                ..old(self)@
            }));
        }
        while i < links.len()
            invariant
                i <= links.len(),
                self@ == (SearchState {
                    queue: old(self)@.queue + links@.take(i as int),
                    ..old(self)@
                }),
            decreases links.len() - i,
        {
            self.queue.push_back(links[i]);
            proof {
                assert(self@ =~= (SearchState {
                    queue: old(self)@.queue + links@.take(i + 1),
                    ..old(self)@
                }));
            }
            i = i + 1;
        }
        proof {
            assert(links@.take(i as int) =~= links@);
        }
        if self.requested.contains(&cid) {
            self.found.push(cid);
            self.found.len() == self.requested.len()
        } else {
            false
        }
    }

    /// What was found, in the order in which it was come across.
    pub fn into_roots(self) -> (r: Vec<Cid>)
        ensures
            r@ == self@.found,
    {
        self.found
    }
}

pub proof fn lemma_known_prefix(visited: Set<Cid>, queue: Seq<Cid>)
    ensures
        SearchState::known_prefix(visited, queue) <= queue.len(),
        forall|j: int|
            0 <= j < SearchState::known_prefix(visited, queue) ==> visited.contains(
                #[trigger] queue[j],
            ),
        SearchState::known_prefix(visited, queue) < queue.len() ==> !visited.contains(
            queue[SearchState::known_prefix(visited, queue) as int],
        ),
    decreases queue.len(),
{
    if queue.len() > 0 && visited.contains(queue[0]) {
        let rest = queue.drop_first();
        lemma_known_prefix(visited, rest);
        assert forall|j: int| 0 <= j < SearchState::known_prefix(visited, queue) implies
            visited.contains(#[trigger] queue[j]) by {
            if j > 0 {
                assert(queue[j] == rest[j - 1]);
            }
        }
    }
}

/// One round of a search in a store that is described by the links of its blocks.
pub open spec fn search_round(state: SearchState, store: Map<Cid, Seq<Cid>>) -> SearchState {
    match state.upcoming() {
        Some(cid) => state.advanced().looked_at(cid, store[cid]),
        None => state.advanced(),
    }
}

/// What was come across can be reached from the root, what was found is what was come across of the
/// requested CIDs, and what has not been come across will be, from the queue.
pub open spec fn searching(state: SearchState, root: Cid, store: Map<Cid, Seq<Cid>>) -> bool {
    let known = state.visited.union(state.queue.to_set());
    &&& known.subset_of(reach(set![root], store))
    &&& known.contains(root)
    &&& forall|c: Cid, d: Cid|
        state.visited.contains(c) && #[trigger] store[c].contains(d) ==> known.contains(d)
    &&& state.found.to_set() == state.visited.intersect(state.requested)
    &&& state.found.no_duplicates()
}

/// A search starts out well.
pub proof fn search_starts(root: Cid, requested: Set<Cid>, store: Map<Cid, Seq<Cid>>)
    ensures
        searching(SearchState::initial(root, requested), root, store),
{
    let state = SearchState::initial(root, requested);
    reach_contains_seeds(set![root], store);
    assert(state.queue[0] == root);
    assert(state.queue.to_set().contains(root));
    assert(state.found.to_set() =~= state.visited.intersect(requested));
    assert forall|c: Cid| state.queue.to_set().contains(c) implies reach(
        set![root],
        store,
    ).contains(c) by {
        assert(set![root].contains(c));
    }
}

/// Each round that asks about a block of the store goes on well.
pub proof fn search_goes_on(state: SearchState, root: Cid, store: Map<Cid, Seq<Cid>>)
    requires
        searching(state, root, store),
        state.upcoming() matches Some(cid) ==> store.dom().contains(cid),
    ensures
        searching(search_round(state, store), root, store),
{
    let n = SearchState::known_prefix(state.visited, state.queue) as int;
    let next = search_round(state, store);
    let known = state.visited.union(state.queue.to_set());
    let now_known = next.visited.union(next.queue.to_set());
    lemma_known_prefix(state.visited, state.queue);
    reach_is_closed(set![root], store);
    assert forall|c: Cid| known.contains(c) implies now_known.contains(c) by {
        if state.queue.to_set().contains(c) && !state.visited.contains(c) {
            let i = choose|i: int| 0 <= i < state.queue.len() && state.queue[i] == c;
            if i > n {
                assert(next.queue[i - n - 1] == c);
                assert(next.queue.to_set().contains(c));
            }
        }
    }
    if n < state.queue.len() {
        let cid = state.queue[n];
        assert(state.queue.to_set().contains(cid));
        assert forall|c: Cid| now_known.contains(c) implies reach(set![root], store).contains(
            c,
        ) by {
            if next.queue.to_set().contains(c) {
                let i = choose|i: int| 0 <= i < next.queue.len() && next.queue[i] == c;
                if i < state.queue.len() - n - 1 {
                    assert(state.queue[i + n + 1] == c);
                    assert(state.queue.to_set().contains(c));
                } else {
                    assert(store[cid][i - (state.queue.len() - n - 1)] == c);
                    assert(store[cid].contains(c));
                }
            }
        }
        assert forall|c: Cid, d: Cid|
            next.visited.contains(c) && #[trigger] store[c].contains(d) implies now_known.contains(
            d,
        ) by {
            if c == cid {
                let j = choose|j: int| 0 <= j < store[c].len() && store[c][j] == d;
                assert(next.queue[state.queue.len() - n - 1 + j] == d);
                assert(next.queue.to_set().contains(d));
            } else {
                assert(known.contains(d));
            }
        }
        lemma_to_set_push(state.found, cid);
        assert(next.found.to_set() =~= next.visited.intersect(next.requested));
        if state.requested.contains(cid) {
            assert(!state.found.to_set().contains(cid));
            assert(!state.found.contains(cid));
        }
    } else {
        assert(next.found.to_set() =~= next.visited.intersect(next.requested));
        assert forall|c: Cid| now_known.contains(c) implies reach(set![root], store).contains(
            c,
        ) by {
            assert(known.contains(c));
        }
    }
}

/// When there is nothing more to look at, exactly those of the requested CIDs are found that are
/// below the root.
pub proof fn search_ends(state: SearchState, root: Cid, store: Map<Cid, Seq<Cid>>)
    requires
        searching(state, root, store),
        state.upcoming() is None,
    ensures
        state.visited == reach(set![root], store),
        state.found.to_set() == state.requested.intersect(reach(set![root], store)),
{
    let known = state.visited.union(state.queue.to_set());
    lemma_known_prefix(state.visited, state.queue);
    assert forall|c: Cid| known.contains(c) implies state.visited.contains(c) by {
        if state.queue.to_set().contains(c) {
            let i = choose|i: int| 0 <= i < state.queue.len() && state.queue[i] == c;
            assert(state.visited.contains(state.queue[i]));
        }
    }
    assert(closed_under(state.visited, store));
    reach_is_least(set![root], store, state.visited);
    assert(state.visited =~= reach(set![root], store));
    assert(state.found.to_set() =~= state.requested.intersect(reach(set![root], store)));
}

/// When as many CIDs are found as were requested, exactly the requested ones are found, and all of
/// them are below the root.
pub proof fn search_may_end_early(state: SearchState, root: Cid, store: Map<Cid, Seq<Cid>>)
    requires
        searching(state, root, store),
        state.requested.finite(),
        state.all_found(),
    ensures
        state.found.to_set() == state.requested,
        state.found.to_set() == state.requested.intersect(reach(set![root], store)),
{
    state.found.unique_seq_to_set();
    vstd::seq_lib::seq_to_set_is_finite(state.found);
    vstd::set_lib::lemma_subset_equality(state.found.to_set(), state.requested);
    assert(state.found.to_set() =~= state.requested.intersect(reach(set![root], store)));
}

/// Each round of a search that comes across no CIDs but those of a finite set leaves fewer of them
/// to be come across, so it comes to an end.
pub proof fn searches_get_shorter(
    state: SearchState,
    store: Map<Cid, Seq<Cid>>,
    universe: Set<Cid>,
)
    requires
        universe.finite(),
        state.queue.to_set().subset_of(universe),
        state.upcoming() is Some,
    ensures
        universe.difference(search_round(state, store).visited).len() < universe.difference(
            state.visited,
        ).len(),
{
    let n = SearchState::known_prefix(state.visited, state.queue) as int;
    lemma_known_prefix(state.visited, state.queue);
    let cid = state.queue[n];
    assert(state.queue.to_set().contains(cid));
    assert(universe.difference(state.visited).contains(cid));
    assert(universe.difference(search_round(state, store).visited) =~= universe.difference(
        state.visited,
    ).remove(cid));
}

} // verus!
