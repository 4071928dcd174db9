//! What a walk over blocks sends, whatever the cache holds.
//!
//! A store is described by the links of the blocks that it holds.

use crate::block_walk::{fresh, lemma_decided_prefix, lemma_fresh, WalkRules, WalkState, WalkStep};
use crate::cid::Cid;
use crate::dag::{closed_under, reach, reach_contains_seeds, reach_is_closed, reach_is_least};
use vstd::prelude::*;

verus! {

/// The links that are followed.
pub open spec fn walk_graph(rules: WalkRules, store: Map<Cid, Seq<Cid>>) -> Map<Cid, Seq<Cid>> {
    store.restrict(Set::new(|c: Cid| rules.follows(c)))
}

/// The CIDs of some reads.
pub open spec fn read_cids(reads: Seq<(Cid, bool)>) -> Seq<Cid> {
    reads.map_values(|read: (Cid, bool)| read.0)
}

/// Whether a CID was come across but not dealt with.
pub open spec fn waiting(state: WalkState, cid: Cid) -> bool {
    state.level.contains(cid) || read_cids(state.to_read).contains(cid)
        || state.next_level.contains(cid)
}

/// Whether a CID was come across and dealt with.
pub open spec fn settled(state: WalkState, cid: Cid) -> bool {
    state.visited.contains(cid) && !waiting(state, cid)
}

/// No CID waits in two places, and the reads are those that the rules ask for.
pub open spec fn tidy(state: WalkState, rules: WalkRules) -> bool {
    let reads = read_cids(state.to_read);
    &&& state.level.no_duplicates()
    &&& reads.no_duplicates()
    &&& state.next_level.no_duplicates()
    &&& forall|c: Cid| #[trigger]
        state.level.contains(c) ==> state.visited.contains(c) && !reads.contains(c)
            && !state.next_level.contains(c)
    &&& forall|c: Cid| #[trigger]
        reads.contains(c) ==> state.visited.contains(c) && !state.next_level.contains(c)
    &&& forall|c: Cid| #[trigger] state.next_level.contains(c) ==> state.visited.contains(c)
    &&& forall|i: int|
        0 <= i < state.to_read.len() ==> rightly_read(rules, #[trigger] state.to_read[i])
}

/// Whether a read is one that the rules ask for.
pub open spec fn rightly_read(rules: WalkRules, read: (Cid, bool)) -> bool {
    read.1 == rules.sends(read.0) && (!read.1 ==> rules.passes_through(read.0))
}

/// Whether a CID is what a step is about.
pub open spec fn concerns(need: WalkStep, cid: Cid) -> bool {
    match need {
        WalkStep::CachedLinks(c) => c == cid,
        WalkStep::Read(c, _) => c == cid,
        WalkStep::Done => false,
    }
}

/// One round of a walk: what it needs is answered, and the CID of the block that it sends, if any, is
/// handed out. Whether links are cached is up to the cache, but those of a missing block are not.
pub open spec fn walk_round(
    state: WalkState,
    rules: WalkRules,
    store: Map<Cid, Seq<Cid>>,
    cached: bool,
) -> (WalkState, Option<Cid>) {
    let (need, after) = state.step(rules);
    match need {
        WalkStep::CachedLinks(cid) => (
            if cached && store.dom().contains(cid) {
                after.expanded(store[cid])
            } else {
                after.set_down(cid)
            },
            None,
        ),
        WalkStep::Read(cid, emit) => (
            if rules.follows(cid) && store.dom().contains(cid) {
                after.expanded(store[cid])
            } else {
                after
            },
            if emit {
                Some(cid)
            } else {
                None
            },
        ),
        WalkStep::Done => (after, None),
    }
}

/// What was sent together with what a round sends.
pub open spec fn with_sent(sent: Seq<Cid>, more: Option<Cid>) -> Seq<Cid> {
    match more {
        Some(cid) => sent.push(cid),
        None => sent,
    }
}

/// Whether a CID is linked to from a block that was dealt with.
pub open spec fn has_settled_parent(
    state: WalkState,
    graph: Map<Cid, Seq<Cid>>,
    cid: Cid,
) -> bool {
    exists|p: Cid| #[trigger] settled(state, p) && links_to(graph, p, cid)
}

/// Whether the links of a block are followed to a CID.
pub open spec fn links_to(graph: Map<Cid, Seq<Cid>>, parent: Cid, cid: Cid) -> bool {
    graph.dom().contains(parent) && graph[parent].contains(cid)
}

/// Whether a CID is a root, or linked to from a block that was sent before or that is not sent at
/// all.
pub open spec fn comes_after_parent(
    sent: Seq<Cid>,
    roots: Set<Cid>,
    rules: WalkRules,
    graph: Map<Cid, Seq<Cid>>,
    i: int,
) -> bool {
    roots.contains(sent[i]) || exists|p: Cid| #[trigger]
        links_to(graph, p, sent[i]) && (rules.sends(p) ==> sent.take(i).contains(p))
}

/// What was come across can be reached from the roots, and what was sent is what was dealt with of
/// what is to be sent, parents before children.
pub open spec fn walking(
    state: WalkState,
    rules: WalkRules,
    roots: Set<Cid>,
    store: Map<Cid, Seq<Cid>>,
    sent: Seq<Cid>,
) -> bool {
    let graph = walk_graph(rules, store);
    &&& tidy(state, rules)
    &&& state.visited.subset_of(reach(roots, graph))
    &&& roots.subset_of(state.visited)
    &&& forall|c: Cid, d: Cid|
        settled(state, c) && #[trigger] links_to(graph, c, d) ==> state.visited.contains(d)
    &&& sent.no_duplicates()
    &&& forall|c: Cid| #[trigger] sent.contains(c) <==> settled(state, c) && rules.sends(c)
    &&& forall|c: Cid| #[trigger]
        state.visited.contains(c) && !roots.contains(c) ==> has_settled_parent(state, graph, c)
    &&& forall|i: int|
        0 <= i < sent.len() ==> #[trigger] comes_after_parent(sent, roots, rules, graph, i)
}

proof fn lemma_reads_to_send(rules: WalkRules, cids: Seq<Cid>)
    requires
        cids.no_duplicates(),
    ensures
        read_cids(rules.reads_to_send(cids)).no_duplicates(),
        forall|c: Cid| #[trigger]
            read_cids(rules.reads_to_send(cids)).contains(c) <==> cids.contains(c) && rules.sends(
                c,
            ),
        forall|i: int|
            0 <= i < rules.reads_to_send(cids).len() ==> rightly_read(
                rules,
                #[trigger] rules.reads_to_send(cids)[i],
            ),
    decreases cids.len(),
{
    let reads = rules.reads_to_send(cids);
    if cids.len() > 0 {
        let before = cids.drop_last();
        let last = cids.last();
        let reads_before = rules.reads_to_send(before);
        lemma_reads_to_send(rules, before);
        assert(cids =~= before.push(last));
        assert(!before.contains(last));
        if rules.sends(last) {
            assert(read_cids(reads) =~= read_cids(reads_before).push(last));
            assert(!read_cids(reads_before).contains(last));
        }
        assert forall|c: Cid| #[trigger]
            read_cids(reads).contains(c) <==> cids.contains(c) && rules.sends(c) by {
            lemma_contains_push(before, last, c);
            lemma_contains_push(read_cids(reads_before), last, c);
            assert(read_cids(reads_before).contains(c) <==> before.contains(c) && rules.sends(c));
        }
        assert forall|i: int| 0 <= i < reads.len() implies rightly_read(
            rules,
            #[trigger] reads[i],
        ) by {
            if i < reads_before.len() {
                assert(reads[i] == reads_before[i]);
            }
        }
    }
}

/// What a sequence contains with one more element.
pub proof fn lemma_contains_push(s: Seq<Cid>, a: Cid, c: Cid)
    ensures
        s.push(a).contains(c) <==> s.contains(c) || c == a,
{
    if s.contains(c) {
        let i = choose|i: int| 0 <= i < s.len() && s[i] == c;
        assert(s.push(a)[i] == c);
    }
    if c == a {
        assert(s.push(a)[s.len() as int] == c);
    }
}

/// What two sequences contain together.
pub proof fn lemma_contains_add(s: Seq<Cid>, t: Seq<Cid>, c: Cid)
    ensures
        (s + t).contains(c) <==> s.contains(c) || t.contains(c),
{
    if s.contains(c) {
        let i = choose|i: int| 0 <= i < s.len() && s[i] == c;
        assert((s + t)[i] == c);
    }
    if t.contains(c) {
        let i = choose|i: int| 0 <= i < t.len() && t[i] == c;
        assert((s + t)[s.len() + i] == c);
    }
}

proof fn lemma_no_duplicates_add(s: Seq<Cid>, t: Seq<Cid>)
    requires
        s.no_duplicates(),
        t.no_duplicates(),
        forall|c: Cid| #[trigger] s.contains(c) ==> !t.contains(c),
    ensures
        (s + t).no_duplicates(),
{
    let all = s + t;
    assert forall|i: int, j: int| 0 <= i < all.len() && 0 <= j < all.len() && i != j implies all[i]
        != all[j] by {
        if i < s.len() && j >= s.len() {
            assert(s.contains(all[i]));
            assert(t[j - s.len()] == all[j]);
        } else if j < s.len() && i >= s.len() {
            assert(s.contains(all[j]));
            assert(t[i - s.len()] == all[i]);
        } else if i >= s.len() {
            assert(t[i - s.len()] == all[i] && t[j - s.len()] == all[j]);
        }
    }
}

/// What a step in a level leaves waiting.
pub proof fn lemma_step_in_level(state: WalkState, rules: WalkRules)
    requires
        tidy(state, rules),
    ensures
        ({
            let (need, after) = state.step_in_level(rules);
            &&& tidy(after, rules)
            &&& after.visited == state.visited
            &&& after.next_level == state.next_level
            &&& need matches WalkStep::CachedLinks(c) ==> rules.passes_through(c)
            &&& need matches WalkStep::Read(c, e) ==> rightly_read(rules, (c, e))
            &&& need is Done ==> after.level.len() == 0 && after.to_read.len() == 0
            &&& forall|c: Cid| #[trigger]
                waiting(after, c) ==> waiting(state, c) && !concerns(need, c)
            &&& forall|c: Cid| #[trigger] concerns(need, c) ==> waiting(state, c)
            &&& forall|c: Cid| #[trigger]
                waiting(state, c) && !waiting(after, c) && !concerns(need, c) ==> !rules.sends(c)
                    && !rules.follows(c)
        }),
{
    let (need, after) = state.step_in_level(rules);
    let n = rules.decided_prefix(state.level) as int;
    lemma_decided_prefix(rules, state.level);
    let decided = state.level.take(n);
    assert forall|c: Cid| decided.contains(c) implies state.level.contains(c)
        && !rules.passes_through(c) by {
        let i = choose|i: int| 0 <= i < decided.len() && decided[i] == c;
        assert(state.level[i] == c);
    }
    assert(decided.no_duplicates());
    lemma_reads_to_send(rules, decided);
    let more = rules.reads_to_send(decided);
    let reads = state.reads(rules, n);
    assert(read_cids(reads) =~= read_cids(state.to_read) + read_cids(more));
    assert forall|c: Cid| #[trigger] read_cids(state.to_read).contains(c) implies !read_cids(
        more,
    ).contains(c) by {
        if read_cids(more).contains(c) {
            assert(state.level.contains(c));
        }
    }
    lemma_no_duplicates_add(read_cids(state.to_read), read_cids(more));
    assert forall|i: int| 0 <= i < reads.len() implies rightly_read(rules, #[trigger] reads[i]) by {
        if i < state.to_read.len() {
            assert(reads[i] == state.to_read[i]);
        } else {
            assert(reads[i] == more[i - state.to_read.len()]);
        }
    }
    assert forall|c: Cid| #[trigger] read_cids(reads).contains(c) <==> (read_cids(
        state.to_read,
    ).contains(c) || (decided.contains(c) && rules.sends(c))) by {
        lemma_contains_add(read_cids(state.to_read), read_cids(more), c);
    }
    if n < state.level.len() {
        let cid = state.level[n];
        let left = state.level.skip(n + 1);
        assert(state.level.contains(cid));
        assert forall|c: Cid| #[trigger] state.level.contains(c) <==> decided.contains(c) || c
            == cid || left.contains(c) by {
            if state.level.contains(c) {
                let i = choose|i: int| 0 <= i < state.level.len() && state.level[i] == c;
                if i < n {
                    assert(decided[i] == c);
                } else if i > n {
                    assert(left[i - n - 1] == c);
                }
            }
            if left.contains(c) {
                let i = choose|i: int| 0 <= i < left.len() && left[i] == c;
                assert(state.level[n + 1 + i] == c);
            }
        }
        assert forall|c: Cid| #[trigger] left.contains(c) implies state.level.contains(c)
            && !decided.contains(c) && c != cid by {
            let i = choose|i: int| 0 <= i < left.len() && left[i] == c;
            assert(state.level[n + 1 + i] == c);
            if decided.contains(c) {
                let j = choose|j: int| 0 <= j < decided.len() && decided[j] == c;
                assert(state.level[j] == c);
            }
        }
        assert(!decided.contains(cid));
        assert(left.no_duplicates());
    } else {
        assert(decided =~= state.level);
        if reads.len() > 0 {
            let left = reads.skip(1);
            let cid = reads[0].0;
            let cids = read_cids(reads);
            assert(cids[0] == cid);
            assert(cids.contains(cid));
            assert(read_cids(left) =~= cids.skip(1));
            assert forall|c: Cid| #[trigger] cids.contains(c) <==> c == cid || read_cids(
                left,
            ).contains(c) by {
                if cids.contains(c) {
                    let i = choose|i: int| 0 <= i < cids.len() && cids[i] == c;
                    if i > 0 {
                        assert(read_cids(left)[i - 1] == c);
                    }
                }
                if read_cids(left).contains(c) {
                    let i = choose|i: int| 0 <= i < read_cids(left).len() && read_cids(left)[i] == c;
                    assert(cids[i + 1] == c);
                }
            }
            assert forall|c: Cid| #[trigger] read_cids(left).contains(c) implies cids.contains(
                c,
            ) by {
                let i = choose|i: int| 0 <= i < read_cids(left).len() && read_cids(left)[i] == c;
                assert(cids[i + 1] == c);
            }
            assert(!read_cids(left).contains(cid)) by {
                if read_cids(left).contains(cid) {
                    let i = choose|i: int|
                        0 <= i < read_cids(left).len() && read_cids(left)[i] == cid;
                    assert(cids[i + 1] == cids[0]);
                }
            }
            assert forall|i: int| 0 <= i < left.len() implies rightly_read(
                rules,
                #[trigger] left[i],
            ) by {
                assert(left[i] == reads[i + 1]);
            }
        }
    }
    assert forall|c: Cid| #[trigger]
        waiting(state, c) && !waiting(after, c) && !concerns(need, c) implies !rules.sends(c)
        && !rules.follows(c) by {
        assert(read_cids(reads).contains(c) <==> (read_cids(state.to_read).contains(c) || (
        decided.contains(c) && rules.sends(c))));
        if reads.len() > 0 && n >= state.level.len() {
            assert(read_cids(reads).contains(c) ==> c == reads[0].0 || read_cids(
                reads.skip(1),
            ).contains(c));
        }
        assert(decided.contains(c));
    }
}

/// What a step leaves waiting.
pub proof fn lemma_step(state: WalkState, rules: WalkRules)
    requires
        tidy(state, rules),
    ensures
        ({
            let (need, after) = state.step(rules);
            &&& tidy(after, rules)
            &&& after.visited == state.visited
            &&& need matches WalkStep::CachedLinks(c) ==> rules.passes_through(c)
            &&& need matches WalkStep::Read(c, e) ==> rightly_read(rules, (c, e))
            &&& need is Done ==> forall|c: Cid| !waiting(after, c)
            &&& forall|c: Cid| #[trigger]
                waiting(after, c) ==> waiting(state, c) && !concerns(need, c)
            &&& forall|c: Cid| #[trigger] concerns(need, c) ==> waiting(state, c)
            &&& forall|c: Cid| #[trigger]
                waiting(state, c) && !waiting(after, c) && !concerns(need, c) ==> !rules.sends(c)
                    && !rules.follows(c)
        }),
{
    let (first, left) = state.step_in_level(rules);
    lemma_step_in_level(state, rules);
    if first is Done && state.next_level.len() > 0 {
        let lower = left.descended();
        assert(read_cids(lower.to_read) =~= Seq::<Cid>::empty());
        assert forall|c: Cid| #[trigger] lower.level.contains(c) implies lower.visited.contains(
            c,
        ) by {
            assert(left.next_level.contains(c));
        }
        assert(tidy(lower, rules));
        assert forall|c: Cid| waiting(lower, c) == waiting(left, c) by {}
        lemma_step_in_level(lower, rules);
        let (need, after) = state.step(rules);
        assert forall|c: Cid| #[trigger]
            waiting(state, c) && !waiting(after, c) && !concerns(need, c) implies !rules.sends(c)
            && !rules.follows(c) by {
            if waiting(left, c) {
                assert(waiting(lower, c));
            }
        }
    }
}

/// What following links leaves waiting.
pub proof fn lemma_expanded(state: WalkState, rules: WalkRules, links: Seq<Cid>)
    requires
        tidy(state, rules),
    ensures
        tidy(state.expanded(links), rules),
        forall|c: Cid| #[trigger]
            waiting(state.expanded(links), c) <==> waiting(state, c) || (links.contains(c)
                && !state.visited.contains(c)),
        forall|c: Cid| #[trigger]
            state.expanded(links).visited.contains(c) <==> state.visited.contains(c)
                || links.contains(c),
{
    let after = state.expanded(links);
    let new = fresh(state.visited, links);
    lemma_fresh(state.visited, links);
    assert forall|c: Cid| #[trigger] state.next_level.contains(c) implies !new.contains(c) by {}
    lemma_no_duplicates_add(state.next_level, new);
    assert forall|c: Cid| #[trigger] after.next_level.contains(c) <==> state.next_level.contains(c)
        || new.contains(c) by {
        lemma_contains_add(state.next_level, new, c);
    }
}

/// A walk starts out well.
pub proof fn walk_starts(rules: WalkRules, roots: Seq<Cid>, store: Map<Cid, Seq<Cid>>)
    ensures
        walking(WalkState::initial(roots), rules, roots.to_set(), store, Seq::empty()),
{
    let state = WalkState::initial(roots);
    let graph = walk_graph(rules, store);
    lemma_fresh(Set::empty(), roots);
    reach_contains_seeds(roots.to_set(), graph);
    assert(read_cids(state.to_read) =~= Seq::<Cid>::empty());
    assert forall|c: Cid| state.visited.contains(c) implies waiting(state, c) by {
        assert(state.level.contains(c));
    }
}

/// Each round goes on well, whatever is cached, and even if a block is missing that is only walked
/// through. What was dealt with stays so, and what is read or whose links are cached is dealt with.
pub proof fn walk_goes_on(
    state: WalkState,
    rules: WalkRules,
    roots: Set<Cid>,
    store: Map<Cid, Seq<Cid>>,
    sent: Seq<Cid>,
    cached: bool,
)
    requires
        walking(state, rules, roots, store, sent),
        state.step(rules).0 matches WalkStep::Read(c, emit) ==> emit ==> store.dom().contains(c),
    ensures
        ({
            let (next, more) = walk_round(state, rules, store, cached);
            let need = state.step(rules).0;
            &&& walking(next, rules, roots, store, with_sent(sent, more))
            &&& forall|c: Cid| settled(state, c) ==> #[trigger] settled(next, c)
            &&& forall|c: Cid| #[trigger]
                concerns(need, c) ==> !settled(state, c) && (need is Read || (cached
                    && store.dom().contains(c)) ==> settled(next, c))
        }),
{
    let graph = walk_graph(rules, store);
    let (need, after) = state.step(rules);
    let (next, more) = walk_round(state, rules, store, cached);
    let now_sent = with_sent(sent, more);
    lemma_step(state, rules);
    reach_is_closed(roots, graph);
    let set_down = match need {
        WalkStep::CachedLinks(c) => !(cached && store.dom().contains(c)),
        _ => false,
    };
    let follow = match need {
        WalkStep::CachedLinks(c) => cached && store.dom().contains(c),
        WalkStep::Read(c, _) => rules.follows(c) && store.dom().contains(c),
        WalkStep::Done => false,
    };
    let cid = match need {
        WalkStep::CachedLinks(c) => c,
        WalkStep::Read(c, _) => c,
        WalkStep::Done => arbitrary(),
    };
    if !(need is Done) {
        assert(concerns(need, cid));
        assert(waiting(state, cid));
        assert(state.visited.contains(cid));
        assert(!waiting(after, cid));
    }
    let links = store[cid];
    if follow {
        lemma_expanded(after, rules, links);
        assert(rules.follows(cid));
        assert(graph.dom().contains(cid));
        assert(graph[cid] == links);
        assert forall|c: Cid| next.visited.contains(c) implies reach(roots, graph).contains(c) by {
            if !state.visited.contains(c) {
                assert(links.contains(c));
                assert(graph[cid].contains(c));
            }
        }
    } else if set_down {
        assert(read_cids(next.to_read) =~= read_cids(after.to_read).push(cid));
        assert forall|c: Cid| #[trigger] read_cids(next.to_read).contains(c) <==> read_cids(
            after.to_read,
        ).contains(c) || c == cid by {
            lemma_contains_push(read_cids(after.to_read), cid, c);
        }
        assert(tidy(next, rules)) by {
            assert forall|i: int| 0 <= i < next.to_read.len() implies rightly_read(
                rules,
                #[trigger] next.to_read[i],
            ) by {
                if i < after.to_read.len() {
                    assert(next.to_read[i] == after.to_read[i]);
                }
            }
            assert(!read_cids(after.to_read).contains(cid));
        }
    }
    // What was settled stays settled.
    assert forall|c: Cid| #[trigger] settled(state, c) implies settled(next, c) by {
        assert(!waiting(after, c)) by {
            if waiting(after, c) {
                assert(waiting(state, c));
            }
        }
    }
    assert forall|c: Cid| #[trigger] settled(next, c) && !settled(state, c) implies (if c == cid
        && !(need is Done) {
        !set_down
    } else {
        !rules.sends(c) && !rules.follows(c)
    }) by {
        if !(c == cid && !(need is Done)) {
            assert(!concerns(need, c));
            assert(waiting(state, c));
            assert(!waiting(after, c));
        }
    }
    if !(need is Done) && !set_down {
        assert(settled(next, cid));
        assert(!settled(state, cid));
    }
    assert forall|c: Cid, d: Cid| settled(next, c) && #[trigger] links_to(graph, c, d) implies
        next.visited.contains(d) by {
        if settled(state, c) {
            assert(state.visited.contains(d));
        } else if c == cid && !(need is Done) {
            assert(rules.follows(c));
            assert(follow);
            assert(links.contains(d));
        }
    }
    assert forall|c: Cid| #[trigger] now_sent.contains(c) <==> settled(next, c) && rules.sends(
        c,
    ) by {
        if more is Some {
            lemma_contains_push(sent, cid, c);
        }
        assert(sent.contains(c) <==> settled(state, c) && rules.sends(c));
    }
    if more is Some {
        assert(!settled(state, cid));
        assert(!sent.contains(cid));
        assert(now_sent.no_duplicates());
    }
    assert forall|c: Cid| #[trigger]
        next.visited.contains(c) && !roots.contains(c) implies has_settled_parent(
        next,
        graph,
        c,
    ) by {
        if state.visited.contains(c) {
            let p = choose|p: Cid| #[trigger] settled(state, p) && links_to(graph, p, c);
            assert(settled(next, p));
        } else {
            assert(links.contains(c));
            assert(settled(next, cid));
            assert(links_to(graph, cid, c));
        }
    }
    assert forall|i: int| 0 <= i < now_sent.len() implies #[trigger] comes_after_parent(
        now_sent,
        roots,
        rules,
        graph,
        i,
    ) by {
        if i < sent.len() {
            assert(comes_after_parent(sent, roots, rules, graph, i));
            assert(now_sent[i] == sent[i]);
            assert(now_sent.take(i) =~= sent.take(i));
        } else {
            assert(now_sent[i] == cid);
            assert(now_sent.take(i) =~= sent);
            if !roots.contains(cid) {
                let p = choose|p: Cid| #[trigger] settled(state, p) && links_to(graph, p, cid);
                assert(links_to(graph, p, now_sent[i]));
                if rules.sends(p) {
                    assert(sent.contains(p));
                }
            }
        }
    }
}

/// A walk from the given roots, and what it has sent, after as many rounds as there are answers of
/// the cache.
pub open spec fn walk_run(
    rules: WalkRules,
    roots: Seq<Cid>,
    store: Map<Cid, Seq<Cid>>,
    cached: Seq<bool>,
) -> (WalkState, Seq<Cid>)
    decreases cached.len(),
{
    if cached.len() == 0 {
        (WalkState::initial(roots), Seq::empty())
    } else {
        let (before, sent) = walk_run(rules, roots, store, cached.drop_last());
        let (state, more) = walk_round(before, rules, store, cached.last());
        (state, with_sent(sent, more))
    }
}

/// A walk goes well in a store that holds all that it can reach.
pub proof fn walks_go_well(
    rules: WalkRules,
    roots: Seq<Cid>,
    store: Map<Cid, Seq<Cid>>,
    cached: Seq<bool>,
)
    requires
        reach(roots.to_set(), walk_graph(rules, store)).subset_of(store.dom()),
    ensures
        ({
            let (state, sent) = walk_run(rules, roots, store, cached);
            walking(state, rules, roots.to_set(), store, sent)
        }),
    decreases cached.len(),
{
    if cached.len() == 0 {
        walk_starts(rules, roots, store);
    } else {
        walks_go_well(rules, roots, store, cached.drop_last());
        let (before, sent) = walk_run(rules, roots, store, cached.drop_last());
        what_is_needed_was_come_across(before, rules, roots.to_set(), store, sent);
        match before.step(rules).0 {
            WalkStep::Read(c, _) => {
                assert(concerns(before.step(rules).0, c));
            },
            _ => {},
        }
        walk_goes_on(before, rules, roots.to_set(), store, sent, cached.last());
    }
}

/// A walk asks for nothing but what can be reached from its roots.
pub proof fn what_is_needed_was_come_across(
    state: WalkState,
    rules: WalkRules,
    roots: Set<Cid>,
    store: Map<Cid, Seq<Cid>>,
    sent: Seq<Cid>,
)
    requires
        walking(state, rules, roots, store, sent),
    ensures
        forall|c: Cid| #[trigger]
            concerns(state.step(rules).0, c) ==> reach(roots, walk_graph(rules, store)).contains(c),
{
    lemma_step(state, rules);
    assert forall|c: Cid| #[trigger] concerns(state.step(rules).0, c) implies reach(
        roots,
        walk_graph(rules, store),
    ).contains(c) by {
        assert(waiting(state, c));
        assert(state.visited.contains(c));
    }
}

/// What a walk sends first is the first of its roots, if they are requested.
pub proof fn walks_send_the_first_root_first(
    rules: WalkRules,
    roots: Seq<Cid>,
    store: Map<Cid, Seq<Cid>>,
    cached: Seq<bool>,
)
    requires
        roots.len() > 0,
        rules.requested == roots.to_set(),
        walk_run(rules, roots, store, cached).0.step(rules).0 is Done || cached.len() > 0,
    ensures
        walk_run(rules, roots, store, cached).1.len() > 0,
        walk_run(rules, roots, store, cached).1[0] == roots[0],
    decreases cached.len(),
{
    assert forall|i: int| 0 <= i < roots.len() implies rules.requested.contains(
        #[trigger] roots[i],
    ) by {
        assert(roots.to_set().contains(roots[i]));
    }
    first_root_is_sent_first(rules, roots);
    if cached.len() > 1 {
        walks_send_the_first_root_first(rules, roots, store, cached.drop_last());
    } else if cached.len() == 1 {
        assert(walk_run(rules, roots, store, cached.drop_last()) == (
            WalkState::initial(roots),
            Seq::<Cid>::empty(),
        ));
    }
}

/// When the walk is over, everything was come across that can be reached from the roots by the links
/// that are followed, and exactly those of these blocks were sent that are to be sent, each of them
/// once.
pub proof fn walk_ends(
    state: WalkState,
    rules: WalkRules,
    roots: Set<Cid>,
    store: Map<Cid, Seq<Cid>>,
    sent: Seq<Cid>,
)
    requires
        walking(state, rules, roots, store, sent),
        state.step(rules).0 is Done,
    ensures
        state.visited == reach(roots, walk_graph(rules, store)),
        sent.no_duplicates(),
        forall|c: Cid| #[trigger]
            sent.contains(c) <==> reach(roots, walk_graph(rules, store)).contains(c)
                && rules.sends(c),
{
    let graph = walk_graph(rules, store);
    let (need, after) = state.step(rules);
    lemma_step(state, rules);
    assert forall|c: Cid, d: Cid|
        state.visited.contains(c) && graph.dom().contains(c) && #[trigger] graph[c].contains(
            d,
        ) implies state.visited.contains(d) by {
        if waiting(state, c) {
            assert(!waiting(after, c));
            assert(!concerns(need, c));
            assert(!rules.follows(c));
        }
        assert(settled(state, c));
        assert(links_to(graph, c, d));
    }
    assert(closed_under(state.visited, graph));
    reach_is_least(roots, graph, state.visited);
    assert(state.visited =~= reach(roots, graph));
    assert forall|c: Cid| #[trigger] sent.contains(c) <==> reach(roots, graph).contains(c)
        && rules.sends(c) by {
        if state.visited.contains(c) && rules.sends(c) && waiting(state, c) {
            assert(!waiting(after, c));
            assert(!concerns(need, c));
        }
    }
}

/// Explicitly requested roots are always sent, whatever the bloom filter and the skip roots say.
pub proof fn requested_roots_are_sent(
    state: WalkState,
    rules: WalkRules,
    roots: Set<Cid>,
    store: Map<Cid, Seq<Cid>>,
    sent: Seq<Cid>,
    root: Cid,
)
    requires
        walking(state, rules, roots, store, sent),
        state.step(rules).0 is Done,
        roots.contains(root),
        rules.requested.contains(root),
    ensures
        sent.contains(root),
{
    walk_ends(state, rules, roots, store, sent);
    reach_contains_seeds(roots, walk_graph(rules, store));
}

/// Neither a skip root nor what the receiving end seems to have is ever sent, unless it was
/// explicitly requested.
pub proof fn what_is_not_needed_is_not_sent(
    state: WalkState,
    rules: WalkRules,
    roots: Set<Cid>,
    store: Map<Cid, Seq<Cid>>,
    sent: Seq<Cid>,
    cid: Cid,
)
    requires
        walking(state, rules, roots, store, sent),
        sent.contains(cid),
    ensures
        rules.requested.contains(cid) || !rules.skip_roots.contains(cid),
        rules.requested.contains(cid) || !crate::bloom::in_bloom(
            rules.bloom,
            cid.parts().encoding(),
        ),
{
}

/// What can only be reached through skip roots is never sent: it is sent only if it can be reached
/// without descending below a skip root that was not explicitly requested.
pub proof fn nothing_below_skip_roots_is_sent(
    state: WalkState,
    rules: WalkRules,
    roots: Set<Cid>,
    store: Map<Cid, Seq<Cid>>,
    sent: Seq<Cid>,
    cid: Cid,
)
    requires
        walking(state, rules, roots, store, sent),
        sent.contains(cid),
    ensures
        reach(roots, store.remove_keys(rules.skip_roots.difference(rules.requested))).contains(cid),
{
    let graph = walk_graph(rules, store);
    let larger = store.remove_keys(rules.skip_roots.difference(rules.requested));
    assert(graph.submap_of(larger));
    crate::dag::reach_is_monotone(roots, graph, roots, larger);
}

/// The first of the requested roots is the first block that is read, and it is sent: a transfer
/// that is not over makes progress.
pub proof fn first_root_is_sent_first(rules: WalkRules, roots: Seq<Cid>)
    requires
        roots.len() > 0,
        forall|i: int| 0 <= i < roots.len() ==> rules.requested.contains(#[trigger] roots[i]),
    ensures
        WalkState::initial(roots).step(rules).0 == WalkStep::Read(roots[0], true),
{
    let state = WalkState::initial(roots);
    let level = state.level;
    lemma_fresh(Set::empty(), roots);
    lemma_fresh_starts(roots);
    lemma_decided_prefix(rules, level);
    let n = rules.decided_prefix(level) as int;
    if n < level.len() {
        assert(level.contains(level[n]));
        assert(roots.contains(level[n]));
        let i = choose|i: int| 0 <= i < roots.len() && roots[i] == level[n];
        assert(rules.requested.contains(roots[i]));
    }
    assert(level.take(n) =~= level);
    lemma_reads_start(rules, level);
    assert(state.reads(rules, n) =~= rules.reads_to_send(level));
}

proof fn lemma_fresh_starts(cids: Seq<Cid>)
    requires
        cids.len() > 0,
    ensures
        fresh(Set::empty(), cids).len() > 0,
        fresh(Set::empty(), cids)[0] == cids[0],
    decreases cids.len(),
{
    if cids.len() > 1 {
        lemma_fresh_starts(cids.drop_last());
    } else {
        assert(fresh(Set::<Cid>::empty(), cids.drop_last()) =~= Seq::<Cid>::empty());
    }
}

proof fn lemma_reads_start(rules: WalkRules, cids: Seq<Cid>)
    requires
        cids.len() > 0,
        rules.sends(cids[0]),
    ensures
        rules.reads_to_send(cids).len() > 0,
        rules.reads_to_send(cids)[0] == (cids[0], true),
    decreases cids.len(),
{
    if cids.len() > 1 {
        lemma_reads_start(rules, cids.drop_last());
    } else {
        assert(rules.reads_to_send(cids.drop_last()) =~= Seq::<(Cid, bool)>::empty());
    }
}

/// If the receiving end has said nothing, everything below the roots is sent.
pub proof fn cold_transfer_sends_everything(
    state: WalkState,
    rules: WalkRules,
    roots: Set<Cid>,
    store: Map<Cid, Seq<Cid>>,
    sent: Seq<Cid>,
)
    requires
        walking(state, rules, roots, store, sent),
        state.step(rules).0 is Done,
        forall|c: Cid| #[trigger] rules.sends(c),
        forall|c: Cid| #[trigger]
            store.dom().contains(c) && c.parts().codec == crate::cid::CODEC_RAW ==> store[c].len()
                == 0,
    ensures
        sent.to_set() == reach(roots, store),
{
    let graph = walk_graph(rules, store);
    walk_ends(state, rules, roots, store, sent);
    assert(graph.submap_of(store));
    crate::dag::reach_is_monotone(roots, graph, roots, store);
    reach_contains_seeds(roots, graph);
    reach_is_closed(roots, graph);
    assert forall|c: Cid, d: Cid|
        reach(roots, graph).contains(c) && store.dom().contains(c) && #[trigger] store[c].contains(
            d,
        ) implies reach(roots, graph).contains(d) by {
        assert(rules.sends(c));
        assert(graph.dom().contains(c));
        assert(graph[c].contains(d));
    }
    reach_is_least(roots, store, reach(roots, graph));
    assert forall|c: Cid| sent.to_set().contains(c) <==> reach(roots, store).contains(c) by {
        assert(sent.contains(c) <==> reach(roots, graph).contains(c) && rules.sends(c));
    }
    assert(sent.to_set() =~= reach(roots, store));
}

/// How much is left of a walk that comes across no CIDs but those of a finite set.
pub open spec fn walk_left(state: WalkState, universe: Set<Cid>) -> nat {
    3 * universe.difference(state.visited).len() + 3 * state.next_level.len() + 2
        * state.level.len() + state.to_read.len()
}

/// Each round of a walk that is not over leaves less of it, so it comes to an end.
pub proof fn walks_get_shorter(
    state: WalkState,
    rules: WalkRules,
    store: Map<Cid, Seq<Cid>>,
    cached: bool,
    universe: Set<Cid>,
)
    requires
        universe.finite(),
        forall|c: Cid| #[trigger]
            concerns(state.step(rules).0, c) ==> store[c].to_set().subset_of(universe),
        !(state.step(rules).0 is Done),
    ensures
        walk_left(walk_round(state, rules, store, cached).0, universe) < walk_left(state, universe),
{
    let (need, after) = state.step(rules);
    lemma_steps_get_shorter(state, rules, universe);
    match need {
        WalkStep::CachedLinks(cid) => {
            assert(concerns(need, cid));
            lemma_expanding_gets_no_longer(after, store[cid], universe);
        },
        WalkStep::Read(cid, _) => {
            assert(concerns(need, cid));
            lemma_expanding_gets_no_longer(after, store[cid], universe);
        },
        WalkStep::Done => {},
    }
}

proof fn lemma_steps_get_shorter(state: WalkState, rules: WalkRules, universe: Set<Cid>)
    requires
        !(state.step(rules).0 is Done),
    ensures
        ({
            let (need, after) = state.step(rules);
            walk_left(after, universe) < walk_left(state, universe) - (if need is CachedLinks {
                1int
            } else {
                0
            })
        }),
{
    let (first, left) = state.step_in_level(rules);
    lemma_steps_in_level_get_shorter(state, rules, universe);
    if first is Done && state.next_level.len() > 0 {
        lemma_steps_in_level_get_shorter(left.descended(), rules, universe);
    }
}

proof fn lemma_steps_in_level_get_shorter(state: WalkState, rules: WalkRules, universe: Set<Cid>)
    ensures
        ({
            let (need, after) = state.step_in_level(rules);
            &&& walk_left(after, universe) <= walk_left(state, universe)
            &&& need is CachedLinks ==> walk_left(after, universe) < walk_left(state, universe) - 1
            &&& need is Read ==> walk_left(after, universe) < walk_left(state, universe)
            &&& after.next_level == state.next_level
        }),
{
    let n = rules.decided_prefix(state.level) as int;
    lemma_decided_prefix(rules, state.level);
    lemma_reads_are_few(rules, state.level.take(n));
}

proof fn lemma_reads_are_few(rules: WalkRules, cids: Seq<Cid>)
    ensures
        rules.reads_to_send(cids).len() <= cids.len(),
    decreases cids.len(),
{
    if cids.len() > 0 {
        lemma_reads_are_few(rules, cids.drop_last());
    }
}

proof fn lemma_expanding_gets_no_longer(state: WalkState, links: Seq<Cid>, universe: Set<Cid>)
    requires
        universe.finite(),
        links.to_set().subset_of(universe),
    ensures
        walk_left(state.expanded(links), universe) == walk_left(state, universe),
{
    let new = fresh(state.visited, links);
    lemma_fresh(state.visited, links);
    new.unique_seq_to_set();
    vstd::seq_lib::seq_to_set_is_finite(new);
    let unseen = universe.difference(state.visited);
    let still_unseen = universe.difference(state.expanded(links).visited);
    assert(unseen =~= still_unseen.union(new.to_set()));
    assert(still_unseen.disjoint(new.to_set()));
    vstd::set_lib::lemma_set_disjoint_lens(still_unseen, new.to_set());
}

} // verus!
