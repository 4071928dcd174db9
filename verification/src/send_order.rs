//! The order in which blocks are sent.

use crate::block_walk::{fresh, lemma_fresh, WalkRules, WalkState, WalkStep};
use crate::bloom::in_bloom;
use crate::cid::{Cid, CODEC_RAW};
use crate::dag::reach_contains_seeds;
use crate::departures::{
    below, cached_rightly, cids_sent, departs, in_search, is_whole_run, links_in, not_yet_sending,
    readable, runs_begin_before_sending, searches_lead_to_walks, sent_on, Departure,
};
use crate::error::Error;
use crate::payload::bytes_of;
use crate::receiver_state::ReceiverState;
use crate::send::{
    block_send_block_stream_pruning, requested_roots, send_begins, walk_begins, walks_on,
    BlockQuestion, SendPlan, Sending, Sent,
};
use crate::sending::{lemma_contains_add, lemma_contains_push};
use crate::subgraph_roots::SearchState;
use bytes::Bytes;
use vstd::prelude::*;

verus! {

/// A line that more CIDs are put at the end of, one after the other, but none that is in it already, and
/// none of those that are skipped.
pub open spec fn lined_up(line: Seq<Cid>, skipped: Set<Cid>, more: Seq<Cid>) -> Seq<Cid>
    decreases more.len(),
{
    if more.len() == 0 {
        line
    } else {
        let before = lined_up(line, skipped, more.drop_last());
        if skipped.contains(more.last()) || before.contains(more.last()) {
            before
        } else {
            before.push(more.last())
        }
    }
}

/// The line of the blocks to send: the given roots, and after those, one block after the other, the links
/// of the first `n`.
pub open spec fn line_of(
    roots: Seq<Cid>,
    skipped: Set<Cid>,
    links: Map<Cid, Seq<Cid>>,
    n: nat,
) -> Seq<Cid>
    decreases n,
{
    if n == 0 {
        lined_up(Seq::empty(), skipped, roots)
    } else {
        let line = line_of(roots, skipped, links, (n - 1) as nat);
        if n <= line.len() {
            lined_up(line, skipped, links[line[n - 1]])
        } else {
            line
        }
    }
}

/// What is left of some CIDs without those that are skipped.
spec fn kept(skipped: Set<Cid>, cids: Seq<Cid>) -> Seq<Cid>
    decreases cids.len(),
{
    if cids.len() == 0 {
        Seq::empty()
    } else if skipped.contains(cids.last()) {
        kept(skipped, cids.drop_last())
    } else {
        kept(skipped, cids.drop_last()).push(cids.last())
    }
}

proof fn lemma_kept_contains(skipped: Set<Cid>, cids: Seq<Cid>, c: Cid)
    ensures
        kept(skipped, cids).contains(c) <==> cids.contains(c) && !skipped.contains(c),
    decreases cids.len(),
{
    if cids.len() > 0 {
        lemma_kept_contains(skipped, cids.drop_last(), c);
        assert(cids =~= cids.drop_last().push(cids.last()));
        lemma_contains_push(cids.drop_last(), cids.last(), c);
        lemma_contains_push(kept(skipped, cids.drop_last()), cids.last(), c);
    }
}

proof fn lemma_kept_add(skipped: Set<Cid>, a: Seq<Cid>, b: Seq<Cid>)
    ensures
        kept(skipped, a + b) == kept(skipped, a) + kept(skipped, b),
    decreases b.len(),
{
    if b.len() == 0 {
        assert(a + b =~= a);
        assert(kept(skipped, a) + kept(skipped, b) =~= kept(skipped, a));
    } else {
        assert((a + b).drop_last() =~= a + b.drop_last());
        assert((a + b).last() == b.last());
        lemma_kept_add(skipped, a, b.drop_last());
        assert(kept(skipped, a + b) =~= kept(skipped, a) + kept(skipped, b));
    }
}

/// Lining up is the same as putting what is new, and not skipped, at the end.
proof fn lemma_lined_up(visited: Set<Cid>, line: Seq<Cid>, skipped: Set<Cid>, more: Seq<Cid>)
    requires
        forall|c: Cid|
            !skipped.contains(c) ==> (#[trigger] visited.contains(c) <==> line.contains(c)),
    ensures
        lined_up(line, skipped, more) == line + kept(skipped, fresh(visited, more)),
    decreases more.len(),
{
    if more.len() == 0 {
        assert(line + kept(skipped, fresh(visited, more)) =~= line);
    } else {
        let last = more.last();
        let before = fresh(visited, more.drop_last());
        lemma_lined_up(visited, line, skipped, more.drop_last());
        lemma_contains_add(line, kept(skipped, before), last);
        lemma_kept_contains(skipped, before, last);
        assert(before.push(last).drop_last() =~= before);
        assert(lined_up(line, skipped, more) =~= line + kept(skipped, fresh(visited, more)));
    }
}

/// The CIDs of some reads.
spec fn cids_to_read(reads: Seq<(Cid, bool)>) -> Seq<Cid> {
    reads.map_values(|read: (Cid, bool)| read.0)
}

/// Whether nothing seems to be held.
spec fn holds_nothing(rules: WalkRules) -> bool {
    forall|element: Seq<u8>| !(#[trigger] in_bloom(rules.bloom, element))
}

/// What is dropped.
spec fn dropped(rules: WalkRules) -> Set<Cid> {
    rules.skip_roots.difference(rules.requested)
}

proof fn lemma_reads_in_line(rules: WalkRules, cids: Seq<Cid>)
    requires
        holds_nothing(rules),
    ensures
        cids_to_read(rules.reads_to_send(cids)) == kept(dropped(rules), cids),
        forall|i: int|
            0 <= i < rules.reads_to_send(cids).len() ==> (#[trigger] rules.reads_to_send(
                cids,
            )[i]).1,
        rules.decided_prefix(cids) == cids.len(),
    decreases cids.len(),
{
    lemma_all_decided(rules, cids);
    if cids.len() > 0 {
        lemma_reads_in_line(rules, cids.drop_last());
        assert(cids_to_read(rules.reads_to_send(cids)) =~= kept(dropped(rules), cids));
    } else {
        assert(cids_to_read(rules.reads_to_send(cids)) =~= kept(dropped(rules), cids));
    }
}

proof fn lemma_all_decided(rules: WalkRules, cids: Seq<Cid>)
    requires
        holds_nothing(rules),
    ensures
        rules.decided_prefix(cids) == cids.len(),
    decreases cids.len(),
{
    if cids.len() > 0 {
        lemma_all_decided(rules, cids.drop_first());
    }
}

/// Whether a walk has the blocks in line.
spec fn in_line(
    rules: WalkRules,
    roots: Seq<Cid>,
    links: Map<Cid, Seq<Cid>>,
    sent: Seq<Cid>,
    walk: WalkState,
) -> bool {
    let skipped = dropped(rules);
    let line = line_of(roots, skipped, links, sent.len());
    &&& line == sent + cids_to_read(walk.to_read) + kept(skipped, walk.level + walk.next_level)
    &&& forall|c: Cid|
        !skipped.contains(c) ==> (#[trigger] walk.visited.contains(c) <==> line.contains(c))
    &&& forall|i: int| 0 <= i < walk.to_read.len() ==> (#[trigger] walk.to_read[i]).1
}

proof fn lemma_line_begins(rules: WalkRules, roots: Seq<Cid>, links: Map<Cid, Seq<Cid>>)
    requires
        rules.requested == roots.to_set(),
    ensures
        in_line(rules, roots, links, Seq::empty(), WalkState::initial(roots)),
{
    let skipped = dropped(rules);
    let walk = WalkState::initial(roots);
    let line = lined_up(Seq::empty(), skipped, roots);
    lemma_lined_up(Set::empty(), Seq::empty(), skipped, roots);
    assert(walk.level + walk.next_level =~= fresh(Set::empty(), roots));
    assert(cids_to_read(walk.to_read) =~= Seq::<Cid>::empty());
    assert(line =~= Seq::<Cid>::empty() + cids_to_read(walk.to_read) + kept(
        skipped,
        walk.level + walk.next_level,
    ));
    lemma_fresh(Set::empty(), roots);
    assert forall|c: Cid| !skipped.contains(c) implies (#[trigger] walk.visited.contains(c)
        <==> line.contains(c)) by {
        lemma_kept_contains(skipped, fresh(Set::empty(), roots), c);
        assert(line =~= kept(skipped, fresh(Set::empty(), roots)));
    }
}

/// What is read next is the next in line, and its links are lined up.
proof fn lemma_next_in_line(
    rules: WalkRules,
    roots: Seq<Cid>,
    links: Map<Cid, Seq<Cid>>,
    sent: Seq<Cid>,
    walk: WalkState,
    after: WalkState,
)
    requires
        holds_nothing(rules),
        in_line(rules, roots, links, sent, walk),
        ({
            let (need, taken) = walk.step(rules);
            need matches WalkStep::Read(cid, _) && {
                ||| after == taken.expanded(links[cid])
                ||| after == taken && links[cid].len() == 0
            }
        }),
    ensures
        walk.step(rules).0 matches WalkStep::Read(cid, emit) && emit && in_line(
            rules,
            roots,
            links,
            sent.push(cid),
            after,
        ),
{
    let skipped = dropped(rules);
    let line = line_of(roots, skipped, links, sent.len());
    let (need, taken) = walk.step(rules);
    let cid = need->Read_0;
    let level = walk.level;
    lemma_reads_in_line(rules, level);
    assert(level.take(level.len() as int) =~= level);
    let reads = walk.to_read + rules.reads_to_send(level);
    assert(walk.reads(rules, level.len() as int) == reads);
    assert(cids_to_read(reads) =~= cids_to_read(walk.to_read) + kept(skipped, level));
    lemma_kept_add(skipped, level, walk.next_level);
    assert(line =~= sent + cids_to_read(reads) + kept(skipped, walk.next_level));
    if reads.len() > 0 {
        assert(need == WalkStep::Read(reads[0].0, reads[0].1));
        assert(reads[0].1);
        assert(taken.to_read =~= reads.skip(1));
        assert(taken.level + taken.next_level =~= walk.next_level);
        assert(cids_to_read(reads) =~= seq![cid] + cids_to_read(taken.to_read));
        assert(line =~= sent.push(cid) + cids_to_read(taken.to_read) + kept(
            skipped,
            taken.level + taken.next_level,
        ));
    } else {
        let next = walk.next_level;
        lemma_reads_in_line(rules, next);
        assert(next.take(next.len() as int) =~= next);
        let more = rules.reads_to_send(next);
        let down = walk.step_in_level(rules).1.descended();
        assert(down.to_read + more =~= more);
        assert(down.reads(rules, next.len() as int) == more);
        assert(more.len() > 0);
        assert(need == WalkStep::Read(more[0].0, more[0].1));
        assert(taken.to_read =~= more.skip(1));
        assert(taken.level + taken.next_level =~= Seq::<Cid>::empty());
        assert(cids_to_read(more) =~= seq![cid] + cids_to_read(taken.to_read));
        assert(line =~= sent.push(cid) + cids_to_read(taken.to_read) + kept(
            skipped,
            taken.level + taken.next_level,
        ));
    }
    assert(taken.visited == walk.visited);
    assert(line[sent.len() as int] == cid);
    let now = lined_up(line, skipped, links[cid]);
    assert(line_of(roots, skipped, links, sent.push(cid).len()) == now);
    lemma_lined_up(walk.visited, line, skipped, links[cid]);
    let new = fresh(walk.visited, links[cid]);
    if links[cid].len() == 0 {
        assert(now == line);
        assert(new =~= Seq::<Cid>::empty());
        assert(after.level + after.next_level =~= taken.level + taken.next_level);
        assert(links[cid].to_set() =~= Set::<Cid>::empty());
        assert(after.visited =~= walk.visited);
    } else {
        assert(after.level + after.next_level =~= (taken.level + taken.next_level) + new);
        lemma_kept_add(skipped, taken.level + taken.next_level, new);
    }
    assert(now =~= sent.push(cid) + cids_to_read(after.to_read) + kept(
        skipped,
        after.level + after.next_level,
    ));
    lemma_fresh(walk.visited, links[cid]);
    assert forall|c: Cid| !skipped.contains(c) implies (#[trigger] after.visited.contains(c)
        <==> now.contains(c)) by {
        lemma_kept_contains(skipped, new, c);
        lemma_contains_add(line, kept(skipped, new), c);
        assert(walk.visited.contains(c) <==> line.contains(c));
        if after != taken {
            assert(after.visited.contains(c) <==> walk.visited.contains(c)
                || links[cid].to_set().contains(c));
        }
    }
}

/// A walk that has more to read has more to send.
proof fn lemma_reads_are_sent(
    rules: WalkRules,
    roots: Seq<Cid>,
    links: Map<Cid, Seq<Cid>>,
    sent: Seq<Cid>,
    walk: WalkState,
)
    requires
        holds_nothing(rules),
        in_line(rules, roots, links, sent, walk),
    ensures
        walk.step(rules).0 matches WalkStep::Read(_, emit) ==> emit,
        !(walk.step(rules).0 is CachedLinks),
{
    lemma_reads_in_line(rules, walk.level);
    lemma_reads_in_line(rules, walk.next_level);
    assert(walk.level.take(walk.level.len() as int) =~= walk.level);
    assert(walk.next_level.take(walk.next_level.len() as int) =~= walk.next_level);
    let reads = walk.to_read + rules.reads_to_send(walk.level);
    assert(walk.reads(rules, walk.level.len() as int) == reads);
    if reads.len() == 0 {
        let down = walk.step_in_level(rules).1.descended();
        assert(down.to_read + rules.reads_to_send(walk.next_level) =~= rules.reads_to_send(
            walk.next_level,
        ));
    }
}

/// In the end all that is in line is sent.
proof fn lemma_line_ends(
    rules: WalkRules,
    roots: Seq<Cid>,
    links: Map<Cid, Seq<Cid>>,
    sent: Seq<Cid>,
    walk: WalkState,
)
    requires
        holds_nothing(rules),
        in_line(rules, roots, links, sent, walk),
        walk.step(rules).0 is Done,
    ensures
        line_of(roots, dropped(rules), links, sent.len()) == sent,
{
    let skipped = dropped(rules);
    lemma_reads_in_line(rules, walk.level);
    lemma_reads_in_line(rules, walk.next_level);
    lemma_kept_add(skipped, walk.level, walk.next_level);
    assert(walk.level.take(walk.level.len() as int) =~= walk.level);
    assert(walk.next_level.take(walk.next_level.len() as int) =~= walk.next_level);
    let reads = walk.to_read + rules.reads_to_send(walk.level);
    assert(walk.reads(rules, walk.level.len() as int) == reads);
    assert(reads.len() == 0);
    let more = rules.reads_to_send(walk.next_level);
    let down = walk.step_in_level(rules).1.descended();
    assert(down.to_read + more =~= more);
    assert(more.len() == 0);
    assert(kept(skipped, walk.level) =~= cids_to_read(rules.reads_to_send(walk.level)));
    assert(kept(skipped, walk.next_level) =~= cids_to_read(more));
    assert(line_of(roots, skipped, links, sent.len()) =~= sent);
}

/// Whether a run has the blocks in line, or has not begun to send.
spec fn run_in_line(
    root: Cid,
    requested: Set<Cid>,
    plan: SendPlan,
    store: Map<Cid, Seq<u8>>,
    p: Departure,
) -> bool {
    ||| p.sent.len() == 0 && exists|search: SearchState| #[trigger]
        in_search(root, requested, plan, store, p, search)
    ||| exists|roots: Seq<Cid>, walk: WalkState| #[trigger]
        walk_in_line(root, requested, plan, store, p, roots, walk)
}

spec fn walk_in_line(
    root: Cid,
    requested: Set<Cid>,
    plan: SendPlan,
    store: Map<Cid, Seq<u8>>,
    p: Departure,
    roots: Seq<Cid>,
    walk: WalkState,
) -> bool {
    let rules = plan.rules(roots.to_set());
    &&& roots.to_set() == below(root, store, requested)
    &&& roots.no_duplicates()
    &&& walks_on(walk, rules, p.session)
    &&& in_line(rules, roots, links_in(store), cids_sent(p.sent), walk)
}

proof fn lemma_in_line_soon(
    root: Cid,
    requested: Set<Cid>,
    plan: SendPlan,
    store: Map<Cid, Seq<u8>>,
    p: Departure,
)
    requires
        not_yet_sending(root, requested, plan, store, p),
    ensures
        run_in_line(root, requested, plan, store, p),
{
    if !(exists|search: SearchState| #[trigger]
        in_search(root, requested, plan, store, p, search)) {
        let roots = choose|roots: Seq<Cid>|
            roots.to_set() == below(root, store, requested) && roots.no_duplicates()
                && #[trigger] walk_begins(roots, plan, p.session);
        lemma_line_begins(plan.rules(roots.to_set()), roots, links_in(store));
        assert(cids_sent(p.sent) =~= Seq::<Cid>::empty());
        assert(walk_in_line(
            root,
            requested,
            plan,
            store,
            p,
            roots,
            WalkState::initial(roots),
        ));
    }
}

proof fn lemma_departs_in_line(
    root: Cid,
    requested: Set<Cid>,
    plan: SendPlan,
    store: Map<Cid, Seq<u8>>,
    now: Departure,
    next: Departure,
)
    requires
        requested.finite(),
        readable(store),
        forall|element: Seq<u8>| !(#[trigger] in_bloom(plan.bloom, element)),
        run_in_line(root, requested, plan, store, now),
        departs(store, now, next),
    ensures
        run_in_line(root, requested, plan, store, next),
{
    if exists|search: SearchState| #[trigger] in_search(root, requested, plan, store, now, search) {
        let search = choose|search: SearchState| #[trigger]
            in_search(root, requested, plan, store, now, search);
        searches_lead_to_walks(root, requested, plan, store, now, next, search);
        lemma_in_line_soon(root, requested, plan, store, next);
    } else {
        let (roots, walk) = choose|roots: Seq<Cid>, walk: WalkState| #[trigger]
            walk_in_line(root, requested, plan, store, now, roots, walk);
        let rules = plan.rules(roots.to_set());
        let links = links_in(store);
        lemma_reads_in_line(rules, walk.level);
        lemma_reads_in_line(rules, walk.next_level);
        let (need, taken) = walk.step(rules);
        assert(!(need is CachedLinks));
        match now.session {
            Sending::BytesOf(q) => {
                let cid = q.asks();
                lemma_reads_are_sent(rules, roots, links, cids_sent(now.sent), walk);
                assert(q.emits());
                let (bytes, cached, r) = choose|
                    bytes: Bytes,
                    cached: Option<Vec<Cid>>,
                    r: Sent,
                |
                    bytes_of(bytes) == store[q.asks()] && cached_rightly(store, q.asks(), cached)
                        && sent_on(now, r, next) && #[trigger] call_ensures(
                        BlockQuestion::answer,
                        (q, bytes, cached),
                        Ok::<Sent, Error>(r),
                    );
                let after = if cid.parts().codec == CODEC_RAW {
                    taken
                } else {
                    taken.expanded(links[cid])
                };
                if cid.parts().codec == CODEC_RAW {
                    assert(links[cid] =~= Seq::<Cid>::empty());
                }
                lemma_next_in_line(rules, roots, links, cids_sent(now.sent), walk, after);
                assert(cids_sent(next.sent) =~= cids_sent(now.sent).push(cid));
                assert(walk_in_line(root, requested, plan, store, next, roots, after));
            },
            _ => {},
        }
    }
}

proof fn lemma_runs_in_line(
    root: Cid,
    requested: Seq<Cid>,
    plan: SendPlan,
    store: Map<Cid, Seq<u8>>,
    begun: Sending,
    run: Seq<Departure>,
    n: int,
)
    requires
        readable(store),
        forall|element: Seq<u8>| !(#[trigger] in_bloom(plan.bloom, element)),
        send_begins(root, requested, plan, begun),
        is_whole_run(store, begun, run),
        0 <= n < run.len(),
    ensures
        run_in_line(root, requested.to_set(), plan, store, run[n]),
    decreases n,
{
    vstd::seq_lib::seq_to_set_is_finite(requested);
    if n == 0 {
        runs_begin_before_sending(root, requested, plan, store, run[0]);
        lemma_in_line_soon(root, requested.to_set(), plan, store, run[0]);
    } else {
        lemma_runs_in_line(root, requested, plan, store, begun, run, n - 1);
        assert(departs(store, run[n - 1], run[n - 1 + 1]));
        lemma_departs_in_line(root, requested.to_set(), plan, store, run[n - 1], run[n]);
    }
}

/// Blocks are sent in line, as long as the receiving side says of none that it has it: what is requested
/// comes first, and each block that is sent has its links put at the end of the line, in their order,
/// except those that are in the line already or skipped.
pub proof fn blocks_are_sent_in_line(
    root: Cid,
    state: ReceiverState,
    prune: bool,
    store: Map<Cid, Seq<u8>>,
    begun: Sending,
    run: Seq<Departure>,
)
    requires
        readable(store),
        state.have_cids_bloom is None,
        call_ensures(block_send_block_stream_pruning, (root, Some(state), prune), begun),
        is_whole_run(store, begun, run),
    ensures
        exists|roots: Seq<Cid>| #[trigger]
            roots.to_set() == below(root, store, state.missing_subgraph_roots@.to_set())
                && roots.no_duplicates() && cids_sent(run.last().sent) == line_of(
                roots,
                state.skip_subgraph_roots@.to_set().difference(roots.to_set()),
                links_in(store),
                run.last().sent.len(),
            ),
{
    let requested = state.missing_subgraph_roots@;
    let plan = choose|plan: SendPlan| #[trigger]
        plan.follows_from(Some(state), prune) && send_begins(root, requested, plan, begun);
    let _ = lemma_whole_runs_in_line(root, requested, plan, store, begun, run);
}

proof fn lemma_whole_runs_in_line(
    root: Cid,
    requested: Seq<Cid>,
    plan: SendPlan,
    store: Map<Cid, Seq<u8>>,
    begun: Sending,
    run: Seq<Departure>,
) -> (roots: Seq<Cid>)
    requires
        readable(store),
        forall|element: Seq<u8>| !(#[trigger] in_bloom(plan.bloom, element)),
        send_begins(root, requested, plan, begun),
        is_whole_run(store, begun, run),
    ensures
        roots.to_set() == below(root, store, requested.to_set()),
        roots.no_duplicates(),
        cids_sent(run.last().sent) == line_of(
            roots,
            plan.skip_roots.difference(roots.to_set()),
            links_in(store),
            run.last().sent.len(),
        ),
{
    let last = run.last();
    lemma_runs_in_line(root, requested, plan, store, begun, run, run.len() - 1);
    let (roots, walk) = choose|roots: Seq<Cid>, walk: WalkState| #[trigger]
        walk_in_line(root, requested.to_set(), plan, store, last, roots, walk);
    let rules = plan.rules(roots.to_set());
    lemma_line_ends(rules, roots, links_in(store), cids_sent(last.sent), walk);
    roots
}

/// Blocks are sent in line at first: the root, and then, one block after the other, the links of what is
/// sent.
pub proof fn blocks_are_sent_in_line_at_first(
    root: Cid,
    prune: bool,
    store: Map<Cid, Seq<u8>>,
    begun: Sending,
    run: Seq<Departure>,
)
    requires
        readable(store),
        call_ensures(
            block_send_block_stream_pruning,
            (root, None::<ReceiverState>, prune),
            begun,
        ),
        is_whole_run(store, begun, run),
    ensures
        cids_sent(run.last().sent) == line_of(
            seq![root],
            Set::empty(),
            links_in(store),
            run.last().sent.len(),
        ),
{
    let none = None::<ReceiverState>;
    let requested = requested_roots(root, none);
    let plan = choose|plan: SendPlan| #[trigger]
        plan.follows_from(none, prune) && send_begins(root, requested, plan, begun);
    let roots = lemma_whole_runs_in_line(root, requested, plan, store, begun, run);
    reach_contains_seeds(set![root], links_in(store));
    assert(roots.to_set() =~= set![root]) by {
        assert(requested[0] == root);
        assert(set![root].contains(root));
    }
    roots.unique_seq_to_set();
    assert(roots[0] == root) by {
        assert(roots.to_set().contains(roots[0]));
    }
    assert(roots =~= seq![root]);
    assert(plan.skip_roots.difference(roots.to_set()) =~= Set::<Cid>::empty());
}

} // verus!
