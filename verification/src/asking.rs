//! What is asked next, and what is no longer asked.

use crate::block_walk::{fresh, WalkRules, WalkState};
use crate::cid::Cid;
use crate::common::Config;
use crate::error::Error;
use crate::incremental_verification::{lemma_settled_prefix, DagState};
use crate::ipld::block_links;
use crate::payload::bytes_of;
use crate::receive::{
    block_receive_block_stream, dag_at_start, explores_on, queue_at_start, LinksQuestion,
    PresenceQuestion, Receiving, StoreRequest, Terms,
};
use crate::receiver_state::ReceiverState;
use crate::send;
use crate::send::{block_send_block_stream_pruning, walks_on, SendPlan, Sending, Sent};
use crate::subgraph_roots::{lemma_known_prefix, SearchState};
use bytes::Bytes;
use vstd::prelude::*;

verus! {

/// Whether a CID needs no question, as it is there, missing, or complete by assumption.
pub open spec fn is_known(dag: DagState, cid: Cid) -> bool {
    dag.have.contains(cid) || dag.want.contains(cid) || dag.boundary.contains(cid)
}

/// Whether the first CID of a line that is not known is asked about next, with those after it to follow, or
/// the next block is asked for if all are known. What is there and what is missing does not change.
pub open spec fn asks_first_unknown(dag: DagState, line: Seq<Cid>, r: Receiving) -> bool {
    match r {
        Receiving::IsPresent(q) => {
            let n = line.len() - q.queue().len() - 1;
            &&& 0 <= n < line.len()
            &&& q.asks() == line[n] && !is_known(dag, line[n])
            &&& forall|i: int| 0 <= i < n ==> is_known(dag, #[trigger] line[i])
            &&& q.queue() == line.skip(n + 1)
            &&& q.dag().have == dag.have && q.dag().want == dag.want
            &&& q.dag().boundary == dag.boundary
        },
        Receiving::NextBlock(q) => {
            &&& forall|i: int| 0 <= i < line.len() ==> is_known(dag, #[trigger] line[i])
            &&& q.dag().have == dag.have && q.dag().want == dag.want
            &&& q.dag().boundary == dag.boundary
        },
        _ => false,
    }
}

/// The root is asked about first, unless it is to be skipped.
pub proof fn roots_are_asked_about_first(root: Cid, config: Config, r: Receiving)
    requires
        call_ensures(block_receive_block_stream, (root, &config), r),
    ensures
        config.skip_subgraph_roots@.contains(root) ==> r is NextBlock,
        !config.skip_subgraph_roots@.contains(root) ==> (r matches Receiving::IsPresent(q)
            && q.asks() == root && q.queue().len() == 0 && q.dag().have.is_empty()
            && q.dag().want.is_empty() && q.dag().boundary == config.skip_subgraph_roots@),
{
    let skip_roots = config.skip_subgraph_roots@;
    let dag = dag_at_start(root, skip_roots);
    let line = queue_at_start(root, skip_roots);
    lemma_settled_prefix(dag, line);
}

/// A block that is there has its links asked for. One that is missing is kept in mind as such, and the line
/// goes on.
pub proof fn links_of_present_blocks_are_asked_for(
    q: PresenceQuestion,
    present: bool,
    r: Receiving,
)
    requires
        call_ensures(PresenceQuestion::answer, (q, present), r),
    ensures
        present ==> (r matches Receiving::LinksOf(l) && {
            &&& l.asks() == q.asks() && l.queue() == q.queue()
            &&& l.dag().have == q.dag().have.insert(q.asks())
            &&& l.dag().want == q.dag().want.remove(q.asks())
            &&& l.dag().boundary == q.dag().boundary
        }),
        !present ==> exists|dag: DagState|
            dag.want == q.dag().want.insert(q.asks()) && dag.have == q.dag().have.remove(q.asks())
                && dag.boundary == q.dag().boundary && #[trigger] asks_first_unknown(
                dag,
                q.queue(),
                r,
            ),
{
    if !present {
        let dag = q.dag().marked(q.asks(), false);
        lemma_settled_prefix(dag, q.queue());
        lemma_asks_first_unknown(dag, q.queue(), q.terms(), r);
    }
}

proof fn lemma_asks_first_unknown(
    dag: DagState,
    line: Seq<Cid>,
    terms: Terms,
    r: Receiving,
)
    requires
        explores_on(dag, line, terms, r),
    ensures
        asks_first_unknown(dag, line, r),
{
    let n = dag.settled_prefix(line) as int;
    lemma_settled_prefix(dag, line);
    assert forall|i: int| 0 <= i < n implies is_known(dag, #[trigger] line[i]) by {
        assert(dag.settles(line[i]));
    }
    if n < line.len() {
        assert(!dag.settles(line[n]));
    }
}

/// Links go to the end of the line.
pub proof fn links_go_to_the_end_of_the_line(q: LinksQuestion, links: Vec<Cid>, r: Receiving)
    requires
        call_ensures(LinksQuestion::answer, (q, links), r),
    ensures
        asks_first_unknown(q.dag(), q.queue() + links@, r),
{
    lemma_asks_first_unknown(q.dag(), q.queue() + links@, q.terms(), r);
}

/// Once a block is stored, it is there, and the line is made of its links.
pub proof fn links_of_stored_blocks_are_next(q: StoreRequest, r: Result<Receiving, Error>)
    requires
        call_ensures(StoreRequest::stored, (q,), r),
    ensures
        ({
            let (cid, block) = q.stores();
            let links = block_links(cid.parts().codec, bytes_of(block));
            &&& r is Ok <==> links is Some
            &&& r matches Ok(next) ==> exists|dag: DagState|
                dag.have == q.dag().have.insert(cid) && dag.want == q.dag().want.remove(cid)
                    && dag.boundary == q.dag().boundary && #[trigger] asks_first_unknown(
                    dag,
                    links->0,
                    next,
                )
        }),
{
    let (cid, block) = q.stores();
    match r {
        Ok(next) => {
            let links = block_links(cid.parts().codec, bytes_of(block));
            lemma_asks_first_unknown(q.dag().marked_as_have(cid), links->0, q.terms(), next);
        },
        Err(_) => {},
    }
}

/// The root is not searched for if it is all that is requested, or if nothing was said yet: it is read at
/// once.
pub proof fn roots_are_not_searched_for(
    root: Cid,
    last_state: Option<ReceiverState>,
    prune: bool,
    r: Sending,
)
    requires
        call_ensures(block_send_block_stream_pruning, (root, last_state, prune), r),
        last_state matches Some(state) ==> state.missing_subgraph_roots@ == seq![root],
    ensures
        r matches Sending::BytesOf(q) && q.asks() == root && q.emits(),
{
    let requested = send::requested_roots(root, last_state);
    let plan = choose|plan: SendPlan| #[trigger]
        plan.follows_from(last_state, prune) && send::send_begins(root, requested, plan, r);
    let walk = WalkState::initial(requested);
    let rules = plan.rules(requested.to_set());
    assert(requested[0] == root);
    assert(rules.requested.contains(root));
    reveal_with_fuel(fresh, 2);
    assert(requested.drop_last() =~= Seq::<Cid>::empty());
    assert(walk.level =~= seq![root]);
    reveal_with_fuel(WalkRules::decided_prefix, 2);
    assert(walk.level.drop_first() =~= Seq::<Cid>::empty());
    assert(rules.decided_prefix(walk.level) == 1);
    reveal_with_fuel(WalkRules::reads_to_send, 2);
    assert(walk.level.take(1) =~= walk.level);
    assert(walk.level.drop_last() =~= Seq::<Cid>::empty());
    assert(rules.reads_to_send(walk.level) =~= seq![(root, true)]);
    assert(walk.reads(rules, 1) =~= seq![(root, true)]);
}

/// Anything else that is requested is searched for, from the root on.
pub proof fn other_roots_are_searched_for(
    root: Cid,
    state: ReceiverState,
    prune: bool,
    r: Sending,
)
    requires
        call_ensures(block_send_block_stream_pruning, (root, Some(state), prune), r),
        state.missing_subgraph_roots@ != seq![root],
    ensures
        r matches Sending::IsPresent(q) && q.asks() == root,
{
    let requested = state.missing_subgraph_roots@;
    let search = SearchState::initial(root, requested.to_set());
    assert(SearchState::known_prefix(search.visited, search.queue) == 0);
}

/// A search is over once all that is requested is found, and no block is asked about that is not yet looked
/// at.
pub proof fn searches_end_early(q: send::LinksQuestion, links: Vec<Cid>, r: Sending)
    requires
        call_ensures(send::LinksQuestion::answer, (q, links), r),
        q.search().requested.contains(q.asks()),
        q.search().found.len() + 1 == q.search().requested.len(),
    ensures
        !(r is IsPresent) && !(r is LinksOf),
{
}

/// A search looks at what comes first, and at no block twice.
pub proof fn searches_look_at_each_block_once(q: send::LinksQuestion, links: Vec<Cid>, r: Sending)
    requires
        call_ensures(send::LinksQuestion::answer, (q, links), r),
    ensures
        r matches Sending::IsPresent(next) ==> {
            let line = q.search().queue + links@;
            let n = line.len() - next.search().queue.len() - 1;
            &&& 0 <= n < line.len() && next.asks() == line[n]
            &&& !q.search().visited.contains(line[n])
            &&& forall|i: int| 0 <= i < n ==> q.search().visited.contains(#[trigger] line[i])
            &&& next.search().queue == line.skip(n + 1)
            &&& next.search().visited == q.search().visited.insert(line[n])
            &&& next.search().requested == q.search().requested
        },
{
    let looked = q.search().looked_at(q.asks(), links@);
    lemma_known_prefix(looked.visited, looked.queue);
}

/// The blocks that are said to be read next are read next, in this order.
pub proof fn upcoming_reads_come_next(
    walk: WalkState,
    rules: WalkRules,
    q: send::BlockQuestion,
    upcoming: Vec<Cid>,
    bytes: Bytes,
    cached: Option<Vec<Cid>>,
    r: Result<Sent, Error>,
    still_upcoming: Vec<Cid>,
)
    requires
        walks_on(walk, rules, Sending::BytesOf(q)),
        call_ensures(send::BlockQuestion::upcoming_reads, (&q,), upcoming),
        upcoming@.len() > 0,
        call_ensures(send::BlockQuestion::answer, (q, bytes, cached), r),
        r matches Ok(sent) && (sent.next matches Sending::BytesOf(next) ==> call_ensures(
            send::BlockQuestion::upcoming_reads,
            (&next,),
            still_upcoming,
        )),
    ensures
        r matches Ok(sent) && (sent.next matches Sending::BytesOf(next) && next.asks()
            == upcoming@[0] && still_upcoming@ == upcoming@.drop_first()),
{
    let state = q.walk();
    assert(state.level.len() == 0);
    let links = if cached is Some {
        cached->0@
    } else {
        block_links(q.asks().parts().codec, bytes_of(bytes))->0
    };
    let after = state.expanded(links);
    assert(state.level.take(0) =~= Seq::<Cid>::empty());
    assert(rules.reads_to_send(Seq::<Cid>::empty()) =~= Seq::<(Cid, bool)>::empty());
    assert(state.reads(rules, 0) =~= state.to_read);
    assert(after.level.take(0) =~= Seq::<Cid>::empty());
    assert(after.reads(rules, 0) =~= state.to_read);
    let sent = r->Ok_0;
    let next = sent.next->BytesOf_0;
    assert(still_upcoming@ =~= upcoming@.drop_first());
}

} // verus!
