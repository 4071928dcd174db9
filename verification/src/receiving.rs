//! What a whole run of the receiving side leads to, whether blocks are stored or captured.
//!
//! A store is described by the links of the blocks that it holds.

use crate::bloom::{bloom_bits, bloom_hashes};
use crate::buffered::{
    all_known, buffers, captured_blocks_are_known, captures, holds_cid, verified,
    BufferedBlockQuestion, BufferedBloomRequest, BufferedLinksQuestion, BufferedPresenceQuestion,
    BufferedReceiving,
};
use crate::cid::Cid;
use crate::common::Config;
use crate::error::Error;
use crate::exploration::{exploration_of, explored, explored_is_unique, exploring};
use crate::incremental_verification::{lemma_settled_prefix, BlockState, DagState};
use crate::ipld::block_links;
use crate::payload::bytes_of;
use crate::receive::{
    bloom_of, dag_at_start, explores_on, follows_links, queue_at_start, receive_begins, summary,
    sums_up, takes_in, BlockQuestion, BloomRequest, LinksQuestion, PresenceQuestion, Receiving,
    StoreRequest, Terms,
};
use crate::receiver_state::ReceiverState;
use crate::transfer::{
    answers_keep_exploring, receiving_starts_exploring, storing_keeps_exploring,
};
use bytes::Bytes;
use deterministic_bloom::runtime_size::BloomFilter;
use vstd::prelude::*;

verus! {

/// The links of a block that can be read.
pub open spec fn links_of(block: (Cid, Bytes)) -> Seq<Cid> {
    block_links(block.0.parts().codec, bytes_of(block.1))->0
}

/// A store with some blocks put into it.
pub open spec fn with_blocks(
    store: Map<Cid, Seq<Cid>>,
    blocks: Seq<(Cid, Bytes)>,
) -> Map<Cid, Seq<Cid>>
    decreases blocks.len(),
{
    if blocks.len() == 0 {
        store
    } else {
        with_blocks(store, blocks.drop_last()).insert(blocks.last().0, links_of(blocks.last()))
    }
}

/// The store of the receiving side once it was handed some blocks: wanted ones are stored, present
/// ones are skipped, and an unexpected one is the end of it.
pub open spec fn taken_in(
    root: Cid,
    skip_roots: Set<Cid>,
    store: Map<Cid, Seq<Cid>>,
    blocks: Seq<(Cid, Bytes)>,
) -> Map<Cid, Seq<Cid>>
    decreases blocks.len(),
{
    if blocks.len() == 0 {
        store
    } else {
        let (cid, rest) = (blocks[0].0, blocks.drop_first());
        match exploration_of(set![root], skip_roots, store).block_state(cid) {
            BlockState::Have => taken_in(root, skip_roots, store, rest),
            BlockState::Unexpected => store,
            BlockState::Want => taken_in(
                root,
                skip_roots,
                store.insert(cid, links_of(blocks[0])),
                rest,
            ),
        }
    }
}

/// What the receiving side has settled beforehand, going by its configuration.
pub open spec fn terms_of(config: Config) -> Terms {
    Terms {
        max_block_size: config.max_block_size,
        max_roots: config.max_roots_per_round,
        skip_roots: config.skip_subgraph_roots@,
    }
}

/// Whether this is what is needed once it was said whether a block is present.
pub open spec fn presence_answered(q: PresenceQuestion, present: bool, next: Receiving) -> bool {
    let dag = q.dag().marked(q.asks(), present);
    if present {
        next matches Receiving::LinksOf(l) && l.asks() == q.asks() && l.dag() == dag && l.queue()
            == q.queue() && l.terms() == q.terms()
    } else {
        explores_on(dag, q.queue(), q.terms(), next)
    }
}

/// How far a run has got.
pub struct Position {
    /// What is stored.
    pub store: Map<Cid, Seq<Cid>>,
    /// The blocks that are yet to arrive.
    pub arriving: Seq<(Cid, Bytes)>,
    /// What is needed to go on.
    pub session: Receiving,
}

/// Whether a run goes on like this by the call that answers what is needed, or that says that a block is
/// stored.
pub open spec fn is_called(now: Position, next: Position) -> bool {
    match now.session {
        Receiving::IsPresent(q) => {
            &&& next.store == now.store && next.arriving == now.arriving
            &&& call_ensures(
                PresenceQuestion::answer,
                (q, now.store.dom().contains(q.asks())),
                next.session,
            )
        },
        Receiving::LinksOf(q) => {
            &&& next.store == now.store && next.arriving == now.arriving
            &&& exists|links: Vec<Cid>|
                links@ == now.store[q.asks()] && #[trigger] call_ensures(
                    LinksQuestion::answer,
                    (q, links),
                    next.session,
                )
        },
        Receiving::NextBlock(q) => {
            &&& next.store == now.store
            &&& if now.arriving.len() == 0 {
                next.arriving == now.arriving && call_ensures(
                    BlockQuestion::end,
                    (q,),
                    next.session,
                )
            } else {
                let (cid, block) = now.arriving[0];
                next.arriving == now.arriving.drop_first() && call_ensures(
                    BlockQuestion::block,
                    (q, cid, block),
                    Ok::<Receiving, Error>(next.session),
                )
            }
        },
        Receiving::Store(s) => {
            &&& next.store == now.store.insert(s.stores().0, links_of(s.stores()))
            &&& next.arriving == now.arriving
            &&& call_ensures(
                StoreRequest::stored,
                (s,),
                Ok::<Receiving, Error>(next.session),
            )
        },
        _ => false,
    }
}

/// Whether a run goes on like this, going by what is needed then.
pub open spec fn is_answered(now: Position, next: Position) -> bool {
    match now.session {
        Receiving::IsPresent(q) => {
            &&& next.store == now.store && next.arriving == now.arriving
            &&& presence_answered(q, now.store.dom().contains(q.asks()), next.session)
        },
        Receiving::LinksOf(q) => {
            &&& next.store == now.store && next.arriving == now.arriving
            &&& explores_on(q.dag(), q.queue() + now.store[q.asks()], q.terms(), next.session)
        },
        Receiving::NextBlock(q) => {
            &&& next.store == now.store
            &&& if now.arriving.len() == 0 {
                next.arriving == now.arriving && sums_up(q.dag(), q.terms(), next.session)
            } else {
                let (cid, block) = now.arriving[0];
                next.arriving == now.arriving.drop_first() && takes_in(
                    q.dag(),
                    q.terms(),
                    cid,
                    block,
                    next.session,
                )
            }
        },
        Receiving::Store(s) => {
            let (cid, block) = s.stores();
            &&& next.store == now.store.insert(cid, links_of((cid, block)))
            &&& next.arriving == now.arriving
            &&& follows_links(s.dag(), s.terms(), cid, bytes_of(block), next.session)
        },
        _ => false,
    }
}

/// Whether a run goes on like this: what is needed is answered rightly, and what is to be stored is
/// stored.
pub open spec fn goes_on(now: Position, next: Position) -> bool {
    is_called(now, next) || is_answered(now, next)
}

/// Whether these are the steps of a run of the receiving side, from its beginning on.
pub open spec fn is_run(root: Cid, config: Config, run: Seq<Position>) -> bool {
    &&& run.len() > 0
    &&& receive_begins(root, config, run[0].session)
    &&& forall|i: int| 0 <= i < run.len() - 1 ==> goes_on(#[trigger] run[i], run[i + 1])
}

/// Whether a run is over with this result, given an empty bloom filter for what is present.
pub open spec fn results_in(r: Receiving, empty_bloom: BloomFilter, state: ReceiverState) -> bool {
    match r {
        Receiving::Bloom(q) => {
            ||| call_ensures(BloomRequest::answer, (q, empty_bloom), state)
            ||| {
                &&& summary(q.dag(), q.terms(), state)
                &&& state.have_cids_bloom matches Some(bloom) && bloom_of(
                    q.dag(),
                    empty_bloom,
                    bloom,
                )
            }
        },
        Receiving::Done(done) => done == state,
        _ => false,
    }
}

/// Whether what is needed fits what is stored.
spec fn on_track(root: Cid, terms: Terms, p: Position) -> bool {
    let roots = set![root];
    match p.session {
        Receiving::IsPresent(q) => {
            &&& q.terms() == terms && q.dag().boundary == terms.skip_roots
            &&& if p.store.dom().contains(q.asks()) {
                exploring(
                    q.dag().marked(q.asks(), true),
                    q.queue() + p.store[q.asks()],
                    roots,
                    p.store,
                )
            } else {
                exploring(q.dag().marked(q.asks(), false), q.queue(), roots, p.store)
            }
        },
        Receiving::LinksOf(q) => {
            &&& q.terms() == terms && q.dag().boundary == terms.skip_roots
            &&& exploring(q.dag(), q.queue() + p.store[q.asks()], roots, p.store)
        },
        Receiving::NextBlock(q) => {
            &&& q.terms() == terms && q.dag().boundary == terms.skip_roots
            &&& explored(q.dag(), roots, p.store)
        },
        Receiving::Store(s) => {
            &&& s.terms() == terms && s.dag().boundary == terms.skip_roots
            &&& explored(s.dag(), roots, p.store)
            &&& s.dag().want.contains(s.stores().0)
        },
        _ => sums_up(exploration_of(roots, terms.skip_roots, p.store), terms, p.session),
    }
}

/// The store that a run ends with.
spec fn outcome(root: Cid, terms: Terms, p: Position) -> Map<Cid, Seq<Cid>> {
    match p.session {
        Receiving::Store(s) => taken_in(
            root,
            terms.skip_roots,
            p.store.insert(s.stores().0, links_of(s.stores())),
            p.arriving,
        ),
        Receiving::Bloom(_) => p.store,
        Receiving::Done(_) => p.store,
        _ => taken_in(root, terms.skip_roots, p.store, p.arriving),
    }
}

proof fn lemma_explores_on(
    root: Cid,
    terms: Terms,
    dag: DagState,
    queue: Seq<Cid>,
    p: Position,
)
    requires
        dag.boundary == terms.skip_roots,
        exploring(dag, queue, set![root], p.store),
        explores_on(dag, queue, terms, p.session),
    ensures
        on_track(root, terms, p),
        outcome(root, terms, p) == taken_in(root, terms.skip_roots, p.store, p.arriving),
{
    answers_keep_exploring(dag, queue, terms, set![root], p.store, p.session);
}

proof fn lemma_begins(root: Cid, config: Config, p: Position)
    requires
        receive_begins(root, config, p.session),
    ensures
        on_track(root, terms_of(config), p),
        outcome(root, terms_of(config), p) == taken_in(
            root,
            config.skip_subgraph_roots@,
            p.store,
            p.arriving,
        ),
{
    let skip_roots = config.skip_subgraph_roots@;
    receiving_starts_exploring(root, skip_roots, p.store);
    lemma_explores_on(
        root,
        terms_of(config),
        dag_at_start(root, skip_roots),
        queue_at_start(root, skip_roots),
        p,
    );
}

proof fn lemma_goes_on(root: Cid, terms: Terms, now: Position, next: Position)
    requires
        on_track(root, terms, now),
        is_answered(now, next),
    ensures
        on_track(root, terms, next),
        outcome(root, terms, next) == outcome(root, terms, now),
{
    match now.session {
        Receiving::IsPresent(q) => {
            let present = now.store.dom().contains(q.asks());
            if !present {
                lemma_explores_on(
                    root,
                    terms,
                    q.dag().marked(q.asks(), false),
                    q.queue(),
                    next,
                );
            }
        },
        Receiving::LinksOf(q) => {
            lemma_explores_on(root, terms, q.dag(), q.queue() + now.store[q.asks()], next);
        },
        Receiving::NextBlock(q) => {
            explored_is_unique(q.dag(), set![root], now.store);
        },
        Receiving::Store(s) => {
            let (cid, block) = s.stores();
            let links = links_of((cid, block));
            storing_keeps_exploring(s.dag(), set![root], now.store, cid, links);
            lemma_explores_on(root, terms, s.dag().marked_as_have(cid), links, next);
        },
        _ => {},
    }
}

/// What a run of the receiving side leads to: it stores the blocks that arrive as [`taken_in`] says,
/// and when it is over, it tells what is missing then.
pub proof fn runs_take_in_what_arrives(root: Cid, config: Config, run: Seq<Position>)
    requires
        is_run(root, config, run),
        run.last().session is Bloom || run.last().session is Done,
    ensures
        ({
            let skip_roots = config.skip_subgraph_roots@;
            let after = taken_in(root, skip_roots, run[0].store, run[0].arriving);
            &&& run.last().store == after
            &&& sums_up(
                exploration_of(set![root], skip_roots, after),
                terms_of(config),
                run.last().session,
            )
        }),
{
    lemma_run(root, config, run, run.len() - 1);
}

proof fn lemma_run(root: Cid, config: Config, run: Seq<Position>, n: int)
    requires
        is_run(root, config, run),
        0 <= n < run.len(),
    ensures
        on_track(root, terms_of(config), run[n]),
        outcome(root, terms_of(config), run[n]) == taken_in(
            root,
            config.skip_subgraph_roots@,
            run[0].store,
            run[0].arriving,
        ),
    decreases n,
{
    if n == 0 {
        lemma_begins(root, config, run[0]);
    } else {
        lemma_run(root, config, run, n - 1);
        assert(goes_on(run[n - 1], run[n - 1 + 1]));
        assert(is_answered(run[n - 1], run[n]));
        lemma_goes_on(root, terms_of(config), run[n - 1], run[n]);
    }
}

/// Whenever a run asks for the next block, it knows its store.
pub proof fn runs_know_their_store(root: Cid, config: Config, run: Seq<Position>, i: int)
    requires
        is_run(root, config, run),
        0 <= i < run.len(),
        run[i].session is NextBlock,
    ensures
        ({
            let q = run[i].session->NextBlock_0;
            &&& q.dag() == exploration_of(
                set![root],
                config.skip_subgraph_roots@,
                run[i].store,
            )
            &&& q.terms() == terms_of(config)
        }),
{
    lemma_run(root, config, run, i);
    explored_is_unique(run[i].session->NextBlock_0.dag(), set![root], run[i].store);
}

/// How far a run has got that captures blocks instead of storing them.
pub struct BufferedPosition {
    /// The blocks that are yet to arrive.
    pub arriving: Seq<(Cid, Bytes)>,
    /// What is needed to go on.
    pub session: BufferedReceiving,
}

/// Whether a run that captures blocks goes on like this by the call that answers what is needed.
pub open spec fn is_buffered_called(
    store: Map<Cid, Seq<Cid>>,
    now: BufferedPosition,
    next: BufferedPosition,
) -> bool {
    match now.session {
        BufferedReceiving::IsPresent(b) => {
            &&& next.arriving == now.arriving
            &&& call_ensures(
                BufferedPresenceQuestion::answer,
                (b, store.dom().contains(b.question().asks())),
                next.session,
            )
        },
        BufferedReceiving::LinksOf(b) => {
            &&& next.arriving == now.arriving
            &&& exists|links: Vec<Cid>|
                links@ == store[b.question().asks()] && #[trigger] call_ensures(
                    BufferedLinksQuestion::answer,
                    (b, links),
                    next.session,
                )
        },
        BufferedReceiving::NextBlock(b) => {
            if now.arriving.len() == 0 {
                &&& next.arriving == now.arriving
                &&& call_ensures(BufferedBlockQuestion::end, (b,), next.session)
            } else {
                let (cid, block) = now.arriving[0];
                &&& next.arriving == now.arriving.drop_first()
                &&& call_ensures(
                    BufferedBlockQuestion::block,
                    (b, cid, block),
                    Ok::<BufferedReceiving, Error>(next.session),
                )
            }
        },
        _ => false,
    }
}

/// Whether a run that captures blocks goes on like this, going by what is needed then.
pub open spec fn is_buffered_answered(
    store: Map<Cid, Seq<Cid>>,
    now: BufferedPosition,
    next: BufferedPosition,
) -> bool {
    match now.session {
        BufferedReceiving::IsPresent(b) => {
            &&& next.arriving == now.arriving
            &&& exists|r: Receiving| #[trigger]
                buffers(r, b.blocks(), next.session) && presence_answered(
                    b.question(),
                    store.dom().contains(b.question().asks()),
                    r,
                )
        },
        BufferedReceiving::LinksOf(b) => {
            let q = b.question();
            &&& next.arriving == now.arriving
            &&& exists|r: Receiving| #[trigger]
                buffers(r, b.blocks(), next.session) && explores_on(
                    q.dag(),
                    q.queue() + store[q.asks()],
                    q.terms(),
                    r,
                )
        },
        BufferedReceiving::NextBlock(b) => {
            let q = b.question();
            if now.arriving.len() == 0 {
                &&& next.arriving == now.arriving
                &&& exists|r: Receiving| #[trigger]
                    buffers(r, b.blocks(), next.session) && sums_up(q.dag(), q.terms(), r)
            } else {
                let (cid, block) = now.arriving[0];
                let data = bytes_of(block);
                &&& next.arriving == now.arriving.drop_first()
                &&& if q.dag().want.contains(cid) {
                    exists|r: Receiving, blocks: Seq<(Cid, Bytes)>| #[trigger]
                        buffers(r, blocks, next.session) && captures(b.blocks(), cid, data, blocks)
                            && verified(q.terms(), cid, data) && follows_links(
                            q.dag(),
                            q.terms(),
                            cid,
                            data,
                            r,
                        )
                } else {
                    exists|r: Receiving| #[trigger]
                        buffers(r, b.blocks(), next.session) && takes_in(
                            q.dag(),
                            q.terms(),
                            cid,
                            block,
                            r,
                        )
                }
            }
        },
        _ => false,
    }
}

/// Whether a run that captures blocks goes on like this: what is needed is answered rightly, going by
/// a store that stays as it is.
pub open spec fn buffered_goes_on(
    store: Map<Cid, Seq<Cid>>,
    now: BufferedPosition,
    next: BufferedPosition,
) -> bool {
    is_buffered_called(store, now, next) || is_buffered_answered(store, now, next)
}

/// Whether these are the steps of a run that captures blocks, from its beginning on.
pub open spec fn is_buffered_run(
    root: Cid,
    config: Config,
    store: Map<Cid, Seq<Cid>>,
    run: Seq<BufferedPosition>,
) -> bool {
    &&& run.len() > 0
    &&& exists|r: Receiving| #[trigger]
        buffers(r, Seq::empty(), run[0].session) && receive_begins(root, config, r)
    &&& forall|i: int|
        0 <= i < run.len() - 1 ==> buffered_goes_on(store, #[trigger] run[i], run[i + 1])
}

/// Whether a run that captures blocks is over with this result, given an empty bloom filter for what
/// is present.
pub open spec fn buffered_results_in(
    b: BufferedReceiving,
    empty_bloom: BloomFilter,
    state: ReceiverState,
    blocks: Seq<(Cid, Bytes)>,
) -> bool {
    match b {
        BufferedReceiving::Bloom(bloom) => {
            ||| exists|all: Vec<(Cid, Bytes)>|
                blocks == all@ && #[trigger] call_ensures(
                    BufferedBloomRequest::answer,
                    (bloom, empty_bloom),
                    (state, all),
                )
            ||| results_in(Receiving::Bloom(bloom.request()), empty_bloom, state) && blocks
                == bloom.blocks()
        },
        BufferedReceiving::Done(done, all) => done == state && blocks == all@,
        _ => false,
    }
}

/// What is known of the graph.
spec fn dag_of(r: Receiving) -> Option<DagState> {
    match r {
        Receiving::IsPresent(q) => Some(q.dag()),
        Receiving::LinksOf(q) => Some(q.dag()),
        Receiving::NextBlock(q) => Some(q.dag()),
        _ => None,
    }
}

/// Whether a run that has captured some blocks is where a run would be that has stored them.
spec fn in_step(
    root: Cid,
    terms: Terms,
    store: Map<Cid, Seq<Cid>>,
    goal: Map<Cid, Seq<Cid>>,
    p: BufferedPosition,
    r: Receiving,
    captured: Seq<(Cid, Bytes)>,
) -> bool {
    let stored = Position {
        store: with_blocks(store, captured),
        arriving: p.arriving,
        session: r,
    };
    &&& buffers(r, captured, p.session)
    &&& on_track(root, terms, stored)
    &&& outcome(root, terms, stored) == goal
    &&& dag_of(r) matches Some(dag) ==> all_known(captured, dag)
    &&& r matches Receiving::IsPresent(q) ==> !holds_cid(captured, q.asks())
    &&& r matches Receiving::LinksOf(q) ==> !holds_cid(captured, q.asks())
}

proof fn lemma_with_blocks(store: Map<Cid, Seq<Cid>>, blocks: Seq<(Cid, Bytes)>, cid: Cid)
    requires
        !holds_cid(blocks, cid),
    ensures
        with_blocks(store, blocks).dom().contains(cid) == store.dom().contains(cid),
        with_blocks(store, blocks)[cid] == store[cid],
    decreases blocks.len(),
{
    if blocks.len() > 0 {
        let before = blocks.drop_last();
        assert(blocks[blocks.len() - 1].0 != cid);
        assert(!holds_cid(before, cid)) by {
            if holds_cid(before, cid) {
                let i = choose|i: int| 0 <= i < before.len() && (#[trigger] before[i]).0 == cid;
                assert(blocks[i].0 == cid);
            }
        }
        lemma_with_blocks(store, before, cid);
    }
}

/// A traversal neither forgets what was captured nor asks for it.
proof fn lemma_captured_is_known(
    captured: Seq<(Cid, Bytes)>,
    dag: DagState,
    queue: Seq<Cid>,
    terms: Terms,
    r: Receiving,
)
    requires
        all_known(captured, dag),
        explores_on(dag, queue, terms, r),
    ensures
        dag_of(r) matches Some(known) && all_known(captured, known),
        r matches Receiving::IsPresent(q) ==> !holds_cid(captured, q.asks()),
        !(r is LinksOf),
{
    lemma_settled_prefix(dag, queue);
}

proof fn lemma_buffered_goes_on(
    root: Cid,
    terms: Terms,
    store: Map<Cid, Seq<Cid>>,
    goal: Map<Cid, Seq<Cid>>,
    now: BufferedPosition,
    next: BufferedPosition,
    r: Receiving,
    captured: Seq<(Cid, Bytes)>,
)
    requires
        in_step(root, terms, store, goal, now, r, captured),
        buffered_goes_on(store, now, next),
    ensures
        exists|after: Receiving, blocks: Seq<(Cid, Bytes)>| #[trigger]
            in_step(root, terms, store, goal, next, after, blocks),
{
    let stored = with_blocks(store, captured);
    let here = Position { store: stored, arriving: now.arriving, session: r };
    match r {
        Receiving::IsPresent(q) => {
            let present = store.dom().contains(q.asks());
            let after = choose|after: Receiving| #[trigger]
                buffers(after, captured, next.session) && presence_answered(q, present, after);
            let there = Position { store: stored, arriving: next.arriving, session: after };
            lemma_with_blocks(store, captured, q.asks());
            lemma_goes_on(root, terms, here, there);
            let dag = q.dag().marked(q.asks(), present);
            assert(all_known(captured, dag)) by {
                assert forall|i: int| 0 <= i < captured.len() implies dag.have.contains(
                    (#[trigger] captured[i]).0,
                ) by {
                    assert(captured[i].0 != q.asks());
                }
            }
            if !present {
                lemma_captured_is_known(captured, dag, q.queue(), q.terms(), after);
            }
            assert(in_step(root, terms, store, goal, next, after, captured));
        },
        Receiving::LinksOf(q) => {
            let links = store[q.asks()];
            let after = choose|after: Receiving| #[trigger]
                buffers(after, captured, next.session) && explores_on(
                    q.dag(),
                    q.queue() + links,
                    q.terms(),
                    after,
                );
            let there = Position { store: stored, arriving: next.arriving, session: after };
            lemma_with_blocks(store, captured, q.asks());
            lemma_goes_on(root, terms, here, there);
            lemma_captured_is_known(captured, q.dag(), q.queue() + links, q.terms(), after);
            assert(in_step(root, terms, store, goal, next, after, captured));
        },
        Receiving::NextBlock(q) => {
            if now.arriving.len() == 0 {
                let after = choose|after: Receiving| #[trigger]
                    buffers(after, captured, next.session) && sums_up(q.dag(), q.terms(), after);
                let there = Position { store: stored, arriving: next.arriving, session: after };
                lemma_goes_on(root, terms, here, there);
                assert(in_step(root, terms, store, goal, next, after, captured));
            } else {
                let (cid, block) = now.arriving[0];
                let data = bytes_of(block);
                if q.dag().want.contains(cid) {
                    let (after, blocks) = choose|after: Receiving, blocks: Seq<(Cid, Bytes)>|
                        #[trigger] buffers(after, blocks, next.session) && captures(
                            captured,
                            cid,
                            data,
                            blocks,
                        ) && verified(q.terms(), cid, data) && follows_links(
                            q.dag(),
                            q.terms(),
                            cid,
                            data,
                            after,
                        );
                    let links = links_of((cid, block));
                    let there = Position {
                        store: with_blocks(store, blocks),
                        arriving: next.arriving,
                        session: after,
                    };
                    assert(with_blocks(store, blocks) == stored.insert(cid, links));
                    explored_is_unique(q.dag(), set![root], stored);
                    storing_keeps_exploring(q.dag(), set![root], stored, cid, links);
                    lemma_explores_on(root, terms, q.dag().marked_as_have(cid), links, there);
                    captured_blocks_are_known(
                        captured,
                        q.dag(),
                        cid,
                        data,
                        blocks,
                    );
                    lemma_captured_is_known(
                        blocks,
                        q.dag().marked_as_have(cid),
                        links,
                        q.terms(),
                        after,
                    );
                    assert(in_step(root, terms, store, goal, next, after, blocks));
                } else {
                    let after = choose|after: Receiving| #[trigger]
                        buffers(after, captured, next.session) && takes_in(
                            q.dag(),
                            q.terms(),
                            cid,
                            block,
                            after,
                        );
                    let there = Position {
                        store: stored,
                        arriving: next.arriving,
                        session: after,
                    };
                    lemma_goes_on(root, terms, here, there);
                    assert(in_step(root, terms, store, goal, next, after, captured));
                }
            }
        },
        _ => {},
    }
}

proof fn lemma_buffered_run(
    root: Cid,
    config: Config,
    store: Map<Cid, Seq<Cid>>,
    run: Seq<BufferedPosition>,
    n: int,
)
    requires
        is_buffered_run(root, config, store, run),
        0 <= n < run.len(),
    ensures
        ({
            let goal = taken_in(root, config.skip_subgraph_roots@, store, run[0].arriving);
            exists|r: Receiving, captured: Seq<(Cid, Bytes)>| #[trigger]
                in_step(root, terms_of(config), store, goal, run[n], r, captured)
        }),
    decreases n,
{
    let goal = taken_in(root, config.skip_subgraph_roots@, store, run[0].arriving);
    let terms = terms_of(config);
    if n == 0 {
        let nothing = Seq::<(Cid, Bytes)>::empty();
        let r = choose|r: Receiving| #[trigger]
            buffers(r, nothing, run[0].session) && receive_begins(root, config, r);
        lemma_begins(
            root,
            config,
            Position { store, arriving: run[0].arriving, session: r },
        );
        lemma_captured_is_known(
            nothing,
            dag_at_start(root, terms.skip_roots),
            queue_at_start(root, terms.skip_roots),
            terms,
            r,
        );
        assert(in_step(root, terms, store, goal, run[0], r, nothing));
    } else {
        lemma_buffered_run(root, config, store, run, n - 1);
        let (r, captured) = choose|r: Receiving, captured: Seq<(Cid, Bytes)>| #[trigger]
            in_step(root, terms, store, goal, run[n - 1], r, captured);
        assert(buffered_goes_on(store, run[n - 1], run[n - 1 + 1]));
        lemma_buffered_goes_on(
            root,
            terms,
            store,
            goal,
            run[n - 1],
            run[n],
            r,
            captured,
        );
    }
}

/// Whenever a run that captures blocks asks for the next one, it knows its store with what it has captured
/// put into it.
pub proof fn buffered_runs_know_their_store(
    root: Cid,
    config: Config,
    store: Map<Cid, Seq<Cid>>,
    run: Seq<BufferedPosition>,
    i: int,
)
    requires
        is_buffered_run(root, config, store, run),
        0 <= i < run.len(),
        run[i].session is NextBlock,
    ensures
        ({
            let q = run[i].session->NextBlock_0;
            &&& q.question().dag() == exploration_of(
                set![root],
                config.skip_subgraph_roots@,
                with_blocks(store, q.blocks()),
            )
            &&& q.question().terms() == terms_of(config)
        }),
{
    let q = run[i].session->NextBlock_0;
    let goal = taken_in(root, config.skip_subgraph_roots@, store, run[0].arriving);
    lemma_buffered_run(root, config, store, run, i);
    let (r, captured) = choose|r: Receiving, captured: Seq<(Cid, Bytes)>| #[trigger]
        in_step(root, terms_of(config), store, goal, run[i], r, captured);
    explored_is_unique(q.question().dag(), set![root], with_blocks(store, q.blocks()));
}

/// Capturing blocks leads to the same as storing them. Of two runs with the same store at first and
/// the same blocks that arrive, one of which captures blocks, both tell the same to the sending side,
/// and with the captured blocks put into it, the store is the same.
#[verifier::rlimit(40)]
pub proof fn capturing_gives_the_same_as_storing(
    root: Cid,
    config: Config,
    run: Seq<Position>,
    buffered: Seq<BufferedPosition>,
    empty_bloom: BloomFilter,
    state: ReceiverState,
    buffered_state: ReceiverState,
    blocks: Seq<(Cid, Bytes)>,
)
    requires
        is_run(root, config, run),
        is_buffered_run(root, config, run[0].store, buffered),
        run[0].arriving == buffered[0].arriving,
        results_in(run.last().session, empty_bloom, state),
        buffered_results_in(buffered.last().session, empty_bloom, buffered_state, blocks),
    ensures
        with_blocks(run[0].store, blocks) == run.last().store,
        buffered_state.missing_subgraph_roots@ == state.missing_subgraph_roots@,
        buffered_state.skip_subgraph_roots@ == state.skip_subgraph_roots@,
        match (buffered_state.have_cids_bloom, state.have_cids_bloom) {
            (Some(a), Some(b)) => bloom_hashes(a) == bloom_hashes(b) && bloom_bits(a) == bloom_bits(
                b,
            ),
            (None, None) => true,
            _ => false,
        },
{
    let store = run[0].store;
    let terms = terms_of(config);
    let goal = taken_in(root, terms.skip_roots, store, run[0].arriving);
    runs_take_in_what_arrives(root, config, run);
    lemma_buffered_run(root, config, store, buffered, buffered.len() - 1);
    let (r, captured) = choose|r: Receiving, captured: Seq<(Cid, Bytes)>| #[trigger]
        in_step(root, terms, store, goal, buffered.last(), r, captured);
    assert(blocks == captured);
}

} // verus!
