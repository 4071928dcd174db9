//! Receiving blocks without storing them: they are captured in memory instead.

use crate::bloom::{bloom_bits, bloom_fits};
use crate::cid::Cid;
use crate::common::{CarFile, Config};
use crate::car::car_after_header;
use crate::error::Error;
use crate::incremental_verification::{digest_matches, lemma_settled_prefix, DagState};
use crate::ipld::hash_supported;
use crate::payload::bytes_of;
use crate::receive::{block_receive, block_receive_block_stream, block_receive_car_stream, bloom_of, cannot_be_read, car_is_accepted, car_is_refused, explores_on, follows_links, is_car_of, receive_begins, refuses, summary, sums_up, takes_in, yields};
use crate::receive::{BlockQuestion, BloomRequest, CarSource, LinksQuestion, PresenceQuestion, Receiving, Terms};
use crate::receiver_state::ReceiverState;
use bytes::Bytes;
use deterministic_bloom::runtime_size::BloomFilter;
use vstd::prelude::*;

verus! {

/// Blocks that are captured in memory, in the order in which they came.
#[derive(Debug)]
pub struct BufferedBlocks {
    buffer: Vec<(Cid, Bytes)>,
}

impl View for BufferedBlocks {
    type V = Seq<(Cid, Bytes)>;

    closed spec fn view(&self) -> Seq<(Cid, Bytes)> {
        self.buffer@
    }
}

/// Whether the first block with a CID stands at an index.
pub open spec fn first_at(blocks: Seq<(Cid, Bytes)>, cid: Cid, i: int) -> bool {
    &&& 0 <= i < blocks.len()
    &&& blocks[i].0 == cid
    &&& forall|j: int| 0 <= j < i ==> (#[trigger] blocks[j]).0 != cid
}

/// Whether there is a block with a CID.
pub open spec fn holds_cid(blocks: Seq<(Cid, Bytes)>, cid: Cid) -> bool {
    exists|i: int| 0 <= i < blocks.len() && (#[trigger] blocks[i]).0 == cid
}

impl BufferedBlocks {
    /// No blocks.
    pub fn new() -> (r: BufferedBlocks)
        ensures
            r@ == Seq::<(Cid, Bytes)>::empty(),
    {
        BufferedBlocks { buffer: Vec::new() }
    }

    /// All blocks.
    pub fn into_blocks(self) -> (r: Vec<(Cid, Bytes)>)
        ensures
            r@ == self@,
    {
        self.buffer
    }

    fn find(&self, cid: &Cid) -> (r: Option<usize>)
        ensures
            match r {
                Some(i) => first_at(self@, *cid, i as int),
                None => !holds_cid(self@, *cid),
            },
    {
        let mut i: usize = 0;
        while i < self.buffer.len()
            invariant
                i <= self.buffer.len(),
                forall|j: int| 0 <= j < i ==> (#[trigger] self.buffer@[j]).0 != *cid,
            decreases self.buffer.len() - i,
        {
            if self.buffer[i].0 == *cid {
                return Some(i);
            }
            i = i + 1;
        }
        None
    }

    /// The bytes of the first block with the given CID.
    pub fn get_block(&self, cid: &Cid) -> (r: Option<Bytes>)
        ensures
            match r {
                Some(bytes) => exists|i: int| #[trigger]
                    first_at(self@, *cid, i) && bytes_of(bytes) == bytes_of(self@[i].1),
                None => !holds_cid(self@, *cid),
            },
    {
        match self.find(cid) {
            Some(i) => Some(self.buffer[i].1.clone()),
            None => None,
        }
    }

    /// Whether there is a block with the given CID.
    pub fn has_block(&self, cid: &Cid) -> (r: bool)
        ensures
            r == holds_cid(self@, *cid),
    {
        match self.find(cid) {
            Some(i) => {
                proof {
                    assert(self@[i as int].0 == *cid);
                }
                true
            },
            None => false,
        }
    }

    /// Captures a block.
    pub fn put_block_keyed(&mut self, cid: Cid, bytes: Bytes)
        ensures
            final(self)@ == old(self)@.push((cid, bytes)),
    {
        self.buffer.push((cid, bytes));
    }
}

/// Whether everything that was captured is known to be present.
pub open spec fn all_known(blocks: Seq<(Cid, Bytes)>, dag: DagState) -> bool {
    forall|i: int| 0 <= i < blocks.len() ==> dag.have.contains((#[trigger] blocks[i]).0)
}

/// What is needed to go on receiving without storing. There is no request to store a block among
/// these: the store is only read.
pub enum BufferedReceiving {
    /// Whether a block is in the store.
    IsPresent(BufferedPresenceQuestion),
    /// The links of a block in the store.
    LinksOf(BufferedLinksQuestion),
    /// The next block that arrives, if there is one.
    NextBlock(BufferedBlockQuestion),
    /// An empty bloom filter for what is present.
    Bloom(BufferedBloomRequest),
    /// Nothing: this is what to tell the sending side, and these are the verified blocks, in the
    /// order in which they were received.
    Done(ReceiverState, Vec<(Cid, Bytes)>),
}

/// Whether a block is in the store.
pub struct BufferedPresenceQuestion {
    question: PresenceQuestion,
    buffer: BufferedBlocks,
}

/// The links of a block in the store.
pub struct BufferedLinksQuestion {
    question: LinksQuestion,
    buffer: BufferedBlocks,
}

/// The next block that arrives, if there is one.
pub struct BufferedBlockQuestion {
    question: BlockQuestion,
    buffer: BufferedBlocks,
}

/// An empty bloom filter for what is present.
pub struct BufferedBloomRequest {
    request: BloomRequest,
    buffer: BufferedBlocks,
}

/// Whether what is needed is the same, apart from what was captured.
pub open spec fn buffers(r: Receiving, blocks: Seq<(Cid, Bytes)>, b: BufferedReceiving) -> bool {
    match r {
        Receiving::IsPresent(q) => b matches BufferedReceiving::IsPresent(bq) && bq.question() == q
            && bq.blocks() == blocks,
        Receiving::LinksOf(q) => b matches BufferedReceiving::LinksOf(bq) && bq.question() == q
            && bq.blocks() == blocks,
        Receiving::NextBlock(q) => b matches BufferedReceiving::NextBlock(bq) && bq.question() == q
            && bq.blocks() == blocks,
        Receiving::Bloom(q) => b matches BufferedReceiving::Bloom(bq) && bq.request() == q
            && bq.blocks() == blocks,
        Receiving::Done(state) => b matches BufferedReceiving::Done(s, all) && s == state && all@
            == blocks,
        Receiving::Store(_) => false,
    }
}

fn buffer_step(r: Receiving, buffer: BufferedBlocks) -> (b: BufferedReceiving)
    requires
        !(r is Store),
    ensures
        buffers(r, buffer@, b),
{
    match r {
        Receiving::IsPresent(question) => BufferedReceiving::IsPresent(
            BufferedPresenceQuestion { question, buffer },
        ),
        Receiving::LinksOf(question) => BufferedReceiving::LinksOf(
            BufferedLinksQuestion { question, buffer },
        ),
        Receiving::NextBlock(question) => BufferedReceiving::NextBlock(
            BufferedBlockQuestion { question, buffer },
        ),
        Receiving::Bloom(request) => BufferedReceiving::Bloom(
            BufferedBloomRequest { request, buffer },
        ),
        Receiving::Done(state) => BufferedReceiving::Done(state, buffer.into_blocks()),
        Receiving::Store(_) => vstd::pervasive::unreached(),
    }
}

impl BufferedPresenceQuestion {
    /// What is asked, apart from what was captured.
    pub closed spec fn question(self) -> PresenceQuestion {
        self.question
    }

    /// What was captured.
    pub closed spec fn blocks(self) -> Seq<(Cid, Bytes)> {
        self.buffer@
    }

    /// The block in question.
    pub fn cid(&self) -> (r: Cid)
        ensures
            r == self.question().asks(),
    {
        self.question.cid()
    }

    /// Goes on to ask for the links of the block if it is present, or else with what is to be looked
    /// at next.
    pub fn answer(self, present: bool) -> (r: BufferedReceiving)
        ensures
            exists|next: Receiving| #[trigger]
                buffers(next, self.blocks(), r) && ({
                    let q = self.question();
                    let dag = q.dag().marked(q.asks(), present);
                    if present {
                        next matches Receiving::LinksOf(l) && l.asks() == q.asks() && l.dag() == dag
                            && l.queue() == q.queue() && l.terms() == q.terms()
                    } else {
                        explores_on(dag, q.queue(), q.terms(), next)
                    }
                }),
    {
        let BufferedPresenceQuestion { question, buffer } = self;
        let next = question.answer(present);
        let r = buffer_step(next, buffer);
        proof {
            assert(buffers(next, self.blocks(), r));
        }
        r
    }
}

impl BufferedLinksQuestion {
    /// What is asked, apart from what was captured.
    pub closed spec fn question(self) -> LinksQuestion {
        self.question
    }

    /// What was captured.
    pub closed spec fn blocks(self) -> Seq<(Cid, Bytes)> {
        self.buffer@
    }

    /// The block in question.
    pub fn cid(&self) -> (r: Cid)
        ensures
            r == self.question().asks(),
    {
        self.question.cid()
    }

    /// Goes on with what is to be looked at next, and then with the links.
    pub fn answer(self, links: Vec<Cid>) -> (r: BufferedReceiving)
        ensures
            exists|next: Receiving| #[trigger]
                buffers(next, self.blocks(), r) && ({
                    let q = self.question();
                    explores_on(q.dag(), q.queue() + links@, q.terms(), next)
                }),
    {
        let BufferedLinksQuestion { question, buffer } = self;
        let next = question.answer(links);
        let r = buffer_step(next, buffer);
        proof {
            assert(buffers(next, self.blocks(), r));
        }
        r
    }
}

/// Whether a block was captured after others.
pub open spec fn captures(
    before: Seq<(Cid, Bytes)>,
    cid: Cid,
    data: Seq<u8>,
    after: Seq<(Cid, Bytes)>,
) -> bool {
    &&& after.len() == before.len() + 1
    &&& after.drop_last() == before
    &&& after.last().0 == cid
    &&& bytes_of(after.last().1) == data
}

impl BufferedBlockQuestion {
    /// What is asked, apart from what was captured.
    pub closed spec fn question(self) -> BlockQuestion {
        self.question
    }

    /// What was captured.
    pub closed spec fn blocks(self) -> Seq<(Cid, Bytes)> {
        self.buffer@
    }

    /// Takes in a block. A wanted block is verified and captured.
    pub fn block(self, cid: Cid, block: Bytes) -> (r: Result<BufferedReceiving, Error>)
        ensures
            ({
                let dag = self.question().dag();
                let terms = self.question().terms();
                let data = bytes_of(block);
                match r {
                    Ok(b) => if dag.want.contains(cid) {
                        exists|next: Receiving, blocks: Seq<(Cid, Bytes)>| #[trigger]
                            buffers(next, blocks, b) && captures(self.blocks(), cid, data, blocks)
                                && verified(terms, cid, data) && follows_links(
                                dag,
                                terms,
                                cid,
                                data,
                                next,
                            )
                    } else {
                        exists|next: Receiving| #[trigger]
                            buffers(next, self.blocks(), b) && takes_in(
                                dag,
                                terms,
                                cid,
                                block,
                                next,
                            )
                    },
                    Err(e) => refuses(dag, terms, cid, data, e) || (dag.want.contains(cid)
                        && verified(terms, cid, data) && cannot_be_read(cid, data, e)),
                }
            }),
    {
        let BufferedBlockQuestion { question, buffer } = self;
        let mut buffer = buffer;
        let captured = block.clone();
        match question.block(cid, block) {
            Ok(Receiving::Store(request)) => {
                let ghost before = buffer@;
                buffer.put_block_keyed(cid, captured);
                proof {
                    assert(buffer@.drop_last() =~= before);
                    assert(captures(before, cid, bytes_of(block), buffer@));
                }
                match request.stored() {
                    Ok(next) => {
                        let ghost blocks = buffer@;
                        let r = buffer_step(next, buffer);
                        proof {
                            assert(buffers(next, blocks, r));
                            assert(captures(self.blocks(), cid, bytes_of(block), blocks));
                        }
                        Ok(r)
                    },
                    Err(e) => Err(e),
                }
            },
            Ok(next) => {
                let r = buffer_step(next, buffer);
                proof {
                    assert(buffers(next, self.blocks(), r));
                }
                Ok(r)
            },
            Err(e) => Err(e),
        }
    }

    /// Takes in no more blocks.
    pub fn end(self) -> (r: BufferedReceiving)
        ensures
            exists|next: Receiving| #[trigger]
                buffers(next, self.blocks(), r) && sums_up(
                    self.question().dag(),
                    self.question().terms(),
                    next,
                ),
    {
        let BufferedBlockQuestion { question, buffer } = self;
        let next = question.end();
        let r = buffer_step(next, buffer);
        proof {
            assert(buffers(next, self.blocks(), r));
        }
        r
    }
}

/// Whether a block is small enough and has the right digest.
pub open spec fn verified(terms: Terms, cid: Cid, data: Seq<u8>) -> bool {
    &&& data.len() <= terms.max_block_size
    &&& hash_supported(cid.parts().hash_code)
    &&& digest_matches(cid, data)
}

impl BufferedBloomRequest {
    /// What is asked, apart from what was captured.
    pub closed spec fn request(self) -> BloomRequest {
        self.request
    }

    /// What was captured.
    pub closed spec fn blocks(self) -> Seq<(Cid, Bytes)> {
        self.buffer@
    }

    /// How many CIDs the bloom filter is to hold.
    pub fn capacity(&self) -> (r: u64)
        ensures
            r == self.request().holds(),
    {
        self.request.capacity()
    }

    /// What to tell the sending side, with all that is present put into the given bloom filter, and
    /// the verified blocks, in the order in which they were received.
    pub fn answer(self, empty_bloom: BloomFilter) -> (r: (ReceiverState, Vec<(Cid, Bytes)>))
        requires
            bloom_fits(bloom_bits(empty_bloom)),
        ensures
            ({
                let dag = self.request().dag();
                &&& summary(dag, self.request().terms(), r.0)
                &&& r.0.have_cids_bloom is Some <==> dag.needs_bloom()
                &&& r.0.have_cids_bloom matches Some(bloom) ==> bloom_of(dag, empty_bloom, bloom)
            }),
            r.1@ == self.blocks(),
    {
        let BufferedBloomRequest { request, buffer } = self;
        (request.answer(empty_bloom), buffer.into_blocks())
    }
}

/// Like [`block_receive`], but leads to the verified blocks instead of storing them.
///
/// These are all blocks that were verified
/// during this round, in the order they were received. The caller is
/// responsible for persisting them (e.g., batch-importing as a CAR file).
pub fn block_receive_with_blocks(root: Cid, last_car: Option<CarFile>, config: &Config) -> (r:
    Result<(BufferedReceiving, CarSource), Error>)
    ensures
        match r {
            Ok((buffered, source)) => {
                &&& exists|receiving: Receiving| #[trigger]
                    buffers(receiving, Seq::empty(), buffered) && receive_begins(root, *config, receiving)
                &&& car_is_accepted(last_car, *config, source)
            },
            Err(e) => car_is_refused(last_car, *config, e),
        },
        forall|blocks: Seq<(Cid, Bytes)>|
            last_car is Some && #[trigger] is_car_of(last_car->0, blocks) && bytes_of(
                last_car->0.bytes,
            ).len() <= config.receive_maximum ==> r is Ok && yields(r->Ok_0.1, blocks),
{
    match block_receive(root, last_car, config) {
        Ok((receiving, source)) => Ok((buffer_step(receiving, BufferedBlocks::new()), source)),
        Err(e) => Err(e),
    }
}

/// Like [`block_receive_car_stream`], but leads to the verified blocks instead of storing them.
///
/// See [`block_receive_with_blocks`] for details.
pub fn block_receive_car_stream_with_blocks(root: Cid, car: CarFile, config: &Config) -> (r: Result<
    (BufferedReceiving, CarSource),
    Error,
>)
    ensures
        match r {
            Ok((buffered, source)) => {
                &&& exists|receiving: Receiving| #[trigger]
                    buffers(receiving, Seq::empty(), buffered) && receive_begins(root, *config, receiving)
                &&& source matches CarSource::Car(unread) && car_after_header(bytes_of(car.bytes))
                    == Some(unread@)
            },
            Err(e) => e is CarFileError && car_after_header(bytes_of(car.bytes)) is None,
        },
        forall|blocks: Seq<(Cid, Bytes)>| #[trigger]
            is_car_of(car, blocks) ==> r is Ok && yields(r->Ok_0.1, blocks),
{
    match block_receive_car_stream(root, car, config) {
        Ok((receiving, source)) => Ok((buffer_step(receiving, BufferedBlocks::new()), source)),
        Err(e) => Err(e),
    }
}

/// Like [`block_receive_block_stream`], but leads to the verified blocks instead of storing them.
pub fn block_receive_block_stream_with_blocks(root: Cid, config: &Config) -> (r: BufferedReceiving)
    ensures
        exists|receiving: Receiving| #[trigger]
            buffers(receiving, Seq::empty(), r) && receive_begins(root, *config, receiving),
{
    buffer_step(block_receive_block_stream(root, config), BufferedBlocks::new())
}

/// What is asked of the store was never captured, so the answer of the store is the whole answer.
pub proof fn what_is_asked_was_not_captured(
    blocks: Seq<(Cid, Bytes)>,
    dag: DagState,
    queue: Seq<Cid>,
    terms: Terms,
    next: Receiving,
)
    requires
        all_known(blocks, dag),
        explores_on(dag, queue, terms, next),
    ensures
        next matches Receiving::IsPresent(q) ==> all_known(blocks, q.dag()) && !holds_cid(
            blocks,
            q.asks(),
        ) && !q.dag().have.contains(q.asks()),
        next matches Receiving::NextBlock(q) ==> all_known(blocks, q.dag()),
{
    lemma_settled_prefix(dag, queue);
}

/// What was captured stays known to be present, whatever the store answers.
pub proof fn answers_keep_what_was_captured(
    blocks: Seq<(Cid, Bytes)>,
    dag: DagState,
    cid: Cid,
    present: bool,
)
    requires
        all_known(blocks, dag),
        !holds_cid(blocks, cid),
    ensures
        all_known(blocks, dag.marked(cid, present)),
{
}

/// What is captured is known to be present.
pub proof fn captured_blocks_are_known(
    before: Seq<(Cid, Bytes)>,
    dag: DagState,
    cid: Cid,
    data: Seq<u8>,
    after: Seq<(Cid, Bytes)>,
)
    requires
        all_known(before, dag),
        captures(before, cid, data, after),
    ensures
        all_known(after, dag.marked_as_have(cid)),
{
    assert forall|i: int| 0 <= i < after.len() implies dag.marked_as_have(cid).have.contains(
        (#[trigger] after[i]).0,
    ) by {
        if i < before.len() {
            assert(after.drop_last()[i] == after[i]);
            assert(before[i] == after[i]);
        }
    }
}

} // verus!
