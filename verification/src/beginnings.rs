//! How receiving begins, and what capturing blocks does, call by call.

use crate::buffered::{
    block_receive_block_stream_with_blocks, block_receive_car_stream_with_blocks,
    block_receive_with_blocks, buffers, BufferedBlockQuestion, BufferedBlocks,
    BufferedBloomRequest, BufferedLinksQuestion, BufferedPresenceQuestion, BufferedReceiving,
};
use crate::car::car_after_header;
use crate::cid::Cid;
use crate::common::{CarFile, Config};
use crate::error::Error;
use crate::ipld::{block_links, digest_of, hash_supported};
use crate::payload::bytes_of;
use crate::pull::{
    handle_response_streaming, handle_response_streaming_with_blocks, request, request_with_blocks,
};
use crate::receive::{
    block_receive, block_receive_block_stream, block_receive_car_stream, is_car_of, receive_begins,
    yields, BloomRequest, CarSource, LinksQuestion, PresenceQuestion, Receiving, StoreRequest,
};
use crate::receiver_state::ReceiverState;
use bytes::Bytes;
use deterministic_bloom::runtime_size::BloomFilter;
use vstd::prelude::*;

verus! {

/// Whether receiving begins for a root as it is configured, with nothing captured.
pub open spec fn buffered_receive_begins(root: Cid, config: Config, b: BufferedReceiving) -> bool {
    exists|r: Receiving| #[trigger]
        buffers(r, Seq::empty(), b) && receive_begins(root, config, r)
}

/// Blocks that come one by one are received in the same way, whatever asks for it.
pub proof fn streams_are_received_alike(
    root: Cid,
    config: Config,
    stream: Receiving,
    response: Receiving,
    buffered_stream: BufferedReceiving,
    buffered_response: BufferedReceiving,
)
    requires
        call_ensures(block_receive_block_stream, (root, &config), stream),
        call_ensures(handle_response_streaming, (root, &config), response),
        call_ensures(block_receive_block_stream_with_blocks, (root, &config), buffered_stream),
        call_ensures(handle_response_streaming_with_blocks, (root, &config), buffered_response),
    ensures
        receive_begins(root, config, stream),
        receive_begins(root, config, response),
        buffered_receive_begins(root, config, buffered_stream),
        buffered_receive_begins(root, config, buffered_response),
{
}

/// Whether a CAR file, or none, is refused: because it is too large, or because it has no header.
pub open spec fn is_refused(car: Option<CarFile>, config: Config) -> bool {
    car matches Some(car) && (bytes_of(car.bytes).len() > config.receive_maximum
        || car_after_header(bytes_of(car.bytes)) is None)
}

/// Whether an error tells why a CAR file is refused: by how much it is too large, or else that it cannot be
/// read.
pub open spec fn tells_why(car: Option<CarFile>, config: Config, e: Error) -> bool {
    car matches Some(car) && if bytes_of(car.bytes).len() > config.receive_maximum {
        e matches Error::TooManyBytes { receive_maximum, bytes_read } && receive_maximum
            == config.receive_maximum && bytes_read == bytes_of(car.bytes).len()
    } else {
        e is CarFileError
    }
}

/// Whether what is to be read is the rest of a CAR file after its header, or nothing without one.
pub open spec fn is_to_be_read(car: Option<CarFile>, source: CarSource) -> bool {
    match car {
        Some(car) => source matches CarSource::Car(unread) && car_after_header(bytes_of(car.bytes))
            == Some(unread@),
        None => source is Empty,
    }
}

/// A CAR file, or none, is received in the same way, whatever asks for it: it is refused if it is too large
/// or has no header, with an error that tells which, and else its blocks are to be read.
pub proof fn car_files_are_received_alike(
    root: Cid,
    car: Option<CarFile>,
    config: Config,
    received: Result<(Receiving, CarSource), Error>,
    requested: Result<(Receiving, CarSource), Error>,
    buffered: Result<(BufferedReceiving, CarSource), Error>,
    requested_buffered: Result<(BufferedReceiving, CarSource), Error>,
)
    requires
        call_ensures(block_receive, (root, car, &config), received),
        call_ensures(request, (root, car, &config), requested),
        call_ensures(block_receive_with_blocks, (root, car, &config), buffered),
        call_ensures(request_with_blocks, (root, car, &config), requested_buffered),
    ensures
        received is Err <==> is_refused(car, config),
        requested is Err <==> is_refused(car, config),
        buffered is Err <==> is_refused(car, config),
        requested_buffered is Err <==> is_refused(car, config),
        received matches Err(e) ==> tells_why(car, config, e),
        requested matches Err(e) ==> tells_why(car, config, e),
        buffered matches Err(e) ==> tells_why(car, config, e),
        requested_buffered matches Err(e) ==> tells_why(car, config, e),
        received matches Ok(r) ==> receive_begins(root, config, r.0) && is_to_be_read(car, r.1),
        requested matches Ok(r) ==> receive_begins(root, config, r.0) && is_to_be_read(car, r.1),
        buffered matches Ok(r) ==> buffered_receive_begins(root, config, r.0) && is_to_be_read(
            car,
            r.1,
        ),
        requested_buffered matches Ok(r) ==> buffered_receive_begins(root, config, r.0)
            && is_to_be_read(car, r.1),
{
}

/// A CAR file of any size is received as a stream, as long as it has a header.
pub proof fn car_streams_are_received_alike(
    root: Cid,
    car: CarFile,
    config: Config,
    received: Result<(Receiving, CarSource), Error>,
    buffered: Result<(BufferedReceiving, CarSource), Error>,
)
    requires
        call_ensures(block_receive_car_stream, (root, car, &config), received),
        call_ensures(block_receive_car_stream_with_blocks, (root, car, &config), buffered),
    ensures
        received is Err <==> car_after_header(bytes_of(car.bytes)) is None,
        buffered is Err <==> car_after_header(bytes_of(car.bytes)) is None,
        received matches Err(e) ==> e is CarFileError,
        buffered matches Err(e) ==> e is CarFileError,
        received matches Ok(r) ==> receive_begins(root, config, r.0) && is_to_be_read(
            Some(car),
            r.1,
        ),
        buffered matches Ok(r) ==> buffered_receive_begins(root, config, r.0) && is_to_be_read(
            Some(car),
            r.1,
        ),
        forall|blocks: Seq<(Cid, Bytes)>| #[trigger]
            is_car_of(car, blocks) ==> received is Ok && yields(received->Ok_0.1, blocks),
{
}

/// Each question is about the block that it says.
pub proof fn questions_say_what_they_ask(
    presence: PresenceQuestion,
    links: LinksQuestion,
    buffered_presence: BufferedPresenceQuestion,
    buffered_links: BufferedLinksQuestion,
    asked: (Cid, Cid, Cid, Cid),
)
    requires
        call_ensures(PresenceQuestion::cid, (&presence,), asked.0),
        call_ensures(LinksQuestion::cid, (&links,), asked.1),
        call_ensures(BufferedPresenceQuestion::cid, (&buffered_presence,), asked.2),
        call_ensures(BufferedLinksQuestion::cid, (&buffered_links,), asked.3),
    ensures
        asked.0 == presence.asks(),
        asked.1 == links.asks(),
        asked.2 == buffered_presence.question().asks(),
        asked.3 == buffered_links.question().asks(),
{
}

/// Each request is for what it says.
pub proof fn requests_say_what_they_want(
    store: StoreRequest,
    bloom: BloomRequest,
    buffered_bloom: BufferedBloomRequest,
    cid: Cid,
    block: &Bytes,
    capacity: u64,
    buffered_capacity: u64,
)
    requires
        call_ensures(StoreRequest::cid, (&store,), cid),
        call_ensures(StoreRequest::block, (&store,), block),
        call_ensures(BloomRequest::capacity, (&bloom,), capacity),
        call_ensures(BufferedBloomRequest::capacity, (&buffered_bloom,), buffered_capacity),
    ensures
        store.stores() == (cid, *block),
        capacity == bloom.holds(),
        buffered_capacity == buffered_bloom.request().holds(),
{
}

/// What was captured so far.
pub open spec fn captured_by(b: BufferedReceiving) -> Seq<(Cid, Bytes)> {
    match b {
        BufferedReceiving::IsPresent(q) => q.blocks(),
        BufferedReceiving::LinksOf(q) => q.blocks(),
        BufferedReceiving::NextBlock(q) => q.blocks(),
        BufferedReceiving::Bloom(q) => q.blocks(),
        BufferedReceiving::Done(_, blocks) => blocks@,
    }
}

/// A block that is wanted and fine is captured after all others. A block that is not wanted leaves what was
/// captured as it was. A block is refused exactly if it is too large, or if it is wanted but not fine, or
/// its links cannot be read.
pub proof fn wanted_blocks_are_captured(
    q: BufferedBlockQuestion,
    cid: Cid,
    block: Bytes,
    r: Result<BufferedReceiving, Error>,
)
    requires
        call_ensures(BufferedBlockQuestion::block, (q, cid, block), r),
    ensures
        ({
            let data = bytes_of(block);
            let code = cid.parts().hash_code;
            let wanted = q.question().dag().want.contains(cid);
            &&& r is Ok <==> data.len() <= q.question().terms().max_block_size && (wanted ==> {
                &&& hash_supported(code) && digest_of(code, data) == cid.parts().digest
                &&& block_links(cid.parts().codec, data) is Some
            })
            &&& r matches Ok(b) ==> {
                let now = captured_by(b);
                if wanted {
                    &&& now.len() == q.blocks().len() + 1
                    &&& now.drop_last() == q.blocks()
                    &&& now.last().0 == cid && bytes_of(now.last().1) == data
                } else {
                    now == q.blocks()
                }
            }
        }),
{
}

/// Whatever is answered leaves what was captured as it was, and in the end that is what comes out.
pub proof fn captured_blocks_come_out(
    presence: BufferedPresenceQuestion,
    present: bool,
    links: BufferedLinksQuestion,
    cids: Vec<Cid>,
    block: BufferedBlockQuestion,
    bloom: BufferedBloomRequest,
    empty_bloom: BloomFilter,
    after_presence: BufferedReceiving,
    after_links: BufferedReceiving,
    after_end: BufferedReceiving,
    out: (ReceiverState, Vec<(Cid, Bytes)>),
)
    requires
        call_ensures(BufferedPresenceQuestion::answer, (presence, present), after_presence),
        call_ensures(BufferedLinksQuestion::answer, (links, cids), after_links),
        call_ensures(BufferedBlockQuestion::end, (block,), after_end),
        call_ensures(BufferedBloomRequest::answer, (bloom, empty_bloom), out),
    ensures
        captured_by(after_presence) == presence.blocks(),
        captured_by(after_links) == links.blocks(),
        captured_by(after_end) == block.blocks(),
        out.1@ == bloom.blocks(),
{
}

/// Captured blocks can be asked for: a CID is there exactly if a block with it was captured, and its bytes
/// are those of the first such block.
pub proof fn captured_blocks_can_be_asked_for(
    blocks: BufferedBlocks,
    cid: Cid,
    has: bool,
    got: Option<Bytes>,
    out: Vec<(Cid, Bytes)>,
)
    requires
        call_ensures(BufferedBlocks::has_block, (&blocks, &cid), has),
        call_ensures(BufferedBlocks::get_block, (&blocks, &cid), got),
        call_ensures(BufferedBlocks::into_blocks, (blocks,), out),
    ensures
        has <==> got is Some,
        has <==> exists|i: int| 0 <= i < out@.len() && (#[trigger] out@[i]).0 == cid,
        got matches Some(bytes) ==> exists|i: int|
            0 <= i < out@.len() && (#[trigger] out@[i]).0 == cid && bytes_of(bytes) == bytes_of(
                out@[i].1,
            ) && forall|j: int| 0 <= j < i ==> (#[trigger] out@[j]).0 != cid,
{
}

/// Blocks are captured one after the other, and none is there at first.
pub proof fn blocks_are_captured_in_order(
    empty: BufferedBlocks,
    before: BufferedBlocks,
    after: BufferedBlocks,
    cid: Cid,
    bytes: Bytes,
)
    requires
        call_ensures(BufferedBlocks::new, (), empty),
        exists|blocks: &mut BufferedBlocks|
            *blocks == before && *final(blocks) == after && #[trigger] call_ensures(
                BufferedBlocks::put_block_keyed,
                (blocks, cid, bytes),
                (),
            ),
    ensures
        empty@.len() == 0,
        after@ == before@.push((cid, bytes)),
{
}

} // verus!
