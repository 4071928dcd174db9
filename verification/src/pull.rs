//! The pull protocol: the "client" requests blocks, and the "server" responds with them.

use crate::bloom::bloom_fits;
use crate::buffered::{block_receive_block_stream_with_blocks, block_receive_with_blocks, buffers, BufferedReceiving};
use crate::car::{CarFrames, LimitedCar, LimitedCarFrames};
use crate::cid::Cid;
use crate::common::{CarFile, Config};
use crate::error::Error;
use crate::messages::PullRequest;
use crate::receive::{block_receive, block_receive_block_stream, car_is_accepted, car_is_refused, is_car_of, receive_begins, yields, CarSource, Receiving};
use crate::payload::bytes_of;
use bytes::Bytes;
use crate::receiver_state::{bloom_off_wire, ReceiverState};
use crate::send::{block_send, block_send_block_stream, block_send_block_stream_pruning, send_begins, CarSink, SendPlan, Sending, SinkState};
use vstd::prelude::*;

verus! {

/// Create a CAR mirror pull request.
///
/// If this is the first request that's sent for this
/// particular root CID, then set `last_response` to `None`.
///
/// On subsequent requests, set `last_response` to the
/// last successfully received response.
///
/// The request is made of the receiver state that this leads to. Before actually sending it over the
/// network, make sure to check [`PullRequest::indicates_finished`].
/// If true, the "client" already has all data and the request
/// doesn't need to be sent.
pub fn request(root: Cid, last_response: Option<CarFile>, config: &Config) -> (r: Result<
    (Receiving, CarSource),
    Error,
>)
    ensures
        match r {
            Ok((receiving, source)) => receive_begins(root, *config, receiving) && car_is_accepted(last_response, *config, source),
            Err(e) => car_is_refused(last_response, *config, e),
        },
        forall|blocks: Seq<(Cid, Bytes)>|
            last_response is Some && #[trigger] is_car_of(last_response->0, blocks) && bytes_of(
                last_response->0.bytes,
            ).len() <= config.receive_maximum ==> r is Ok && yields(r->Ok_0.1, blocks),
{
    block_receive(root, last_response, config)
}

/// On the "client" side, handle a streaming response from a pull request.
///
/// This will accept blocks as long as they're useful to get the DAG under
/// `root`, verify them, and have them stored.
pub fn handle_response_streaming(root: Cid, config: &Config) -> (r: Receiving)
    ensures
        receive_begins(root, *config, r),
{
    block_receive_block_stream(root, config)
}

/// Like [`request`], but leads to the verified blocks instead of storing them, letting the caller
/// persist them in bulk.
pub fn request_with_blocks(root: Cid, last_response: Option<CarFile>, config: &Config) -> (r:
    Result<(BufferedReceiving, CarSource), Error>)
    ensures
        match r {
            Ok((buffered, source)) => {
                &&& exists|receiving: Receiving| #[trigger]
                    buffers(receiving, Seq::empty(), buffered) && receive_begins(root, *config, receiving)
                &&& car_is_accepted(last_response, *config, source)
            },
            Err(e) => car_is_refused(last_response, *config, e),
        },
        forall|blocks: Seq<(Cid, Bytes)>|
            last_response is Some && #[trigger] is_car_of(last_response->0, blocks) && bytes_of(
                last_response->0.bytes,
            ).len() <= config.receive_maximum ==> r is Ok && yields(r->Ok_0.1, blocks),
{
    block_receive_with_blocks(root, last_response, config)
}

/// Like [`handle_response_streaming`], but leads to the verified blocks instead of storing them.
///
/// See [`request_with_blocks`] for details.
pub fn handle_response_streaming_with_blocks(root: Cid, config: &Config) -> (r: BufferedReceiving)
    ensures
        exists|receiving: Receiving| #[trigger]
            buffers(receiving, Seq::empty(), r) && receive_begins(root, *config, receiving),
{
    block_receive_block_stream_with_blocks(root, config)
}

/// Whether a receiver state is what a request says.
pub open spec fn is_requested(request: PullRequest, state: ReceiverState) -> bool {
    &&& state.missing_subgraph_roots@ == request.resources@
    &&& state.skip_subgraph_roots@ == request.skip_subgraph_roots@
    &&& bloom_off_wire(request.bloom_hash_count, request.bloom_bytes@, state.have_cids_bloom)
}

/// Whether this is what is needed to begin to respond to a request.
pub open spec fn response_begins(
    root: Cid,
    request: PullRequest,
    prune_bloom_subgraphs: bool,
    r: Sending,
) -> bool {
    exists|state: ReceiverState, plan: SendPlan| #[trigger]
        is_requested(request, state) && #[trigger] plan.follows_from(
            Some(state),
            prune_bloom_subgraphs,
        ) && send_begins(root, request.resources@, plan, r)
}

/// Respond to a CAR mirror pull request on the "server" side.
pub fn response(root: Cid, request: PullRequest, config: &Config) -> (r: (Sending, CarSink))
    requires
        bloom_fits(request.bloom_bytes@),
    ensures
        response_begins(root, request, config.bloom_implies_complete_subgraphs, r.0),
        r.1@ == SinkState::empty(Some(config.receive_maximum)),
        r.1@.holds(Seq::empty()),
{
    let state = ReceiverState::from(request);
    let ghost given = state;
    let r = block_send(root, Some(state), config);
    proof {
        let plan = choose|plan: SendPlan| #[trigger]
            plan.follows_from(Some(given), config.bloom_implies_complete_subgraphs) && send_begins(
                root,
                request.resources@,
                plan,
                r.0,
            );
        assert(is_requested(request, given));
        assert(plan.follows_from(Some(given), config.bloom_implies_complete_subgraphs));
    }
    r
}

/// On the "server" side, respond to a pull request with a stream.
///
/// This can especially speed up cold pull requests.
pub fn response_streaming(root: Cid, request: PullRequest) -> (r: (Sending, CarFrames))
    requires
        bloom_fits(request.bloom_bytes@),
    ensures
        response_begins(root, request, false, r.0),
        !r.1.started(),
{
    let state = ReceiverState::from(request);
    let ghost given = state;
    let sending = block_send_block_stream(root, Some(state));
    proof {
        let plan = choose|plan: SendPlan| #[trigger]
            plan.follows_from(Some(given), false) && send_begins(
                root,
                request.resources@,
                plan,
                sending,
            );
        assert(is_requested(request, given));
        assert(plan.follows_from(Some(given), false));
    }
    (sending, CarFrames::new())
}

/// Like [`response_streaming`], but honors [`Config`]: applies bloom-based
/// subtree pruning (`bloom_implies_complete_subgraphs`) and caps the streamed
/// frames at `receive_maximum`, matching the semantics of the buffered
/// [`response`] exactly: both hold the same blocks, and end at the same one. But
/// frames are handed out as the walk yields blocks instead of the whole CAR file
/// at the end.
pub fn response_streaming_with_config(root: Cid, request: PullRequest, config: &Config) -> (r: (
    Sending,
    LimitedCarFrames,
))
    requires
        bloom_fits(request.bloom_bytes@),
    ensures
        response_begins(root, request, config.bloom_implies_complete_subgraphs, r.0),
        r.1@ == LimitedCar::empty(Some(config.receive_maximum)),
{
    let state = ReceiverState::from(request);
    let ghost given = state;
    let sending = block_send_block_stream_pruning(
        root,
        Some(state),
        config.bloom_implies_complete_subgraphs,
    );
    proof {
        let plan = choose|plan: SendPlan| #[trigger]
            plan.follows_from(Some(given), config.bloom_implies_complete_subgraphs) && send_begins(
                root,
                request.resources@,
                plan,
                sending,
            );
        assert(is_requested(request, given));
        assert(plan.follows_from(Some(given), config.bloom_implies_complete_subgraphs));
    }
    (sending, LimitedCarFrames::new(Some(config.receive_maximum)))
}

} // verus!
