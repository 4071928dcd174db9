//! Blocks in CAR files, one at a time: what is framed, and what is read back.

use crate::car::{
    all_bytes, all_readable, car_after_header, car_file_of, car_first_block, car_frame, car_header,
    counted, frame_of, frame_readable, frames_follow_each_other, frames_of,
    read_car_blocks, rest_after, some_bytes, CarBlocks, CarFrames, CarWriting, LimitedCarFrames,
};
use crate::cid::Cid;
use crate::common::{CarFile, Config};
use crate::error::Error;
use crate::messages::PullRequest;
use crate::payload::bytes_of;
use crate::pull::{response, response_streaming, response_streaming_with_config};
use crate::receive::{
    block_receive, block_receive_car_stream, is_car_of, yields, CarSource, Receiving,
};
use crate::receiver_state::ReceiverState;
use crate::send::{
    block_send, block_send_car_stream, sink_holds_what_it_took_in, CarSink, Sending, Sent,
};
use bytes::Bytes;
use vstd::prelude::*;

verus! {

/// The frames of some blocks, one after the other.
pub open spec fn joined_frames(blocks: Seq<(Cid, Bytes)>) -> Seq<u8>
    decreases blocks.len(),
{
    if blocks.len() == 0 {
        Seq::empty()
    } else {
        car_frame(blocks[0].0.parts(), bytes_of(blocks[0].1)) + joined_frames(blocks.drop_first())
    }
}

/// The CAR file of some blocks is a header that names the first one, and then the frame of each. Of no
/// blocks there is nothing.
pub proof fn files_are_a_header_and_frames(blocks: Seq<(Cid, Bytes)>)
    ensures
        frames_of(blocks).flatten() == joined_frames(blocks),
        car_file_of(blocks) == (if blocks.len() == 0 {
            Seq::empty()
        } else {
            car_header(blocks[0].0.parts()) + joined_frames(blocks)
        }),
    decreases blocks.len(),
{
    if blocks.len() == 0 {
        assert(frames_of(blocks).flatten() =~= Seq::<u8>::empty());
    } else {
        frames_follow_each_other(blocks);
        files_are_a_header_and_frames(blocks.drop_first());
    }
}

/// Whether a block has room in a CAR file after some others. The first one always has. Without a limit
/// any has. With a limit the file with the block has to keep to it.
pub open spec fn still_fits(
    size_limit: Option<usize>,
    blocks: Seq<(Cid, Bytes)>,
    block: (Cid, Bytes),
) -> bool {
    blocks.len() > 0 ==> (size_limit matches Some(limit) ==> car_file_of(blocks.push(block)).len()
        <= limit)
}

proof fn lemma_one_more(blocks: Seq<(Cid, Bytes)>, block: (Cid, Bytes))
    ensures
        car_file_of(blocks.push(block)) == car_file_of(blocks) + (if blocks.len() == 0 {
            car_header(block.0.parts()) + frame_of(block)
        } else {
            frame_of(block)
        }),
{
    let all = blocks.push(block);
    assert(frames_of(all) =~= frames_of(blocks).push(frame_of(block)));
    frames_of(blocks).lemma_flatten_push(frame_of(block));
    if blocks.len() == 0 {
        assert(frames_of(blocks).flatten() =~= Seq::<u8>::empty());
        assert(all[0] == block);
    } else {
        assert(all[0] == blocks[0]);
    }
    assert(car_file_of(all) =~= car_file_of(blocks) + (if blocks.len() == 0 {
        car_header(block.0.parts()) + frame_of(block)
    } else {
        frame_of(block)
    }));
}

/// Whether a CAR file in memory has taken in the given blocks.
pub open spec fn sink_has(
    sink: CarSink,
    size_limit: Option<usize>,
    blocks: Seq<(Cid, Bytes)>,
) -> bool {
    sink@.holds(blocks) && sink@.progress.size_limit == size_limit
}

/// A CAR file in memory has taken in nothing at first.
pub proof fn sinks_begin_empty(size_limit: Option<usize>, r: CarSink)
    requires
        call_ensures(CarSink::new, (size_limit,), r),
    ensures
        sink_has(r, size_limit, Seq::empty()),
{
}

/// A CAR file in memory takes in each block that has room after those it has, and then sending goes
/// on. A block without room is the end, and leaves the file as it was. What is not sent leaves it too.
pub proof fn sinks_take_in_what_fits(
    before: CarSink,
    after: CarSink,
    size_limit: Option<usize>,
    blocks: Seq<(Cid, Bytes)>,
    sent: Sent,
    r: Result<Sending, Error>,
)
    requires
        sink_has(before, size_limit, blocks),
        exists|sink: &mut CarSink|
            *sink == before && *final(sink) == after && #[trigger] call_ensures(
                CarSink::accept,
                (sink, sent),
                r,
            ),
    ensures
        r is Ok,
        match sent.block {
            None => sink_has(after, size_limit, blocks) && r->Ok_0 == sent.next,
            Some(block) => if still_fits(size_limit, blocks, block) {
                sink_has(after, size_limit, blocks.push(block)) && r->Ok_0 == sent.next
            } else {
                sink_has(after, size_limit, blocks) && r->Ok_0 is Done
            },
        },
{
    match sent.block {
        Some(block) => {
            lemma_one_more(blocks, block);
            if before@.has_room(block) {
                sink_holds_what_it_took_in(before@, blocks, block);
            }
        },
        None => {},
    }
}

/// In the end there is the CAR file of what was taken in.
pub proof fn sinks_end_as_car_files(
    sink: CarSink,
    size_limit: Option<usize>,
    blocks: Seq<(Cid, Bytes)>,
    r: CarFile,
)
    requires
        sink_has(sink, size_limit, blocks),
        call_ensures(CarSink::finish, (sink,), r),
    ensures
        bytes_of(r.bytes) == car_file_of(blocks),
{
}

/// Whether a CAR stream of limited size has taken in the given blocks: what it has handed out and what
/// it still buffers is their CAR file.
pub open spec fn stream_has(
    stream: LimitedCarFrames,
    size_limit: Option<usize>,
    handed_out: Seq<u8>,
    blocks: Seq<(Cid, Bytes)>,
) -> bool {
    &&& handed_out + stream@.buffered == car_file_of(blocks)
    &&& stream@.started == (blocks.len() > 0)
    &&& stream@.emitted == counted(car_file_of(blocks).len() as int)
    &&& stream@.size_limit == size_limit
    &&& blocks.len() == 0 ==> stream@.buffered.len() == 0
}

/// What is handed out together with one more chunk, if there is one.
pub open spec fn with_more(handed_out: Seq<u8>, chunk: Option<Bytes>) -> Seq<u8> {
    match chunk {
        Some(chunk) => handed_out + bytes_of(chunk),
        None => handed_out,
    }
}

/// A CAR stream has taken in nothing at first.
pub proof fn streams_begin_empty(size_limit: Option<usize>, r: LimitedCarFrames)
    requires
        call_ensures(LimitedCarFrames::new, (size_limit,), r),
    ensures
        stream_has(r, size_limit, Seq::empty(), Seq::empty()),
{
    assert(Seq::<u8>::empty() + Seq::<u8>::empty() =~= Seq::<u8>::empty());
}

/// A CAR stream takes in each block that has room after those it has, and says so. A block without room
/// leaves the stream as it was. A chunk is handed out once it is large enough, but not before the second
/// block.
pub proof fn streams_take_in_what_fits(
    before: LimitedCarFrames,
    after: LimitedCarFrames,
    size_limit: Option<usize>,
    handed_out: Seq<u8>,
    blocks: Seq<(Cid, Bytes)>,
    block: (Cid, Bytes),
    r: Result<(bool, Option<Bytes>), Error>,
)
    requires
        stream_has(before, size_limit, handed_out, blocks),
        exists|stream: &mut LimitedCarFrames|
            *stream == before && *final(stream) == after && #[trigger] call_ensures(
                LimitedCarFrames::add_block,
                (stream, block.0, &block.1),
                r,
            ),
    ensures
        r matches Ok((accepted, chunk)) && {
            &&& accepted <==> still_fits(size_limit, blocks, block)
            &&& accepted ==> stream_has(
                after,
                size_limit,
                with_more(handed_out, chunk),
                blocks.push(block),
            )
            &&& !accepted ==> chunk is None && stream_has(after, size_limit, handed_out, blocks)
            &&& chunk is Some ==> blocks.len() > 0 && bytes_of(chunk->0).len() >= 65536
                && after@.buffered.len() == 0
            &&& chunk is None && accepted && blocks.len() > 0 ==> after@.buffered.len() < 65536
        },
{
    lemma_one_more(blocks, block);
    let (parts, data) = (block.0.parts(), bytes_of(block.1));
    if before@.accepts(parts, data) {
        let all = blocks.push(block);
        let chunk = r->Ok_0.1;
        assert(with_more(handed_out, chunk) + after@.buffered =~= car_file_of(all));
    }
}

/// What is sent goes through the CAR stream in the same way, and sending goes on unless a block has no
/// room.
pub proof fn streams_accept_what_fits(
    before: LimitedCarFrames,
    after: LimitedCarFrames,
    size_limit: Option<usize>,
    handed_out: Seq<u8>,
    blocks: Seq<(Cid, Bytes)>,
    sent: Sent,
    r: Result<(Option<Bytes>, Sending), Error>,
)
    requires
        stream_has(before, size_limit, handed_out, blocks),
        exists|stream: &mut LimitedCarFrames|
            *stream == before && *final(stream) == after && #[trigger] call_ensures(
                LimitedCarFrames::accept,
                (stream, sent),
                r,
            ),
    ensures
        r matches Ok((chunk, next)) && match sent.block {
            None => {
                &&& chunk is None && next == sent.next
                &&& stream_has(after, size_limit, handed_out, blocks)
            },
            Some(block) => if still_fits(size_limit, blocks, block) {
                &&& next == sent.next
                &&& stream_has(
                    after,
                    size_limit,
                    with_more(handed_out, chunk),
                    blocks.push(block),
                )
                &&& chunk is Some <==> blocks.len() > 0 && before@.buffered.len() + frame_of(
                    block,
                ).len() >= 65536
                &&& chunk is Some ==> after@.buffered.len() == 0
            } else {
                &&& chunk is None && next is Done
                &&& stream_has(after, size_limit, handed_out, blocks)
            },
        },
{
    match sent.block {
        Some(block) => {
            lemma_one_more(blocks, block);
            let (parts, data) = (block.0.parts(), bytes_of(block.1));
            if before@.accepts(parts, data) {
                let chunk = r->Ok_0.0;
                assert(with_more(handed_out, chunk) + after@.buffered =~= car_file_of(
                    blocks.push(block),
                ));
            }
        },
        None => {},
    }
}

/// In the end all of the CAR file is handed out, and there is no empty chunk.
pub proof fn streams_end_as_car_files(
    stream: LimitedCarFrames,
    size_limit: Option<usize>,
    handed_out: Seq<u8>,
    blocks: Seq<(Cid, Bytes)>,
    r: Option<Bytes>,
)
    requires
        stream_has(stream, size_limit, handed_out, blocks),
        call_ensures(LimitedCarFrames::finish, (stream,), r),
    ensures
        with_more(handed_out, r) == car_file_of(blocks),
        r matches Some(chunk) ==> bytes_of(chunk).len() > 0,
{
    if r is None {
        assert(some_bytes(r) is None);
        assert(handed_out + stream@.buffered =~= handed_out);
    } else {
        assert(some_bytes(r) == Some(bytes_of(r->0)));
    }
}

/// Whether what was handed out of a CAR file without a limit is the CAR file of the given blocks.
pub open spec fn frames_have(
    frames: CarFrames,
    handed_out: Seq<u8>,
    blocks: Seq<(Cid, Bytes)>,
) -> bool {
    handed_out == car_file_of(blocks) && frames.started() == (blocks.len() > 0)
}

/// A CAR file without a limit has handed out nothing at first.
pub proof fn frames_begin_empty(r: CarFrames)
    requires
        call_ensures(CarFrames::new, (), r),
    ensures
        frames_have(r, Seq::empty(), Seq::empty()),
{
}

proof fn lemma_sections(sections: Seq<Seq<u8>>, first: Seq<u8>, second: Seq<u8>)
    ensures
        sections == seq![first] ==> sections.flatten() == first,
        sections == seq![first, second] ==> sections.flatten() == first + second,
{
    reveal_with_fuel(Seq::flatten, 3);
    if sections == seq![first] {
        assert(sections.drop_first() =~= Seq::<Seq<u8>>::empty());
        assert(sections.flatten() =~= first);
    }
    if sections == seq![first, second] {
        assert(sections.drop_first() =~= seq![second]);
        assert(seq![second].drop_first() =~= Seq::<Seq<u8>>::empty());
        assert(seq![second].flatten() =~= second);
        assert(sections.flatten() =~= first + second);
    }
}

/// Each block is framed at once, in a section of its own.
pub proof fn blocks_are_framed_at_once(
    before: CarFrames,
    after: CarFrames,
    handed_out: Seq<u8>,
    blocks: Seq<(Cid, Bytes)>,
    block: (Cid, Bytes),
    r: Result<Vec<Bytes>, Error>,
)
    requires
        frames_have(before, handed_out, blocks),
        exists|frames: &mut CarFrames|
            *frames == before && *final(frames) == after && #[trigger] call_ensures(
                CarFrames::add_block,
                (frames, block.0, &block.1),
                r,
            ),
    ensures
        r matches Ok(sections) && {
            &&& frames_have(
                after,
                handed_out + all_bytes(sections@).flatten(),
                blocks.push(block),
            )
            &&& sections@.len() == (if blocks.len() == 0 {
                2int
            } else {
                1
            })
            &&& bytes_of(sections@.last()) == frame_of(block)
        },
{
    lemma_one_more(blocks, block);
    let sections = all_bytes(r->Ok_0@);
    assert(sections.last() == bytes_of(r->Ok_0@.last()));
    if blocks.len() == 0 {
        lemma_sections(sections, car_header(block.0.parts()), frame_of(block));
    } else {
        lemma_sections(sections, frame_of(block), Seq::empty());
    }
}

/// What is sent is framed at once, and sending always goes on.
pub proof fn frames_accept_all(
    before: CarFrames,
    after: CarFrames,
    handed_out: Seq<u8>,
    blocks: Seq<(Cid, Bytes)>,
    sent: Sent,
    r: Result<(Vec<Bytes>, Sending), Error>,
)
    requires
        frames_have(before, handed_out, blocks),
        exists|frames: &mut CarFrames|
            *frames == before && *final(frames) == after && #[trigger] call_ensures(
                CarFrames::accept,
                (frames, sent),
                r,
            ),
    ensures
        r matches Ok((sections, next)) && {
            &&& next == sent.next
            &&& frames_have(
                after,
                handed_out + all_bytes(sections@).flatten(),
                match sent.block {
                    Some(block) => blocks.push(block),
                    None => blocks,
                },
            )
        },
{
    let sections = all_bytes(r->Ok_0.0@);
    match sent.block {
        Some(block) => {
            lemma_one_more(blocks, block);
            if blocks.len() == 0 {
                lemma_sections(sections, car_header(block.0.parts()), frame_of(block));
            } else {
                lemma_sections(sections, frame_of(block), Seq::empty());
            }
        },
        None => {
            assert(sections.flatten() =~= Seq::<u8>::empty());
            assert(handed_out + sections.flatten() =~= handed_out);
        },
    }
}

/// Whether what was written of a CAR file in the making is the CAR file of the given blocks.
pub open spec fn writing_has(
    writing: CarWriting,
    size_limit: Option<usize>,
    written: Seq<u8>,
    blocks: Seq<(Cid, Bytes)>,
) -> bool {
    &&& written == car_file_of(blocks)
    &&& writing@.started == (blocks.len() > 0)
    &&& writing@.written == counted(written.len() as int)
    &&& writing@.size_limit == size_limit
}

/// Nothing is written of a CAR file at first.
pub proof fn writing_begins_empty(size_limit: Option<usize>, r: CarWriting)
    requires
        call_ensures(CarWriting::new, (size_limit,), r),
    ensures
        writing_has(r, size_limit, Seq::empty(), Seq::empty()),
{
}

/// A block is to be written exactly if it has room after those that are written, and then what is to be
/// written makes the CAR file of all of them.
pub proof fn what_fits_is_written(
    before: CarWriting,
    after: CarWriting,
    size_limit: Option<usize>,
    written: Seq<u8>,
    blocks: Seq<(Cid, Bytes)>,
    block: (Cid, Bytes),
    r: Result<Option<Bytes>, Error>,
)
    requires
        writing_has(before, size_limit, written, blocks),
        exists|writing: &mut CarWriting|
            *writing == before && *final(writing) == after && #[trigger] call_ensures(
                CarWriting::add_block,
                (writing, block.0, &block.1),
                r,
            ),
    ensures
        r matches Ok(more) && {
            &&& more is Some <==> still_fits(size_limit, blocks, block)
            &&& more is Some ==> writing_has(
                after,
                size_limit,
                written + bytes_of(more->0),
                blocks.push(block),
            )
            &&& more is None ==> writing_has(after, size_limit, written, blocks)
        },
{
    lemma_one_more(blocks, block);
    assert(some_bytes(r->Ok_0) == before@.addition(block.0.parts(), bytes_of(block.1)));
    match r->Ok_0 {
        Some(more) => {
            assert(some_bytes(r->Ok_0) == Some(bytes_of(more)));
        },
        None => {},
    }
}

/// Whatever sends blocks as a CAR file begins with an empty one, of the size that was settled on.
pub proof fn sending_begins_with_empty_files(
    root: Cid,
    last_state: Option<ReceiverState>,
    request: PullRequest,
    config: Config,
    send_limit: Option<usize>,
    prune_bloom_subgraphs: bool,
    sent: (Sending, CarSink),
    written: (Sending, CarWriting),
    responded: (Sending, CarSink),
    streamed: (Sending, CarFrames),
    streamed_within: (Sending, LimitedCarFrames),
)
    requires
        call_ensures(block_send, (root, last_state, &config), sent),
        call_ensures(
            block_send_car_stream,
            (root, last_state, send_limit, prune_bloom_subgraphs),
            written,
        ),
        call_ensures(response, (root, request, &config), responded),
        call_ensures(response_streaming, (root, request), streamed),
        call_ensures(response_streaming_with_config, (root, request, &config), streamed_within),
    ensures
        sink_has(sent.1, Some(config.receive_maximum), Seq::empty()),
        writing_has(written.1, send_limit, Seq::empty(), Seq::empty()),
        sink_has(responded.1, Some(config.receive_maximum), Seq::empty()),
        frames_have(streamed.1, Seq::empty(), Seq::empty()),
        stream_has(
            streamed_within.1,
            Some(config.receive_maximum),
            Seq::empty(),
            Seq::empty(),
        ),
{
    assert(Seq::<u8>::empty() + Seq::<u8>::empty() =~= Seq::<u8>::empty());
}

/// Whether the given blocks are what is left to be read of a CAR file.
pub open spec fn left_to_read(reader: CarBlocks, blocks: Seq<(Cid, Bytes)>) -> bool {
    reader@ == frames_of(blocks).flatten()
}

/// The CAR file of some blocks is opened, and they are what is to be read.
pub proof fn car_files_are_opened(
    car: CarFile,
    blocks: Seq<(Cid, Bytes)>,
    r: Result<CarBlocks, Error>,
)
    requires
        is_car_of(car, blocks),
        call_ensures(CarBlocks::new, (car,), r),
    ensures
        r is Ok && left_to_read(r->Ok_0, blocks),
{
    Cid::stored_is_valid(blocks[0].0);
    assert(bytes_of(car.bytes) == car_header(blocks[0].0.parts()) + frames_of(blocks).flatten());
}

/// Blocks are read one after the other, and none is left out or made up.
pub proof fn blocks_are_read_in_order(
    before: CarBlocks,
    after: CarBlocks,
    blocks: Seq<(Cid, Bytes)>,
    r: Result<Option<(Cid, Bytes)>, Error>,
)
    requires
        left_to_read(before, blocks),
        all_readable(blocks),
        exists|reader: &mut CarBlocks|
            *reader == before && *final(reader) == after && #[trigger] call_ensures(
                CarBlocks::next_block,
                (reader,),
                r,
            ),
    ensures
        r is Ok,
        blocks.len() == 0 ==> r->Ok_0 is None,
        blocks.len() > 0 ==> {
            &&& r->Ok_0 matches Some(block) && block.0 == blocks[0].0 && bytes_of(block.1)
                == bytes_of(blocks[0].1)
            &&& left_to_read(after, blocks.drop_first())
        },
{
    if blocks.len() == 0 {
        assert(frames_of(blocks).flatten() =~= Seq::<u8>::empty());
    } else {
        frames_follow_each_other(blocks);
        assert(blocks[0].0.stored() && frame_readable(
            blocks[0].0.parts(),
            bytes_of(blocks[0].1),
        ));
        let rest = frames_of(blocks.drop_first()).flatten();
        assert(before@ == car_frame(blocks[0].0.parts(), bytes_of(blocks[0].1)) + rest);
        let read = r->Ok_0->0;
        Cid::parts_identify(read.0, blocks[0].0);
    }
}

/// The blocks of the CAR file that was received are read one after the other too. Without a CAR file
/// there are none.
pub proof fn received_blocks_are_read_in_order(
    before: CarSource,
    after: CarSource,
    blocks: Seq<(Cid, Bytes)>,
    r: Result<Option<(Cid, Bytes)>, Error>,
)
    requires
        exists|source: &mut CarSource|
            *source == before && *final(source) == after && #[trigger] call_ensures(
                CarSource::next_block,
                (source,),
                r,
            ),
    ensures
        before is Empty ==> r is Ok && r->Ok_0 is None && after is Empty,
        yields(before, blocks) && all_readable(blocks) && blocks.len() == 0 ==> r is Ok
            && r->Ok_0 is None,
        yields(before, blocks) && all_readable(blocks) && blocks.len() > 0 ==> {
            &&& r is Ok
            &&& r->Ok_0 matches Some(block) && block.0 == blocks[0].0 && bytes_of(block.1)
                == bytes_of(blocks[0].1)
            &&& yields(after, blocks.drop_first())
        },
{
    if yields(before, blocks) && all_readable(blocks) {
        if blocks.len() == 0 {
            assert(frames_of(blocks).flatten() =~= Seq::<u8>::empty());
        } else {
            frames_follow_each_other(blocks);
            assert(blocks[0].0.stored() && frame_readable(
                blocks[0].0.parts(),
                bytes_of(blocks[0].1),
            ));
            let rest = frames_of(blocks.drop_first()).flatten();
            assert(before->Car_0@ == car_frame(blocks[0].0.parts(), bytes_of(blocks[0].1)) + rest);
            let read = r->Ok_0->0;
            Cid::parts_identify(read.0, blocks[0].0);
        }
    }
}

/// A CAR file of any size is received as a stream. One that is received as a whole must not be larger
/// than what is settled on. Without one there is nothing to be read.
pub proof fn received_car_files_are_opened(
    root: Cid,
    car: CarFile,
    config: Config,
    blocks: Seq<(Cid, Bytes)>,
    streamed: Result<(Receiving, CarSource), Error>,
    received: Result<(Receiving, CarSource), Error>,
    without: Result<(Receiving, CarSource), Error>,
)
    requires
        is_car_of(car, blocks),
        call_ensures(block_receive_car_stream, (root, car, &config), streamed),
        call_ensures(block_receive, (root, Some(car), &config), received),
        call_ensures(block_receive, (root, None::<CarFile>, &config), without),
    ensures
        streamed is Ok && yields(streamed->Ok_0.1, blocks),
        received is Ok <==> bytes_of(car.bytes).len() <= config.receive_maximum,
        received is Ok ==> yields(received->Ok_0.1, blocks),
        without is Ok && without->Ok_0.1 is Empty,
{
}

/// What is not a frame is an error, and what is none is the end: as the outside reader says.
pub proof fn malformed_frames_are_errors(
    before: CarBlocks,
    after: CarBlocks,
    r: Result<Option<(Cid, Bytes)>, Error>,
    source: CarSource,
    later: CarSource,
    s: Result<Option<(Cid, Bytes)>, Error>,
)
    requires
        exists|reader: &mut CarBlocks|
            *reader == before && *final(reader) == after && #[trigger] call_ensures(
                CarBlocks::next_block,
                (reader,),
                r,
            ),
        exists|from: &mut CarSource|
            *from == source && *final(from) == later && #[trigger] call_ensures(
                CarSource::next_block,
                (from,),
                s,
            ),
    ensures
        r is Err <==> car_first_block(before@) is None,
        r is Ok && r->Ok_0 is None <==> car_first_block(before@) is Some && car_first_block(
            before@,
        )->0 is None,
        r is Ok && r->Ok_0 is Some ==> ({
            let (parts, data, rest) = car_first_block(before@)->0->0;
            let block = r->Ok_0->0;
            block.0.parts() == parts && bytes_of(block.1) == data && after@ == rest
        }),
        source is Car ==> (s is Err <==> car_first_block(source->Car_0@) is None),
        source is Car ==> (s is Ok && s->Ok_0 is None <==> car_first_block(source->Car_0@) is Some
            && car_first_block(source->Car_0@)->0 is None),
{
}

/// What has no header is not opened: as the outside reader says.
pub proof fn files_without_header_are_not_opened(car: CarFile, r: Result<CarBlocks, Error>)
    requires
        call_ensures(CarBlocks::new, (car,), r),
    ensures
        r is Err <==> car_after_header(bytes_of(car.bytes)) is None,
        r matches Ok(blocks) ==> car_after_header(bytes_of(car.bytes)) == Some(blocks@),
        r matches Err(e) ==> e is CarFileError,
{
}

/// A CAR file is read to its end, or not at all: if it has no header, or something in it is not a frame.
pub proof fn files_are_read_to_the_end(
    car: CarFile,
    r: Result<Vec<(Cid, Bytes)>, Error>,
    n: nat,
)
    requires
        call_ensures(read_car_blocks, (car,), r),
    ensures
        car_after_header(bytes_of(car.bytes)) is None ==> r is Err,
        r matches Ok(all) ==> ({
            let unread = car_after_header(bytes_of(car.bytes))->0;
            &&& car_first_block(rest_after(unread, all@.len())) is Some
            &&& car_first_block(rest_after(unread, all@.len()))->0 is None
            &&& n < all@.len() ==> ({
                let first = car_first_block(rest_after(unread, n))->0->0;
                &&& first.0 == all@[n as int].0.parts()
                &&& first.1 == bytes_of(all@[n as int].1)
                &&& first.2 == rest_after(unread, n + 1)
            })
        }),
        r matches Err(e) ==> e is CarFileError,
{
    match r {
        Ok(all) => {
            if n < all@.len() {
                let i = n as int;
                let unread = car_after_header(bytes_of(car.bytes))->0;
                assert(car_first_block(rest_after(unread, i as nat)) is Some);
            }
        },
        Err(_) => {},
    }
}

} // verus!
