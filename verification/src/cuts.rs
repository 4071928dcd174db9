//! Where CAR files and CAR streams of limited size are cut.

use crate::car::{
    all_bytes, all_chunks, all_readable, car_file_keeps_to_its_limit, car_file_of,
    car_files_start_with_the_first_block, car_frame_from_block, car_header, car_header_for,
    car_prefix, chunked, chunks_are_large, chunks_of, files_and_streams_are_cut_alike, frame_of,
    frame_readable, frames_of, read_car_blocks, same_blocks, stream_accepts, stream_car_frames,
    stream_car_frames_limited, stream_prefix, write_blocks_into_car, LimitedCar,
    CAR_STREAM_CHUNK_SIZE,
};
use crate::cid::Cid;
use crate::common::{CarFile, Config};
use crate::error::Error;
use crate::payload::bytes_of;
use crate::receive::{block_receive, is_car_of, yields, CarSource, Receiving};
use crate::send::{
    responses_are_car_files, sink_run, stream_run, streamed_responses_are_car_files, SinkState,
};
use bytes::Bytes;
use vstd::prelude::*;

verus! {

/// Whether just the first `n` of some blocks go into a CAR file of limited size. The first one always
/// does. Without a limit all do. With a limit one more would go over it, and if there are several,
/// these do not.
pub open spec fn just_fit(blocks: Seq<(Cid, Bytes)>, size_limit: Option<usize>, n: int) -> bool {
    &&& 0 <= n <= blocks.len()
    &&& blocks.len() > 0 ==> n > 0
    &&& match size_limit {
        None => n == blocks.len(),
        Some(limit) => {
            &&& n < blocks.len() ==> car_file_of(blocks.take(n + 1)).len() > limit
            &&& n > 1 ==> car_file_of(blocks.take(n)).len() <= limit
        },
    }
}

proof fn lemma_longer_files(blocks: Seq<(Cid, Bytes)>, n: int)
    requires
        0 < n < blocks.len(),
    ensures
        car_file_of(blocks.take(n + 1)).len() == car_file_of(blocks.take(n)).len() + frame_of(
            blocks[n],
        ).len(),
{
    let before = blocks.take(n);
    let after = blocks.take(n + 1);
    assert(frames_of(after) =~= frames_of(before).push(frame_of(blocks[n])));
    frames_of(before).lemma_flatten_push(frame_of(blocks[n]));
    assert(after[0] == before[0]);
}

proof fn lemma_files_grow(blocks: Seq<(Cid, Bytes)>, m: int, n: int)
    requires
        0 < m <= n <= blocks.len(),
    ensures
        car_file_of(blocks.take(m)).len() <= car_file_of(blocks.take(n)).len(),
    decreases n - m,
{
    if m < n {
        lemma_files_grow(blocks, m, n - 1);
        lemma_longer_files(blocks, n - 1);
    }
}

/// There is only one way to cut blocks.
pub proof fn cuts_are_unique(
    blocks: Seq<(Cid, Bytes)>,
    size_limit: Option<usize>,
    m: int,
    n: int,
)
    requires
        just_fit(blocks, size_limit, m),
        just_fit(blocks, size_limit, n),
    ensures
        m == n,
{
    if m < n && size_limit is Some {
        lemma_files_grow(blocks, m + 1, n);
    }
    if n < m && size_limit is Some {
        lemma_files_grow(blocks, n + 1, m);
    }
}

proof fn lemma_accepts_as_many_as_fit(size_limit: Option<usize>, emitted: int, frames: Seq<Seq<u8>>)
    ensures
        ({
            let n = stream_accepts(size_limit, emitted, frames) as int;
            &&& n <= frames.len()
            &&& n < frames.len() ==> size_limit is Some && emitted + frames.take(
                n + 1,
            ).flatten().len() > size_limit->0
        }),
    decreases frames.len(),
{
    let n = stream_accepts(size_limit, emitted, frames) as int;
    if frames.len() > 0 {
        let rest = frames.drop_first();
        lemma_accepts_as_many_as_fit(size_limit, emitted + frames[0].len(), rest);
        if n == 0 {
            assert(frames.take(1) =~= seq![frames[0]]);
            assert(frames.take(1).drop_first() =~= Seq::<Seq<u8>>::empty());
            assert(frames.take(1).first() == frames[0]);
            assert(Seq::<Seq<u8>>::empty().flatten() =~= Seq::<u8>::empty());
        } else if n < frames.len() {
            assert(frames.take(n + 1).drop_first() =~= rest.take(n));
            assert(frames.take(n + 1).first() == frames[0]);
        }
    }
}

/// CAR files and CAR streams are cut as late as possible: all blocks go in that there is room for.
pub proof fn cuts_are_as_late_as_possible(blocks: Seq<(Cid, Bytes)>, size_limit: Option<usize>)
    ensures
        car_prefix(blocks, size_limit) == blocks.take(car_prefix(blocks, size_limit).len() as int),
        just_fit(blocks, size_limit, car_prefix(blocks, size_limit).len() as int),
        stream_prefix(blocks, size_limit) == blocks.take(
            stream_prefix(blocks, size_limit).len() as int,
        ),
        just_fit(blocks, size_limit, stream_prefix(blocks, size_limit).len() as int),
{
    files_and_streams_are_cut_alike(blocks, size_limit);
    car_files_start_with_the_first_block(blocks, size_limit);
    let n = car_prefix(blocks, size_limit).len() as int;
    if blocks.len() > 0 {
        let header = car_header(blocks[0].0.parts());
        let start = header + frame_of(blocks[0]);
        let rest = frames_of(blocks).drop_first();
        lemma_accepts_as_many_as_fit(size_limit, start.len() as int, rest);
        if n < blocks.len() {
            let more = blocks.take(n + 1);
            assert(frames_of(more).first() == frame_of(blocks[0]));
            assert(frames_of(more).drop_first() =~= rest.take(n));
        }
        match size_limit {
            Some(limit) => {
                car_file_keeps_to_its_limit(blocks, limit);
            },
            None => {},
        }
    }
}

/// What is written of some blocks into a CAR file of limited size, after what was written before: as
/// many of them as there is room for.
pub proof fn written_files_are_cut_late(
    write: Vec<u8>,
    blocks: &[(Cid, Bytes)],
    size_limit: Option<usize>,
    n: int,
    r: Result<Vec<u8>, Error>,
)
    requires
        call_ensures(write_blocks_into_car, (write, blocks, size_limit), r),
        just_fit(blocks@, size_limit, n),
    ensures
        r matches Ok(bytes) && bytes@ == write@ + car_file_of(blocks@.take(n)),
{
    cuts_are_as_late_as_possible(blocks@, size_limit);
    cuts_are_unique(blocks@, size_limit, n, car_prefix(blocks@, size_limit).len() as int);
}

/// The chunks that are streamed of some blocks within a limit join to the CAR file of as many of them
/// as there is room for. None is empty, and all but the last one are large.
pub proof fn limited_streams_are_cut_late(
    blocks: &[(Cid, Bytes)],
    size_limit: Option<usize>,
    n: int,
    r: Result<Vec<Bytes>, Error>,
)
    requires
        call_ensures(stream_car_frames_limited, (blocks, size_limit), r),
        just_fit(blocks@, size_limit, n),
    ensures
        r matches Ok(chunks) && {
            &&& all_bytes(chunks@).flatten() == car_file_of(blocks@.take(n))
            &&& forall|i: int|
                0 <= i < chunks.len() ==> bytes_of(#[trigger] chunks[i]).len() > 0 && (i
                    < chunks.len() - 1 ==> bytes_of(chunks[i]).len() >= 65536)
        },
{
    cuts_are_as_late_as_possible(blocks@, size_limit);
    cuts_are_unique(blocks@, size_limit, n, stream_prefix(blocks@, size_limit).len() as int);
    let chunks = r->Ok_0;
    let prefix = stream_prefix(blocks@, size_limit);
    assert forall|i: int| 0 <= i < chunks.len() implies bytes_of(#[trigger] chunks[i]).len() > 0
        && (i < chunks.len() - 1 ==> bytes_of(chunks[i]).len() >= CAR_STREAM_CHUNK_SIZE) by {
        assert(all_bytes(chunks@)[i] == bytes_of(chunks[i]));
        assert(all_bytes(chunks@) == chunks_of(prefix));
        let start = car_header(prefix[0].0.parts()) + frame_of(prefix[0]);
        let frames = frames_of(prefix).drop_first();
        assert(chunks_of(prefix) == all_chunks(start, frames));
        chunks_are_large(start, frames, i);
    }
}

/// Whether a chunk is no larger than it has to be: it is not large enough without the last frame in it. With
/// the first block a chunk has one more frame than that.
pub open spec fn just_large_enough(
    chunk: Seq<u8>,
    start: Seq<u8>,
    frames: Seq<Seq<u8>>,
) -> bool {
    ||| chunk.len() < 65536 || chunk == start
    ||| exists|k: int|
        0 <= k < frames.len() && ends_in(chunk, #[trigger] frames[k]) && (chunk.len()
            - frames[k].len() < 65536 || chunk == start + frames[k])
}

/// Whether some bytes end in others.
pub open spec fn ends_in(bytes: Seq<u8>, end: Seq<u8>) -> bool {
    end.len() <= bytes.len() && bytes.skip(bytes.len() - end.len()) == end
}

proof fn lemma_chunks_are_just_large_enough(start: Seq<u8>, frames: Seq<Seq<u8>>)
    ensures
        forall|i: int|
            0 <= i < chunked(start, frames).0.len() ==> just_large_enough(
                #[trigger] chunked(start, frames).0[i],
                start,
                frames,
            ),
        chunked(start, frames).1.len() < 65536 || chunked(start, frames).1 == start,
    decreases frames.len(),
{
    if frames.len() > 0 {
        let before = frames.drop_last();
        let (chunks, rest) = chunked(start, before);
        let last = frames.last();
        let grown = rest + last;
        lemma_chunks_are_just_large_enough(start, before);
        assert forall|i: int| 0 <= i < chunked(start, frames).0.len() implies just_large_enough(
            #[trigger] chunked(start, frames).0[i],
            start,
            frames,
        ) by {
            let chunk = chunked(start, frames).0[i];
            if i < chunks.len() {
                assert(chunk == chunks[i]);
                assert(just_large_enough(chunks[i], start, before));
                if !(chunk.len() < 65536 || chunk == start) {
                    let k = choose|k: int|
                        0 <= k < before.len() && ends_in(chunk, #[trigger] before[k]) && (
                        chunk.len() - before[k].len() < 65536 || chunk == start + before[k]);
                    assert(frames[k] == before[k]);
                }
            } else {
                assert(chunk == grown);
                assert(grown.skip(grown.len() - last.len()) =~= last);
                assert(ends_in(grown, frames[frames.len() - 1]));
            }
        }
    }
}

/// A chunk is handed out once it is large enough: without the last frame in it, it would not be.
pub proof fn chunks_are_no_larger_than_needed(
    blocks: &[(Cid, Bytes)],
    size_limit: Option<usize>,
    r: Result<Vec<Bytes>, Error>,
    i: int,
)
    requires
        call_ensures(stream_car_frames_limited, (blocks, size_limit), r),
        r is Ok,
        0 <= i < r->Ok_0@.len(),
    ensures
        blocks@.len() > 0,
        just_large_enough(
            bytes_of(r->Ok_0@[i]),
            car_header(blocks@[0].0.parts()) + frame_of(blocks@[0]),
            frames_of(blocks@),
        ),
{
    let chunk = bytes_of(r->Ok_0@[i]);
    let prefix = stream_prefix(blocks@, size_limit);
    assert(all_bytes(r->Ok_0@)[i] == chunk);
    cuts_are_as_late_as_possible(blocks@, size_limit);
    let start = car_header(prefix[0].0.parts()) + frame_of(prefix[0]);
    let frames = frames_of(prefix).drop_first();
    lemma_chunks_are_just_large_enough(start, frames);
    let (chunks, rest) = chunked(start, frames);
    assert(chunks_of(prefix) == all_chunks(start, frames));
    if i < chunks.len() {
        assert(chunks[i] == chunk);
    }
    assert(just_large_enough(chunk, start, frames));
    assert(prefix[0] == blocks@[0]);
    if !(chunk.len() < 65536 || chunk == start) {
        let k = choose|k: int|
            0 <= k < frames.len() && ends_in(chunk, #[trigger] frames[k]) && (chunk.len()
                - frames[k].len() < 65536 || chunk == start + frames[k]);
        assert(prefix[k + 1] == blocks@[k + 1]);
        assert(frames[k] == frames_of(blocks@)[k + 1]);
    }
}

/// The sections that are streamed of some blocks without a limit join to the CAR file of all of them. The
/// first one is the header, and there is one more for each block.
pub proof fn streams_are_not_cut(blocks: &[(Cid, Bytes)], r: Result<Vec<Bytes>, Error>)
    requires
        call_ensures(stream_car_frames, (blocks,), r),
    ensures
        r matches Ok(sections) && {
            &&& all_bytes(sections@).flatten() == car_file_of(blocks@)
            &&& blocks@.len() == 0 ==> sections@.len() == 0
            &&& blocks@.len() > 0 ==> {
                &&& sections@.len() == blocks@.len() + 1
                &&& bytes_of(sections@[0]) == car_header(blocks@[0].0.parts())
                &&& forall|i: int|
                    0 < i < sections@.len() ==> bytes_of(#[trigger] sections@[i]) == frame_of(
                        blocks@[i - 1],
                    )
            }
        },
{
    let sections = r->Ok_0@;
    let all = all_bytes(sections);
    if blocks@.len() > 0 {
        assert(all[0] == bytes_of(sections[0]));
        assert forall|i: int| 0 < i < sections.len() implies bytes_of(#[trigger] sections[i])
            == frame_of(blocks@[i - 1]) by {
            assert(all[i] == bytes_of(sections[i]));
            assert(all[i] == frames_of(blocks@)[i - 1]);
        }
    }
}

/// The header section for a block and the frame of the block make the CAR file of that block alone.
pub proof fn header_and_frame_make_a_file(
    cid: Cid,
    block: Bytes,
    header: Result<Bytes, Error>,
    frame: Result<Bytes, Error>,
)
    requires
        call_ensures(car_header_for, (cid,), header),
        call_ensures(car_frame_from_block, (cid, &block), frame),
    ensures
        header is Ok && frame is Ok,
        bytes_of(header->Ok_0) + bytes_of(frame->Ok_0) == car_file_of(seq![(cid, block)]),
{
    let frames = frames_of(seq![(cid, block)]);
    assert(frames =~= seq![frame_of((cid, block))]);
    assert(frames.drop_first() =~= Seq::<Seq<u8>>::empty());
    assert(frames.drop_first().flatten() =~= Seq::<u8>::empty());
    assert(frames.flatten() =~= frame_of((cid, block)));
}

/// A response, whether it is streamed or not, has room for as many of the blocks that it is handed as
/// fit.
pub proof fn responses_are_cut_late(
    blocks: Seq<(Cid, Bytes)>,
    size_limit: Option<usize>,
    n: int,
)
    requires
        just_fit(blocks, size_limit, n),
    ensures
        sink_run(SinkState::empty(size_limit), blocks).bytes == car_file_of(blocks.take(n)),
        ({
            let (stream, chunks) = stream_run(LimitedCar::empty(size_limit), Seq::empty(), blocks);
            chunks.flatten() + stream.buffered == car_file_of(blocks.take(n))
        }),
{
    cuts_are_as_late_as_possible(blocks, size_limit);
    cuts_are_unique(blocks, size_limit, n, car_prefix(blocks, size_limit).len() as int);
    responses_are_car_files(size_limit, blocks);
    streamed_responses_are_car_files(size_limit, blocks);
}

/// What is written into a CAR file is read back: the same blocks in the same order.
pub proof fn written_files_are_read_back(
    blocks: &[(Cid, Bytes)],
    size_limit: Option<usize>,
    n: int,
    nothing: Vec<u8>,
    written: Result<Vec<u8>, Error>,
    car: CarFile,
    r: Result<Vec<(Cid, Bytes)>, Error>,
)
    requires
        nothing@.len() == 0,
        blocks.len() > 0,
        just_fit(blocks@, size_limit, n),
        all_readable(blocks@),
        call_ensures(write_blocks_into_car, (nothing, blocks, size_limit), written),
        written is Ok,
        bytes_of(car.bytes) == written->Ok_0@,
        call_ensures(read_car_blocks, (car,), r),
    ensures
        r matches Ok(read) && same_blocks(read@, blocks@.take(n)),
{
    written_files_are_cut_late(nothing, blocks, size_limit, n, written);
    assert(nothing@ + car_file_of(blocks@.take(n)) =~= car_file_of(blocks@.take(n)));
    let prefix = blocks@.take(n);
    assert forall|i: int| 0 <= i < prefix.len() implies (#[trigger] prefix[i]).0.stored()
        && frame_readable(prefix[i].0.parts(), bytes_of(prefix[i].1)) by {
        assert(prefix[i] == blocks@[i]);
    }
    assert(all_readable(prefix));
}

/// The CAR file of some blocks is accepted if, and only if, it is not larger than the receiving side
/// takes, and then its blocks are what is read.
pub proof fn car_files_are_accepted_up_to_the_limit(
    root: Cid,
    car: CarFile,
    config: Config,
    blocks: Seq<(Cid, Bytes)>,
    r: Result<(Receiving, CarSource), Error>,
)
    requires
        call_ensures(block_receive, (root, Some(car), &config), r),
        is_car_of(car, blocks),
    ensures
        r is Ok <==> bytes_of(car.bytes).len() <= config.receive_maximum,
        r is Ok ==> yields(r->Ok_0.1, blocks),
        r matches Err(e) ==> (e matches Error::TooManyBytes { receive_maximum, bytes_read }
            && receive_maximum == config.receive_maximum && bytes_read == bytes_of(
            car.bytes,
        ).len()),
{
}

} // verus!
