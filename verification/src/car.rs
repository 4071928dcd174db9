//! CAR files: a header followed by frames, each of which holds a block and its CID.

use crate::cid::{encodings_are_short, uvarint, uvarints_are_short, Cid, CidParts};
use crate::common::CarFile;
use crate::error::Error;
use crate::payload::{buffer_extend, buffer_freeze, buffer_len, buffer_with_capacity, buffered_bytes, bytes_as_slice, bytes_from_vec, bytes_of};
use bytes::{Bytes, BytesMut};
use futures::FutureExt;
use iroh_car::Error as CarError;
use iroh_car::{CarHeader, CarReader, CarWriter};
use std::io::Cursor;
use vstd::prelude::*;

verus! {

/// `iroh_car::CarWriter`: a CAR file in the making.
#[verifier::external_type_specification]
#[verifier::external_body]
#[verifier::reject_recursive_types(W)]
pub struct ExCarWriter<W>(CarWriter<W>);

/// `iroh_car::CarReader`: a CAR file that is being read.
#[verifier::external_type_specification]
#[verifier::external_body]
#[verifier::reject_recursive_types(R)]
pub struct ExCarReader<R>(CarReader<R>);

/// `std::io::Cursor`: a reader of bytes in memory.
#[verifier::external_type_specification]
#[verifier::external_body]
#[verifier::reject_recursive_types(T)]
pub struct ExCursor<T>(Cursor<T>);

/// What was written so far.
pub uninterp spec fn car_written(w: CarWriter<Vec<u8>>) -> Seq<u8>;

/// The only root that the header names.
pub uninterp spec fn car_root(w: CarWriter<Vec<u8>>) -> CidParts;

/// How a CBOR byte string starts that is shorter than 256 bytes.
pub open spec fn byte_string_start(len: nat) -> Seq<u8> {
    if len < 24 {
        seq![(0x40 + len) as u8]
    } else {
        seq![0x58u8, len as u8]
    }
}

/// A header that names one root, as DAG-CBOR: a map of "roots" to a list of one link, and of "version"
/// to 1. A link is a byte string with a tag, and starts with a zero.
pub open spec fn car_header_map(root: CidParts) -> Seq<u8> {
    let link = seq![0u8] + root.encoding();
    seq![0xa2u8, 0x65u8, 0x72u8, 0x6fu8, 0x6fu8, 0x74u8, 0x73u8, 0x81u8, 0xd8u8, 0x2au8]
        + byte_string_start(link.len()) + link
        + seq![0x67u8, 0x76u8, 0x65u8, 0x72u8, 0x73u8, 0x69u8, 0x6fu8, 0x6eu8, 0x01u8]
}

/// The bytes of a header that names one root, together with their length prefix.
pub open spec fn car_header(root: CidParts) -> Seq<u8> {
    uvarint(car_header_map(root).len()) + car_header_map(root)
}

/// What is still to be read.
pub uninterp spec fn car_unread(r: CarReader<Cursor<Bytes>>) -> Seq<u8>;

/// What follows the header of a CAR file, or nothing if it has no valid header.
pub uninterp spec fn car_after_header(bytes: Seq<u8>) -> Option<Seq<u8>>;

/// The first frame of the given bytes: the CID and the bytes of its block, and what follows it. The
/// outer option is empty if the bytes are malformed, the inner one if they have come to an end.
pub uninterp spec fn car_first_block(
    bytes: Seq<u8>,
) -> Option<Option<(CidParts, Seq<u8>, Seq<u8>)>>;

/// A frame: the length of what follows, the binary form of the CID, and the block.
pub open spec fn car_frame(parts: CidParts, data: Seq<u8>) -> Seq<u8> {
    uvarint(parts.encoding().len() + data.len()) + parts.encoding() + data
}

/// The most bytes of a CID and its block that the outside reader takes from one frame.
pub const MAX_FRAME: usize = 4194304;

/// Whether a frame can be read back.
pub open spec fn frame_readable(parts: CidParts, data: Seq<u8>) -> bool {
    parts.valid() && parts.encoding().len() + data.len() <= MAX_FRAME
}

/// `CarWriter::new`, for a header that `CarHeader::new_v1` makes of one root, and a vector to write
/// to. Nothing is written yet.
#[verifier::external_body]
fn car_writer(version: u64, codec: u64, hash_code: u64, digest: &[u8]) -> (r: CarWriter<Vec<u8>>)
    requires
        (CidParts { version, codec, hash_code, digest: digest@ }).valid(),
    ensures
        car_written(r) == Seq::<u8>::empty(),
        car_root(r) == (CidParts { version, codec, hash_code, digest: digest@ }),
{
    let version = cid::Version::try_from(version).expect("a known version");
    let hash = cid::multihash::Multihash::wrap(hash_code, digest).expect("a short digest");
    let root = cid::Cid::new(version, codec, hash).expect("a valid combination");
    CarWriter::new(CarHeader::new_v1(vec![root]), Vec::new())
}

/// `CarWriter::write_header`: writes the header unless it was written before, which is so exactly if
/// something was written, and counts the bytes written by this call. The header is what
/// `CarHeader::encode` makes of the root, after its length. Writes to a vector do not
/// fail, and the future is ready at once.
#[verifier::external_body]
fn car_write_header(w: &mut CarWriter<Vec<u8>>) -> (r: Result<usize, CarError>)
    ensures
        r is Ok,
        car_root(*final(w)) == car_root(*old(w)),
        car_written(*old(w)).len() == 0 ==> car_written(*final(w)) == car_header(car_root(*old(w))),
        car_written(*old(w)).len() > 0 ==> car_written(*final(w)) == car_written(*old(w)),
        car_written(*final(w)).len() > 0,
        r->Ok_0 == car_written(*final(w)).len() - car_written(*old(w)).len(),
{
    w.write_header().now_or_never().expect("writing to memory never waits")
}

/// `CarWriter::write`: writes the header unless it was written before, then a frame, and counts the
/// bytes written by this call. Writes to a vector do not fail, and the future is ready at once.
#[verifier::external_body]
fn car_write(
    w: &mut CarWriter<Vec<u8>>,
    version: u64,
    codec: u64,
    hash_code: u64,
    digest: &[u8],
    data: &[u8],
) -> (r: Result<usize, CarError>)
    requires
        (CidParts { version, codec, hash_code, digest: digest@ }).valid(),
    ensures
        r is Ok,
        car_root(*final(w)) == car_root(*old(w)),
        car_written(*final(w)) == (if car_written(*old(w)).len() == 0 {
            car_header(car_root(*old(w)))
        } else {
            car_written(*old(w))
        }) + car_frame((CidParts { version, codec, hash_code, digest: digest@ }), data@),
        r->Ok_0 == car_written(*final(w)).len() - car_written(*old(w)).len(),
{
    let version = cid::Version::try_from(version).expect("a known version");
    let hash = cid::multihash::Multihash::wrap(hash_code, digest).expect("a short digest");
    let cid = cid::Cid::new(version, codec, hash).expect("a valid combination");
    w.write(cid, data).now_or_never().expect("writing to memory never waits")
}

/// `CarWriter::finish`: hands out what was written. Flushing a vector does not fail, and the future
/// is ready at once.
#[verifier::external_body]
fn car_finish(w: CarWriter<Vec<u8>>) -> (r: Result<Vec<u8>, CarError>)
    ensures
        r is Ok,
        r->Ok_0@ == car_written(w),
{
    w.finish().now_or_never().expect("writing to memory never waits")
}

/// `CarReader::new`: reads the header of a CAR file in memory, which gives back what
/// `CarWriter::write_header` wrote. The future is ready at once.
#[verifier::external_body]
fn car_reader(bytes: Bytes) -> (r: Result<CarReader<Cursor<Bytes>>, CarError>)
    ensures
        r is Ok <==> car_after_header(bytes_of(bytes)) is Some,
        r is Ok ==> car_unread(r->Ok_0) == car_after_header(bytes_of(bytes))->0,
        forall|root: CidParts, rest: Seq<u8>|
            root.valid() && bytes_of(bytes) == #[trigger] (car_header(root) + rest) ==> r is Ok
                && car_unread(r->Ok_0) == rest,
{
    CarReader::new(Cursor::new(bytes)).now_or_never().expect("reading from memory never waits")
}

/// `CarReader::next_block`: reads a frame, with the CID taken apart. It gives back what
/// `CarWriter::write` wrote, as long as that is not larger than the reader takes, and finds the end
/// where nothing is left. The CIDs that it makes are valid, and a frame takes up at least one byte.
/// The future is ready at once.
#[verifier::external_body]
fn car_next_block(r: &mut CarReader<Cursor<Bytes>>) -> (b: Result<
    Option<(u64, u64, u64, Vec<u8>, Vec<u8>)>,
    CarError,
>)
    ensures
        b is Err <==> car_first_block(car_unread(*old(r))) is None,
        b is Ok ==> (b->Ok_0 is Some <==> car_first_block(car_unread(*old(r)))->0 is Some),
        b is Ok && b->Ok_0 is Some ==> plain_frame(b->Ok_0->0, car_unread(*final(r)))
            == car_first_block(car_unread(*old(r)))->0->0,
        b is Ok && b->Ok_0 is Some ==> plain_frame(b->Ok_0->0, Seq::empty()).0.valid(),
        b is Ok && b->Ok_0 is Some ==> car_unread(*final(r)).len() < car_unread(*old(r)).len(),
        car_unread(*old(r)).len() == 0 ==> b is Ok && b->Ok_0 is None,
        forall|parts: CidParts, data: Seq<u8>, rest: Seq<u8>|
            frame_readable(parts, data) && car_unread(*old(r)) == #[trigger] (car_frame(
                parts,
                data,
            ) + rest) ==> b is Ok && b->Ok_0 is Some && plain_frame(
                b->Ok_0->0,
                car_unread(*final(r)),
            ) == (parts, data, rest),
{
    let block = r.next_block().now_or_never().expect("reading from memory never waits")?;
    Ok(
        block.map(
            |(c, data)|
                {
                    let hash = c.hash();
                    (c.version().into(), c.codec(), hash.code(), hash.digest().to_vec(), data)
                },
        ),
    )
}

/// A frame as plain values.
pub open spec fn plain_frame(
    b: (u64, u64, u64, Vec<u8>, Vec<u8>),
    rest: Seq<u8>,
) -> (CidParts, Seq<u8>, Seq<u8>) {
    (CidParts { version: b.0, codec: b.1, hash_code: b.2, digest: b.3@ }, b.4@, rest)
}

/// Target size for coalescing CAR block frames before handing them on.
///
/// One chunk per block turns into one transport write per block; batching frames up to this many
/// bytes amortizes that overhead across a whole chunk.
pub const CAR_STREAM_CHUNK_SIZE: usize = 65536;

/// The frame of a block.
pub open spec fn frame_of(block: (Cid, Bytes)) -> Seq<u8> {
    car_frame(block.0.parts(), bytes_of(block.1))
}

/// The frames of several blocks.
pub open spec fn frames_of(blocks: Seq<(Cid, Bytes)>) -> Seq<Seq<u8>> {
    blocks.map_values(|b: (Cid, Bytes)| frame_of(b))
}

/// The bytes of several `Bytes`.
pub open spec fn all_bytes(chunks: Seq<Bytes>) -> Seq<Seq<u8>> {
    chunks.map_values(|b: Bytes| bytes_of(b))
}

/// A CAR file whose header names the first block, or nothing at all if there is none.
pub open spec fn car_file_of(blocks: Seq<(Cid, Bytes)>) -> Seq<u8> {
    if blocks.len() == 0 {
        Seq::empty()
    } else {
        car_header(blocks[0].0.parts()) + frames_of(blocks).flatten()
    }
}

/// A number of bytes, as far as it can be counted.
pub open spec fn counted(n: int) -> int {
    if n <= usize::MAX {
        n
    } else {
        usize::MAX as int
    }
}

/// The header section of a CAR file that names one root.
pub fn car_header_for(root: Cid) -> (r: Result<Bytes, Error>)
    ensures
        r is Ok,
        bytes_of(r->Ok_0) == car_header(root.parts()),
{
    let digest = root.digest();
    proof {
        use_type_invariant(&root);
        Cid::stored_is_valid(root);
    }
    let mut writer = car_writer(root.version(), root.codec(), root.hash_code(), digest.as_slice());
    match car_write_header(&mut writer) {
        Ok(_) => {},
        Err(e) => return Err(Error::CarFileError(e)),
    }
    match car_finish(writer) {
        Ok(bytes) => Ok(bytes_from_vec(bytes)),
        Err(e) => Err(Error::CarFileError(e)),
    }
}

/// The frame of a block.
pub fn car_frame_from_block(cid: Cid, block: &Bytes) -> (r: Result<Bytes, Error>)
    ensures
        r is Ok,
        bytes_of(r->Ok_0) == car_frame(cid.parts(), bytes_of(*block)),
{
    // The writer will always first emit a header. It is forced here, so that the number of bytes
    // to skip is known.
    let bogus = Cid::default();
    let bogus_digest = bogus.digest();
    proof {
        use_type_invariant(&cid);
        Cid::stored_is_valid(cid);
    }
    let mut writer = car_writer(
        bogus.version(),
        bogus.codec(),
        bogus.hash_code(),
        bogus_digest.as_slice(),
    );
    let start: usize = match car_write_header(&mut writer) {
        Ok(start) => start,
        Err(e) => return Err(Error::CarFileError(e)),
    };
    let digest = cid.digest();
    match car_write(
        &mut writer,
        cid.version(),
        cid.codec(),
        cid.hash_code(),
        digest.as_slice(),
        bytes_as_slice(block),
    ) {
        Ok(_) => {},
        Err(e) => return Err(Error::CarFileError(e)),
    }
    let mut bytes: Vec<u8> = match car_finish(writer) {
        Ok(bytes) => bytes,
        Err(e) => return Err(Error::CarFileError(e)),
    };
    // This leaves the bogus header behind.
    let ghost all = bytes@;
    let frame = bytes.split_off(start);
    proof {
        assert(frame@ =~= car_frame(cid.parts(), bytes_of(*block)));
    }
    Ok(bytes_from_vec(frame))
}

/// The sections of a CAR file, as its blocks come in.
pub struct CarFrames {
    started: bool,
}

impl CarFrames {
    /// Whether the header was handed out.
    pub closed spec fn started(self) -> bool {
        self.started
    }

    /// A CAR file without blocks.
    pub fn new() -> (r: CarFrames)
        ensures
            !r.started(),
    {
        CarFrames { started: false }
    }

    /// The next sections: the header, if this is the first block, and the frame of the block.
    pub fn add_block(&mut self, cid: Cid, block: &Bytes) -> (r: Result<Vec<Bytes>, Error>)
        ensures
            r is Ok,
            final(self).started(),
            all_bytes(r->Ok_0@) == (if old(self).started() {
                seq![car_frame(cid.parts(), bytes_of(*block))]
            } else {
                seq![car_header(cid.parts()), car_frame(cid.parts(), bytes_of(*block))]
            }),
    {
        let mut sections: Vec<Bytes> = Vec::new();
        if !self.started {
            match car_header_for(cid) {
                Ok(header) => sections.push(header),
                Err(e) => return Err(e),
            }
            self.started = true;
        }
        match car_frame_from_block(cid, block) {
            Ok(frame) => sections.push(frame),
            Err(e) => return Err(e),
        }
        proof {
            assert(all_bytes(sections@) =~= (if old(self).started() {
                seq![car_frame(cid.parts(), bytes_of(*block))]
            } else {
                seq![car_header(cid.parts()), car_frame(cid.parts(), bytes_of(*block))]
            }));
        }
        Ok(sections)
    }
}

/// Turns blocks (tuples of CIDs and bytes) into the sections of a CAR file.
///
/// Simply concatenated together, all these sections form a CARv1 file.
///
/// The boundaries are after the header section and between each block.
///
/// The first section will always be the header, which names the first block: CAR files *must* have
/// at least one CID in it, and it needs to appear as a block in the payload.
pub fn stream_car_frames(blocks: &[(Cid, Bytes)]) -> (r: Result<Vec<Bytes>, Error>)
    ensures
        r is Ok,
        all_bytes(r->Ok_0@) == (if blocks.len() == 0 {
            Seq::empty()
        } else {
            seq![car_header(blocks[0].0.parts())] + frames_of(blocks@)
        }),
        all_bytes(r->Ok_0@).flatten() == car_file_of(blocks@),
{
    let mut sections: Vec<Bytes> = Vec::new();
    let mut frames = CarFrames::new();
    let mut i: usize = 0;
    proof {
        assert(all_bytes(sections@) =~= Seq::<Seq<u8>>::empty());
    }
    while i < blocks.len()
        invariant
            i <= blocks.len(),
            frames.started() == (i > 0),
            all_bytes(sections@) == (if i == 0 {
                Seq::empty()
            } else {
                seq![car_header(blocks[0].0.parts())] + frames_of(blocks@).take(i as int)
            }),
        decreases blocks.len() - i,
    {
        let ghost before = all_bytes(sections@);
        let block = &blocks[i];
        match frames.add_block(block.0, &block.1) {
            Ok(more) => {
                let mut more = more;
                let ghost added = more@;
                let ghost had = sections@;
                sections.append(&mut more);
                proof {
                    assert(all_bytes(had + added) =~= all_bytes(had) + all_bytes(added));
                    assert(all_bytes(sections@) =~= seq![car_header(blocks[0].0.parts())]
                        + frames_of(blocks@).take(i + 1));
                }
            },
            Err(e) => return Err(e),
        }
        i = i + 1;
    }
    proof {
        assert(frames_of(blocks@).take(i as int) =~= frames_of(blocks@));
        if blocks.len() > 0 {
            lemma_flatten_first(car_header(blocks[0].0.parts()), frames_of(blocks@));
        } else {
            assert(all_bytes(sections@).flatten() =~= Seq::<u8>::empty());
        }
    }
    Ok(sections)
}

proof fn lemma_flatten_first(first: Seq<u8>, rest: Seq<Seq<u8>>)
    ensures
        (seq![first] + rest).flatten() == first + rest.flatten(),
{
    let all = seq![first] + rest;
    assert(all.drop_first() =~= rest);
    assert(all[0] == first);
}

/// Whether a frame may follow the bytes that were emitted or written.
pub open spec fn frame_fits(size_limit: Option<usize>, emitted: int, frame: Seq<u8>) -> bool {
    size_limit matches Some(limit) ==> emitted + frame.len() <= limit
}

/// How many of the given frames follow the bytes that were emitted.
pub open spec fn stream_accepts(
    size_limit: Option<usize>,
    emitted: int,
    frames: Seq<Seq<u8>>,
) -> nat
    decreases frames.len(),
{
    if frames.len() == 0 || !frame_fits(size_limit, emitted, frames[0]) {
        0
    } else {
        1 + stream_accepts(size_limit, emitted + frames[0].len(), frames.drop_first())
    }
}

/// Frames put together to chunks: each chunk is complete with the frame that makes it large enough.
/// The second part is what is left over.
pub open spec fn chunked(
    start: Seq<u8>,
    frames: Seq<Seq<u8>>,
) -> (Seq<Seq<u8>>, Seq<u8>)
    decreases frames.len(),
{
    if frames.len() == 0 {
        (Seq::empty(), start)
    } else {
        let (chunks, rest) = chunked(start, frames.drop_last());
        let grown = rest + frames.last();
        if grown.len() >= CAR_STREAM_CHUNK_SIZE {
            (chunks.push(grown), Seq::empty())
        } else {
            (chunks, grown)
        }
    }
}

/// All chunks, the last one included.
pub open spec fn all_chunks(start: Seq<u8>, frames: Seq<Seq<u8>>) -> Seq<Seq<u8>> {
    let (chunks, rest) = chunked(start, frames);
    if rest.len() == 0 {
        chunks
    } else {
        chunks.push(rest)
    }
}

/// Chunk boundaries are invisible to the reader: only the concatenation matters, and that is the
/// same for chunks as for frames.
pub proof fn chunks_join_to_the_same_bytes(start: Seq<u8>, frames: Seq<Seq<u8>>)
    ensures
        all_chunks(start, frames).flatten() == start + frames.flatten(),
{
    let (chunks, rest) = chunked(start, frames);
    lemma_chunked_joins(start, frames);
    if rest.len() == 0 {
        assert(chunks.flatten() + rest =~= chunks.flatten());
    } else {
        chunks.lemma_flatten_push(rest);
    }
}

proof fn lemma_chunked_joins(start: Seq<u8>, frames: Seq<Seq<u8>>)
    ensures
        chunked(start, frames).0.flatten() + chunked(start, frames).1 == start + frames.flatten(),
    decreases frames.len(),
{
    if frames.len() == 0 {
        assert(Seq::<Seq<u8>>::empty().flatten() =~= Seq::<u8>::empty());
        assert(frames.flatten() =~= Seq::<u8>::empty());
        assert(Seq::<u8>::empty() + start =~= start + Seq::<u8>::empty());
    } else {
        let before = frames.drop_last();
        let (chunks, rest) = chunked(start, before);
        let grown = rest + frames.last();
        lemma_chunked_joins(start, before);
        assert(before.push(frames.last()) =~= frames);
        before.lemma_flatten_push(frames.last());
        assert(chunks.flatten() + grown =~= (chunks.flatten() + rest) + frames.last());
        assert((start + before.flatten()) + frames.last() =~= start + (before.flatten()
            + frames.last()));
        if grown.len() >= CAR_STREAM_CHUNK_SIZE {
            chunks.lemma_flatten_push(grown);
            assert((chunks.flatten() + grown) + Seq::<u8>::empty() =~= chunks.flatten() + grown);
        }
    }
}

/// Every chunk but the last is large enough, and none is empty.
pub proof fn chunks_are_large(start: Seq<u8>, frames: Seq<Seq<u8>>, i: int)
    requires
        0 <= i < all_chunks(start, frames).len(),
    ensures
        all_chunks(start, frames)[i].len() > 0,
        i < all_chunks(start, frames).len() - 1 ==> all_chunks(start, frames)[i].len()
            >= CAR_STREAM_CHUNK_SIZE,
{
    lemma_full_chunks(start, frames);
}

proof fn lemma_full_chunks(start: Seq<u8>, frames: Seq<Seq<u8>>)
    ensures
        forall|i: int|
            0 <= i < chunked(start, frames).0.len() ==> (#[trigger] chunked(
                start,
                frames,
            ).0[i]).len() >= CAR_STREAM_CHUNK_SIZE,
    decreases frames.len(),
{
    if frames.len() > 0 {
        let before = chunked(start, frames.drop_last()).0;
        lemma_full_chunks(start, frames.drop_last());
        assert forall|i: int| 0 <= i < chunked(start, frames).0.len() implies (#[trigger] chunked(
            start,
            frames,
        ).0[i]).len() >= CAR_STREAM_CHUNK_SIZE by {
            if i < before.len() {
                assert(before[i].len() >= CAR_STREAM_CHUNK_SIZE);
            }
        }
    }
}

/// The chunks of a CAR file of limited size, as its blocks come in.
pub struct LimitedCarFrames {
    started: bool,
    emitted_bytes: usize,
    size_limit: Option<usize>,
    buffer: BytesMut,
}

/// What matters of a CAR file of limited size.
pub struct LimitedCar {
    /// Whether there was a block.
    pub started: bool,
    /// How many bytes were taken in, as far as they can be counted.
    pub emitted: int,
    /// How many bytes there may be.
    pub size_limit: Option<usize>,
    /// The bytes that were taken in and not handed out.
    pub buffered: Seq<u8>,
}

impl View for LimitedCarFrames {
    type V = LimitedCar;

    closed spec fn view(&self) -> LimitedCar {
        LimitedCar {
            started: self.started,
            emitted: self.emitted_bytes as int,
            size_limit: self.size_limit,
            buffered: buffered_bytes(self.buffer),
        }
    }
}

impl LimitedCar {
    /// No blocks yet.
    pub open spec fn empty(size_limit: Option<usize>) -> LimitedCar {
        LimitedCar { started: false, emitted: 0, size_limit, buffered: Seq::empty() }
    }

    /// Whether there is room for a block. The first one is always taken.
    pub open spec fn accepts(self, parts: CidParts, data: Seq<u8>) -> bool {
        !self.started || frame_fits(self.size_limit, self.emitted, car_frame(parts, data))
    }

    /// The bytes that are to be handed out once a block was taken in.
    pub open spec fn grown(self, parts: CidParts, data: Seq<u8>) -> Seq<u8> {
        if self.started {
            self.buffered + car_frame(parts, data)
        } else {
            car_header(parts) + car_frame(parts, data)
        }
    }

    /// The chunk that a block completes, if any. The first block never does.
    pub open spec fn completes(self, parts: CidParts, data: Seq<u8>) -> Option<Seq<u8>> {
        if self.accepts(parts, data) && self.started && self.grown(parts, data).len()
            >= CAR_STREAM_CHUNK_SIZE {
            Some(self.grown(parts, data))
        } else {
            None
        }
    }

    /// With a block taken in, if there is room for it.
    pub open spec fn with_block(self, parts: CidParts, data: Seq<u8>) -> LimitedCar {
        if !self.accepts(parts, data) {
            self
        } else {
            LimitedCar {
                started: true,
                emitted: counted(
                    if self.started {
                        self.emitted + car_frame(parts, data).len()
                    } else {
                        self.grown(parts, data).len() as int
                    },
                ),
                size_limit: self.size_limit,
                buffered: if self.completes(parts, data) is Some {
                    Seq::empty()
                } else {
                    self.grown(parts, data)
                },
            }
        }
    }
}

/// The bytes of an optional `Bytes`.
pub open spec fn some_bytes(b: Option<Bytes>) -> Option<Seq<u8>> {
    match b {
        Some(b) => Some(bytes_of(b)),
        None => None,
    }
}

impl LimitedCarFrames {
    /// A CAR file without blocks.
    pub fn new(size_limit: Option<usize>) -> (r: LimitedCarFrames)
        ensures
            r@ == LimitedCar::empty(size_limit),
    {
        LimitedCarFrames {
            started: false,
            emitted_bytes: 0,
            size_limit,
            buffer: buffer_with_capacity(CAR_STREAM_CHUNK_SIZE),
        }
    }

    /// Takes in a block, if there is room for it, and hands out a chunk if that completes one. If
    /// there is no room for the block, that is the end of the CAR file.
    pub fn add_block(&mut self, cid: Cid, block: &Bytes) -> (r: Result<
        (bool, Option<Bytes>),
        Error,
    >)
        ensures
            r is Ok,
            r->Ok_0.0 == old(self)@.accepts(cid.parts(), bytes_of(*block)),
            some_bytes(r->Ok_0.1) == old(self)@.completes(cid.parts(), bytes_of(*block)),
            final(self)@ == old(self)@.with_block(cid.parts(), bytes_of(*block)),
    {
        let frame = match car_frame_from_block(cid, block) {
            Ok(frame) => frame,
            Err(e) => return Err(e),
        };
        if !self.started {
            let header = match car_header_for(cid) {
                Ok(header) => header,
                Err(e) => return Err(e),
            };
            self.started = true;
            self.emitted_bytes = header.len().saturating_add(frame.len());
            self.buffer = buffer_with_capacity(CAR_STREAM_CHUNK_SIZE);
            buffer_extend(&mut self.buffer, bytes_as_slice(&header));
            buffer_extend(&mut self.buffer, bytes_as_slice(&frame));
            proof {
                assert(self@.buffered =~= car_header(cid.parts()) + car_frame(
                    cid.parts(),
                    bytes_of(*block),
                ));
            }
            return Ok((true, None));
        }
        if let Some(limit) = self.size_limit {
            match self.emitted_bytes.checked_add(frame.len()) {
                Some(total) => {
                    if total > limit {
                        return Ok((false, None));
                    }
                },
                None => return Ok((false, None)),
            }
        }
        self.emitted_bytes = self.emitted_bytes.saturating_add(frame.len());
        buffer_extend(&mut self.buffer, bytes_as_slice(&frame));
        if buffer_len(&self.buffer) >= CAR_STREAM_CHUNK_SIZE {
            let mut chunk = buffer_with_capacity(CAR_STREAM_CHUNK_SIZE);
            std::mem::swap(&mut chunk, &mut self.buffer);
            return Ok((true, Some(buffer_freeze(chunk))));
        }
        Ok((true, None))
    }

    /// The trailing partial chunk, if there is one.
    pub fn finish(self) -> (r: Option<Bytes>)
        ensures
            some_bytes(r) == (if self@.buffered.len() == 0 {
                None
            } else {
                Some(self@.buffered)
            }),
    {
        if buffer_len(&self.buffer) == 0 {
            None
        } else {
            Some(buffer_freeze(self.buffer))
        }
    }
}

/// The blocks that go into a CAR stream of limited size: the first one always, and then as many as
/// there is room for.
pub open spec fn stream_prefix(blocks: Seq<(Cid, Bytes)>, size_limit: Option<usize>) -> Seq<
    (Cid, Bytes),
> {
    if blocks.len() == 0 {
        blocks
    } else {
        let start = car_header(blocks[0].0.parts()) + frame_of(blocks[0]);
        blocks.take(
            1int + stream_accepts(size_limit, start.len() as int, frames_of(blocks).drop_first()),
        )
    }
}

/// The chunks of a CAR file of the given blocks.
pub open spec fn chunks_of(blocks: Seq<(Cid, Bytes)>) -> Seq<Seq<u8>> {
    if blocks.len() == 0 {
        Seq::empty()
    } else {
        all_chunks(
            car_header(blocks[0].0.parts()) + frame_of(blocks[0]),
            frames_of(blocks).drop_first(),
        )
    }
}

proof fn lemma_stream_accepts_is_short(
    size_limit: Option<usize>,
    emitted: int,
    frames: Seq<Seq<u8>>,
)
    ensures
        stream_accepts(size_limit, emitted, frames) <= frames.len(),
    decreases frames.len(),
{
    if frames.len() > 0 {
        lemma_stream_accepts_is_short(
            size_limit,
            emitted + frames[0].len(),
            frames.drop_first(),
        );
    }
}

/// Chunks have the bytes of a CAR file.
pub proof fn chunks_make_a_car_file(blocks: Seq<(Cid, Bytes)>)
    ensures
        chunks_of(blocks).flatten() == car_file_of(blocks),
{
    if blocks.len() > 0 {
        let header = car_header(blocks[0].0.parts());
        let first = frame_of(blocks[0]);
        let frames = frames_of(blocks);
        chunks_join_to_the_same_bytes(header + first, frames.drop_first());
        assert(frames.first() == first);
        assert((header + first) + frames.drop_first().flatten() =~= header + (first
            + frames.drop_first().flatten()));
    } else {
        assert(Seq::<Seq<u8>>::empty().flatten() =~= Seq::<u8>::empty());
    }
}

/// Like [`stream_car_frames`], but stops once the emitted block frames would
/// exceed `size_limit` bytes, and puts frames together to chunks.
///
/// The first block is always emitted (a CAR must contain at least its root
/// block); subsequent blocks are included
/// only while the running frame total stays under the limit. `None` takes all blocks.
pub fn stream_car_frames_limited(
    blocks: &[(Cid, Bytes)],
    size_limit: Option<usize>,
) -> (r: Result<Vec<Bytes>, Error>)
    ensures
        r is Ok,
        all_bytes(r->Ok_0@) == chunks_of(stream_prefix(blocks@, size_limit)),
        all_bytes(r->Ok_0@).flatten() == car_file_of(stream_prefix(blocks@, size_limit)),
{
    let mut chunks: Vec<Bytes> = Vec::new();
    let mut frames = LimitedCarFrames::new(size_limit);
    let mut i: usize = 0;
    let ghost start = car_header(blocks[0].0.parts()) + frame_of(blocks[0]);
    let ghost rest = frames_of(blocks@).drop_first();
    let ghost mut total = start.len() as int;
    let ghost taken = stream_accepts(size_limit, total, rest) as int;
    proof {
        chunks_make_a_car_file(stream_prefix(blocks@, size_limit));
        lemma_stream_accepts_is_short(size_limit, total, rest);
        assert(all_bytes(chunks@) =~= Seq::<Seq<u8>>::empty());
    }
    loop
        invariant_except_break
            i > 0 ==> taken == i - 1 + stream_accepts(size_limit, total, rest.skip(i - 1)),
        invariant
            i <= blocks.len(),
            blocks.len() == 0 || taken <= rest.len(),
            start == car_header(blocks[0].0.parts()) + frame_of(blocks[0]),
            rest == frames_of(blocks@).drop_first(),
            blocks.len() > 0 ==> rest.len() == blocks.len() - 1,
            i == 0 ==> {
                &&& total == start.len()
                &&& taken == stream_accepts(size_limit, total, rest)
                &&& frames@ == LimitedCar::empty(size_limit)
                &&& all_bytes(chunks@) == Seq::<Seq<u8>>::empty()
            },
            i > 0 ==> {
                &&& frames@.started
                &&& frames@.size_limit == size_limit
                &&& frames@.emitted == counted(total)
                &&& all_bytes(chunks@) == chunked(start, rest.take(i - 1)).0
                &&& frames@.buffered == chunked(start, rest.take(i - 1)).1
            },
        ensures
            blocks.len() > 0 ==> i > 0 && taken == i - 1,
        decreases blocks.len() - i,
    {
        if i >= blocks.len() {
            break;
        }
        let block = &blocks[i];
        let ghost before = frames@;
        let ghost had = chunks@;
        let ghost frame = frame_of(*block);
        match frames.add_block(block.0, &block.1) {
            Ok((accepted, chunk)) => {
                if !accepted {
                    proof {
                        assert(rest.skip(i - 1)[0] == frame);
                    }
                    break;
                }
                if let Some(chunk) = chunk {
                    chunks.push(chunk);
                    proof {
                        assert(all_bytes(chunks@) =~= all_bytes(had).push(bytes_of(chunk)));
                    }
                }
                proof {
                    if i > 0 {
                        assert(rest[i - 1] == frame);
                        assert(rest.skip(i - 1)[0] == frame);
                        assert(rest.skip(i - 1).drop_first() =~= rest.skip(i as int));
                        assert(rest.take(i as int).drop_last() =~= rest.take(i - 1));
                        total = total + frame.len();
                    } else {
                        assert(rest.take(0) =~= Seq::<Seq<u8>>::empty());
                        assert(rest.skip(0) =~= rest);
                    }
                }
            },
            Err(e) => return Err(e),
        }
        i = i + 1;
    }
    let ghost had = chunks@;
    if let Some(last) = frames.finish() {
        chunks.push(last);
        proof {
            assert(all_bytes(chunks@) =~= all_bytes(had).push(bytes_of(last)));
        }
    }
    proof {
        if blocks.len() > 0 {
            let prefix = stream_prefix(blocks@, size_limit);
            assert(prefix =~= blocks@.take(i as int));
            assert(frames_of(prefix).drop_first() =~= rest.take(i - 1));
        }
    }
    Ok(chunks)
}

/// A limited CAR stream keeps to its limit, except where the first block alone goes over it.
pub proof fn limited_stream_keeps_to_its_limit(blocks: Seq<(Cid, Bytes)>, limit: usize)
    ensures
        car_file_of(stream_prefix(blocks, Some(limit))).len() <= limit || stream_prefix(
            blocks,
            Some(limit),
        ).len() <= 1,
{
    if blocks.len() > 0 {
        let header = car_header(blocks[0].0.parts());
        let first = frame_of(blocks[0]);
        let rest = frames_of(blocks).drop_first();
        let n = stream_accepts(Some(limit), (header + first).len() as int, rest);
        let prefix = stream_prefix(blocks, Some(limit));
        lemma_stream_accepts_is_short(Some(limit), (header + first).len() as int, rest);
        lemma_accepted_frames_fit(limit, (header + first).len() as int, rest);
        assert(frames_of(prefix).first() == first);
        assert(frames_of(prefix).drop_first() =~= rest.take(n as int));
    }
}

proof fn lemma_accepted_frames_fit(limit: usize, emitted: int, frames: Seq<Seq<u8>>)
    ensures
        ({
            let n = stream_accepts(Some(limit), emitted, frames) as int;
            n > 0 ==> emitted + frames.take(n).flatten().len() <= limit
        }),
    decreases frames.len(),
{
    let n = stream_accepts(Some(limit), emitted, frames) as int;
    if n > 0 {
        let rest = frames.drop_first();
        let m = stream_accepts(Some(limit), emitted + frames[0].len(), rest) as int;
        lemma_stream_accepts_is_short(Some(limit), emitted, frames);
        lemma_accepted_frames_fit(limit, emitted + frames[0].len(), rest);
        assert(frames.take(n).first() == frames[0]);
        assert(frames.take(n).drop_first() =~= rest.take(m));
        if m == 0 {
            assert(rest.take(0).flatten() =~= Seq::<u8>::empty());
        }
    }
}

/// How many of the given blocks follow the bytes that were written.
pub open spec fn car_accepts(
    size_limit: Option<usize>,
    written: int,
    blocks: Seq<(Cid, Bytes)>,
) -> nat
    decreases blocks.len(),
{
    if blocks.len() == 0 || !frame_fits(size_limit, written, frame_of(blocks[0])) {
        0
    } else {
        1 + car_accepts(size_limit, written + frame_of(blocks[0]).len(), blocks.drop_first())
    }
}

/// The blocks that go into a CAR file of limited size: the first one always, and then as many as
/// there is room for.
pub open spec fn car_prefix(blocks: Seq<(Cid, Bytes)>, size_limit: Option<usize>) -> Seq<
    (Cid, Bytes),
> {
    if blocks.len() == 0 {
        blocks
    } else {
        let start = car_header(blocks[0].0.parts()) + frame_of(blocks[0]);
        blocks.take(1int + car_accepts(size_limit, start.len() as int, blocks.drop_first()))
    }
}

/// A CAR file in the making.
pub struct CarWriting {
    started: bool,
    block_bytes: usize,
    size_limit: Option<usize>,
}

/// What matters of a CAR file in the making.
pub struct CarProgress {
    /// Whether there was a block.
    pub started: bool,
    /// How many bytes were written, as far as they can be counted.
    pub written: int,
    /// How many bytes there may be.
    pub size_limit: Option<usize>,
}

impl View for CarWriting {
    type V = CarProgress;

    closed spec fn view(&self) -> CarProgress {
        CarProgress {
            started: self.started,
            written: self.block_bytes as int,
            size_limit: self.size_limit,
        }
    }
}

impl CarProgress {
    /// Nothing written yet.
    pub open spec fn empty(size_limit: Option<usize>) -> CarProgress {
        CarProgress { started: false, written: 0, size_limit }
    }

    /// The bytes that a block adds, or nothing if there is no room for it. The first block is
    /// always taken, and brings the header with it.
    pub open spec fn addition(self, parts: CidParts, data: Seq<u8>) -> Option<Seq<u8>> {
        if !self.started {
            Some(car_header(parts) + car_frame(parts, data))
        } else if frame_fits(self.size_limit, self.written, car_frame(parts, data)) {
            Some(car_frame(parts, data))
        } else {
            None
        }
    }

    /// With a block written, if there is room for it.
    pub open spec fn with_block(self, parts: CidParts, data: Seq<u8>) -> CarProgress {
        match self.addition(parts, data) {
            Some(bytes) => CarProgress {
                started: true,
                written: counted(self.written + bytes.len()),
                ..self
            },
            None => self,
        }
    }
}

impl CarWriting {
    /// A CAR file without blocks.
    pub fn new(size_limit: Option<usize>) -> (r: CarWriting)
        ensures
            r@ == CarProgress::empty(size_limit),
    {
        CarWriting { started: false, block_bytes: 0, size_limit }
    }

    /// The bytes that are to be written next for a block, or nothing if there is no room for it: then
    /// that is the end of the CAR file.
    pub fn add_block(&mut self, cid: Cid, block: &Bytes) -> (r: Result<Option<Bytes>, Error>)
        ensures
            r is Ok,
            some_bytes(r->Ok_0) == old(self)@.addition(cid.parts(), bytes_of(*block)),
            final(self)@ == old(self)@.with_block(cid.parts(), bytes_of(*block)),
    {
        if !self.started {
            let digest = cid.digest();
            proof {
                use_type_invariant(&cid);
                Cid::stored_is_valid(cid);
            }
            let mut writer = car_writer(
                cid.version(),
                cid.codec(),
                cid.hash_code(),
                digest.as_slice(),
            );
            let written: usize = match car_write(
                &mut writer,
                cid.version(),
                cid.codec(),
                cid.hash_code(),
                digest.as_slice(),
                bytes_as_slice(block),
            ) {
                Ok(written) => written,
                Err(e) => return Err(Error::CarFileError(e)),
            };
            self.started = true;
            self.block_bytes = self.block_bytes.saturating_add(written);
            return match car_finish(writer) {
                Ok(bytes) => Ok(Some(bytes_from_vec(bytes))),
                Err(e) => Err(Error::CarFileError(e)),
            };
        }
        let frame = match car_frame_from_block(cid, block) {
            Ok(frame) => frame,
            Err(e) => return Err(e),
        };
        if let Some(limit) = self.size_limit {
            match self.block_bytes.checked_add(frame.len()) {
                Some(total) => {
                    if total > limit {
                        return Ok(None);
                    }
                },
                None => return Ok(None),
            }
        }
        self.block_bytes = self.block_bytes.saturating_add(frame.len());
        Ok(Some(frame))
    }
}

/// Appends a CAR file of as many of the blocks as there is room for. Without blocks nothing is
/// appended.
pub fn write_blocks_into_car(
    write: Vec<u8>,
    blocks: &[(Cid, Bytes)],
    size_limit: Option<usize>,
) -> (r: Result<Vec<u8>, Error>)
    ensures
        r is Ok,
        r->Ok_0@ == write@ + car_file_of(car_prefix(blocks@, size_limit)),
{
    let mut out = write;
    let mut writing = CarWriting::new(size_limit);
    let mut i: usize = 0;
    let ghost header = car_header(blocks[0].0.parts());
    let ghost rest = blocks@.drop_first();
    let ghost mut total = (header + frame_of(blocks[0])).len() as int;
    let ghost taken = car_accepts(size_limit, total, rest) as int;
    proof {
        assert(write@ + Seq::<u8>::empty() =~= write@);
    }
    loop
        invariant_except_break
            i > 0 ==> taken == i - 1 + car_accepts(size_limit, total, rest.skip(i - 1)),
        invariant
            i <= blocks.len(),
            header == car_header(blocks[0].0.parts()),
            rest == blocks@.drop_first(),
            i == 0 ==> {
                &&& total == (header + frame_of(blocks[0])).len()
                &&& taken == car_accepts(size_limit, total, rest)
                &&& writing@ == CarProgress::empty(size_limit)
                &&& out@ == write@
            },
            i > 0 ==> {
                &&& writing@.started
                &&& writing@.size_limit == size_limit
                &&& writing@.written == counted(total)
                &&& out@ == write@ + (header + frames_of(blocks@.take(i as int)).flatten())
            },
        ensures
            blocks.len() > 0 ==> i > 0 && taken == i - 1,
        decreases blocks.len() - i,
    {
        if i >= blocks.len() {
            break;
        }
        let block = &blocks[i];
        let ghost frame = frame_of(*block);
        let ghost had = out@;
        match writing.add_block(block.0, &block.1) {
            Ok(Some(bytes)) => {
                out.extend_from_slice(bytes_as_slice(&bytes));
                proof {
                    let before = blocks@.take(i as int);
                    let after = blocks@.take(i + 1);
                    assert(out@ =~= had + bytes_of(bytes));
                    assert(frames_of(after) =~= frames_of(before).push(frame));
                    frames_of(before).lemma_flatten_push(frame);
                    if i > 0 {
                        assert(rest.skip(i - 1)[0] == *block);
                        assert(rest.skip(i - 1).drop_first() =~= rest.skip(i as int));
                        total = total + frame.len();
                        assert(out@ =~= write@ + (header + frames_of(after).flatten()));
                    } else {
                        assert(frames_of(before).flatten() =~= Seq::<u8>::empty());
                        assert(rest.skip(0) =~= rest);
                        assert(out@ =~= write@ + (header + frames_of(after).flatten()));
                    }
                }
            },
            Ok(None) => {
                proof {
                    assert(rest.skip(i - 1)[0] == *block);
                }
                break;
            },
            Err(e) => return Err(e),
        }
        i = i + 1;
    }
    proof {
        if blocks.len() > 0 {
            assert(car_prefix(blocks@, size_limit) =~= blocks@.take(i as int));
        }
    }
    Ok(out)
}

/// What goes into a CAR file of limited size is a first part of the blocks, with at least one block
/// in it if there is any.
pub proof fn car_files_start_with_the_first_block(
    blocks: Seq<(Cid, Bytes)>,
    size_limit: Option<usize>,
)
    ensures
        car_prefix(blocks, size_limit).len() <= blocks.len(),
        car_prefix(blocks, size_limit) == blocks.take(car_prefix(blocks, size_limit).len() as int),
        blocks.len() > 0 ==> car_prefix(blocks, size_limit).len() > 0,
{
    if blocks.len() > 0 {
        let start = car_header(blocks[0].0.parts()) + frame_of(blocks[0]);
        lemma_same_accepts(size_limit, start.len() as int, blocks.drop_first());
        lemma_stream_accepts_is_short(
            size_limit,
            start.len() as int,
            frames_of(blocks.drop_first()),
        );
    } else {
        assert(blocks.take(0) =~= blocks);
    }
}

/// A CAR file and a CAR stream of limited size are cut at the same block.
pub proof fn files_and_streams_are_cut_alike(
    blocks: Seq<(Cid, Bytes)>,
    size_limit: Option<usize>,
)
    ensures
        car_prefix(blocks, size_limit) == stream_prefix(blocks, size_limit),
{
    if blocks.len() > 0 {
        let start = car_header(blocks[0].0.parts()) + frame_of(blocks[0]);
        lemma_same_accepts(size_limit, start.len() as int, blocks.drop_first());
        assert(frames_of(blocks).drop_first() =~= frames_of(blocks.drop_first()));
    }
}

proof fn lemma_same_accepts(
    size_limit: Option<usize>,
    written: int,
    blocks: Seq<(Cid, Bytes)>,
)
    ensures
        car_accepts(size_limit, written, blocks) == stream_accepts(
            size_limit,
            written,
            frames_of(blocks),
        ),
    decreases blocks.len(),
{
    if blocks.len() > 0 {
        let frame = frame_of(blocks[0]);
        assert(frames_of(blocks)[0] == frame);
        assert(frames_of(blocks).drop_first() =~= frames_of(blocks.drop_first()));
        lemma_same_accepts(size_limit, written + frame.len(), blocks.drop_first());
    }
}

/// No more blocks go into a CAR file than there are.
pub proof fn lemma_car_accepts_is_short(
    size_limit: Option<usize>,
    written: int,
    blocks: Seq<(Cid, Bytes)>,
)
    ensures
        car_accepts(size_limit, written, blocks) <= blocks.len(),
{
    lemma_same_accepts(size_limit, written, blocks);
    lemma_stream_accepts_is_short(size_limit, written, frames_of(blocks));
}

/// The chunks of a CAR stream of limited size join to the bytes of the CAR file of the same blocks
/// and the same limit.
pub proof fn limited_chunks_join_to_the_file(
    blocks: Seq<(Cid, Bytes)>,
    size_limit: Option<usize>,
)
    ensures
        chunks_of(stream_prefix(blocks, size_limit)).flatten() == car_file_of(
            car_prefix(blocks, size_limit),
        ),
{
    files_and_streams_are_cut_alike(blocks, size_limit);
    chunks_make_a_car_file(stream_prefix(blocks, size_limit));
}

/// A CAR file keeps to its limit, except where the first block alone goes over it.
pub proof fn car_file_keeps_to_its_limit(blocks: Seq<(Cid, Bytes)>, limit: usize)
    ensures
        car_file_of(car_prefix(blocks, Some(limit))).len() <= limit || car_prefix(
            blocks,
            Some(limit),
        ).len() <= 1,
{
    files_and_streams_are_cut_alike(blocks, Some(limit));
    limited_stream_keeps_to_its_limit(blocks, limit);
}

/// How long a header is: 59 bytes for a root whose binary form takes up 36 bytes.
pub proof fn headers_are_short(root: CidParts)
    requires
        root.valid(),
    ensures
        car_header(root).len() == root.encoding().len() + (if root.encoding().len() < 23 {
            22int
        } else {
            23int
        }),
{
    encodings_are_short(root);
    uvarints_are_short(car_header_map(root).len());
}

/// The most bytes that the CAR file of a single block takes up beside the block.
pub const MAX_FRAMING: usize = 205;

/// The CAR file of a single block takes up little more than the block.
pub proof fn single_blocks_fit(block: (Cid, Bytes), limit: usize)
    requires
        block.0.stored(),
        bytes_of(block.1).len() + MAX_FRAMING <= limit,
    ensures
        car_file_of(seq![block]).len() <= limit,
{
    let parts = block.0.parts();
    let data = bytes_of(block.1);
    Cid::stored_is_valid(block.0);
    headers_are_short(parts);
    encodings_are_short(parts);
    uvarints_are_short(parts.encoding().len() + data.len());
    let frames = frames_of(seq![block]);
    assert(frames =~= seq![car_frame(parts, data)]);
    assert(frames.drop_last() =~= Seq::<Seq<u8>>::empty());
    reveal_with_fuel(Seq::<Seq<u8>>::flatten, 2);
    assert(frames.drop_first() =~= Seq::<Seq<u8>>::empty());
}

/// What follows the header of a CAR file can be read frame by frame.
pub proof fn frames_follow_each_other(blocks: Seq<(Cid, Bytes)>)
    requires
        blocks.len() > 0,
    ensures
        frames_of(blocks).flatten() == car_frame(blocks[0].0.parts(), bytes_of(blocks[0].1))
            + frames_of(blocks.drop_first()).flatten(),
{
    assert(frames_of(blocks).drop_first() =~= frames_of(blocks.drop_first()));
}

/// The blocks of a CAR file in memory, one after the other.
pub struct CarBlocks {
    reader: CarReader<Cursor<Bytes>>,
}

impl View for CarBlocks {
    type V = Seq<u8>;

    closed spec fn view(&self) -> Seq<u8> {
        car_unread(self.reader)
    }
}

/// Whether a block has the given CID and bytes.
pub open spec fn is_block(block: (Cid, Bytes), parts: CidParts, data: Seq<u8>) -> bool {
    block.0.stored() && block.0.parts() == parts && bytes_of(block.1) == data
}

impl CarBlocks {
    /// Reads the header of a CAR file. What was written as a header is read as one.
    pub fn new(car: CarFile) -> (r: Result<CarBlocks, Error>)
        ensures
            match r {
                Ok(blocks) => car_after_header(bytes_of(car.bytes)) == Some(blocks@),
                Err(e) => e is CarFileError && car_after_header(bytes_of(car.bytes)) is None,
            },
            forall|root: CidParts, rest: Seq<u8>|
                root.valid() && bytes_of(car.bytes) == #[trigger] (car_header(root) + rest)
                    ==> r is Ok && r->Ok_0@ == rest,
    {
        match car_reader(car.bytes) {
            Ok(reader) => Ok(CarBlocks { reader }),
            Err(e) => Err(Error::CarFileError(e)),
        }
    }

    /// Reads the next block, if there is one. What was written as a frame is read as a block, as
    /// long as the frame is not too large.
    pub fn next_block(&mut self) -> (r: Result<Option<(Cid, Bytes)>, Error>)
        ensures
            match r {
                Ok(Some(block)) => car_first_block(old(self)@) == Some(
                    Some((block.0.parts(), bytes_of(block.1), final(self)@)),
                ),
                Ok(None) => car_first_block(old(self)@) == Some(
                    None::<(CidParts, Seq<u8>, Seq<u8>)>,
                ),
                Err(e) => e is CarFileError && car_first_block(old(self)@) is None,
            },
            r is Ok && r->Ok_0 is Some ==> final(self)@.len() < old(self)@.len(),
            old(self)@.len() == 0 ==> r is Ok && r->Ok_0 is None,
            forall|parts: CidParts, data: Seq<u8>, rest: Seq<u8>|
                frame_readable(parts, data) && old(self)@ == #[trigger] (car_frame(parts, data)
                    + rest) ==> r is Ok && r->Ok_0 is Some && is_block(
                    r->Ok_0->0,
                    parts,
                    data,
                ) && final(self)@ == rest,
    {
        match car_next_block(&mut self.reader) {
            Ok(None) => Ok(None),
            Ok(Some((version, codec, hash_code, digest, data))) => {
                match Cid::from_parts(version, codec, hash_code, digest.as_slice()) {
                    Some(cid) => Ok(Some((cid, bytes_from_vec(data)))),
                    None => Ok(None),
                }
            },
            Err(e) => Err(Error::CarFileError(e)),
        }
    }
}

/// What follows the first `n` frames.
pub open spec fn rest_after(bytes: Seq<u8>, n: nat) -> Seq<u8>
    decreases n,
{
    if n == 0 {
        bytes
    } else {
        let first = car_first_block(rest_after(bytes, (n - 1) as nat))->0->0;
        first.2
    }
}

/// Whether the given blocks are what is read first.
pub open spec fn starts_with_blocks(bytes: Seq<u8>, blocks: Seq<(Cid, Bytes)>) -> bool {
    forall|i: int|
        0 <= i < blocks.len() ==> car_first_block(#[trigger] rest_after(bytes, i as nat)) == Some(
            Some(
                (
                    blocks[i].0.parts(),
                    bytes_of(blocks[i].1),
                    rest_after(bytes, (i + 1) as nat),
                ),
            ),
        )
}

/// Whether two sequences of blocks have the same CIDs and bytes.
pub open spec fn same_blocks(a: Seq<(Cid, Bytes)>, b: Seq<(Cid, Bytes)>) -> bool {
    &&& a.len() == b.len()
    &&& forall|i: int|
        0 <= i < a.len() ==> (#[trigger] a[i]).0 == b[i].0 && bytes_of(a[i].1) == bytes_of(b[i].1)
}

/// Whether all blocks can be read back.
pub open spec fn all_readable(blocks: Seq<(Cid, Bytes)>) -> bool {
    forall|i: int|
        0 <= i < blocks.len() ==> (#[trigger] blocks[i]).0.stored() && frame_readable(
            blocks[i].0.parts(),
            bytes_of(blocks[i].1),
        )
}

/// Whether what is read becomes malformed after some blocks.
pub open spec fn breaks_off(bytes: Seq<u8>) -> bool {
    exists|blocks: Seq<(Cid, Bytes)>| #[trigger]
        starts_with_blocks(bytes, blocks) && car_first_block(rest_after(bytes, blocks.len())) is None
}

/// Reads all blocks of a CAR file. What was written is read back.
pub fn read_car_blocks(car: CarFile) -> (r: Result<Vec<(Cid, Bytes)>, Error>)
    ensures
        ({
            let after = car_after_header(bytes_of(car.bytes));
            match r {
                Ok(all) => {
                    &&& after is Some
                    &&& starts_with_blocks(after->0, all@)
                    &&& car_first_block(rest_after(after->0, all@.len())) == Some(
                        None::<(CidParts, Seq<u8>, Seq<u8>)>,
                    )
                },
                Err(e) => e is CarFileError && (after is None || breaks_off(after->0)),
            }
        }),
        forall|blocks: Seq<(Cid, Bytes)>|
            blocks.len() > 0 && all_readable(blocks) && bytes_of(car.bytes) == #[trigger] car_file_of(
                blocks,
            ) ==> r is Ok && same_blocks(r->Ok_0@, blocks),
{
    let ghost file = bytes_of(car.bytes);
    proof {
        assert forall|blocks: Seq<(Cid, Bytes)>|
            blocks.len() > 0 && all_readable(blocks) && file == #[trigger] car_file_of(
                blocks,
            ) implies blocks[0].0.parts().valid() by {
            assert(blocks[0].0.stored());
        }
    }
    let mut source = match CarBlocks::new(car) {
        Ok(source) => source,
        Err(e) => return Err(e),
    };
    let ghost start = source@;
    let mut all: Vec<(Cid, Bytes)> = Vec::new();
    proof {
        assert forall|blocks: Seq<(Cid, Bytes)>|
            blocks.len() > 0 && all_readable(blocks) && file == #[trigger] car_file_of(
                blocks,
            ) implies start == frames_of(blocks.skip(0)).flatten() by {
            assert(blocks.skip(0) =~= blocks);
        }
    }
    loop
        invariant
            car_after_header(file) == Some(start),
            source@ == rest_after(start, all@.len()),
            starts_with_blocks(start, all@),
            forall|blocks: Seq<(Cid, Bytes)>|
                blocks.len() > 0 && all_readable(blocks) && file == #[trigger] car_file_of(blocks)
                    ==> {
                    &&& all@.len() <= blocks.len()
                    &&& same_blocks(all@, blocks.take(all@.len() as int))
                    &&& source@ == frames_of(blocks.skip(all@.len() as int)).flatten()
                },
            file == bytes_of(car.bytes),
        decreases source@.len(),
    {
        let ghost had = all@;
        let ghost unread = source@;
        proof {
            assert forall|blocks: Seq<(Cid, Bytes)>|
                blocks.len() > 0 && all_readable(blocks) && file == #[trigger] car_file_of(
                    blocks,
                ) implies (if had.len() < blocks.len() {
                let block = blocks[had.len() as int];
                frame_readable(block.0.parts(), bytes_of(block.1)) && unread == car_frame(
                    block.0.parts(),
                    bytes_of(block.1),
                ) + frames_of(blocks.skip(had.len() as int + 1)).flatten()
            } else {
                unread.len() == 0
            }) by {
                let left = blocks.skip(had.len() as int);
                if had.len() < blocks.len() {
                    assert(blocks[had.len() as int].0.stored());
                    frames_follow_each_other(left);
                    assert(left.drop_first() =~= blocks.skip(had.len() as int + 1));
                } else {
                    assert(frames_of(left).flatten() =~= Seq::<u8>::empty());
                }
            }
        }
        match source.next_block() {
            Ok(Some(block)) => {
                proof {
                    use_type_invariant(&block.0);
                }
                all.push(block);
                proof {
                    assert forall|blocks: Seq<(Cid, Bytes)>|
                        blocks.len() > 0 && all_readable(blocks) && file == #[trigger] car_file_of(
                            blocks,
                        ) implies {
                        &&& all@.len() <= blocks.len()
                        &&& same_blocks(all@, blocks.take(all@.len() as int))
                        &&& source@ == frames_of(blocks.skip(all@.len() as int)).flatten()
                    } by {
                        let written = blocks[had.len() as int];
                        assert(written.0.stored());
                        Cid::parts_identify(block.0, written.0);
                        assert(same_blocks(had, blocks.take(had.len() as int)));
                    }
                }
            },
            Ok(None) => {
                proof {
                    assert forall|blocks: Seq<(Cid, Bytes)>|
                        blocks.len() > 0 && all_readable(blocks) && file == #[trigger] car_file_of(
                            blocks,
                        ) implies same_blocks(all@, blocks) by {
                        assert(blocks.take(all@.len() as int) =~= blocks);
                    }
                }
                return Ok(all);
            },
            Err(e) => return Err(e),
        }
    }
}

} // verus!
