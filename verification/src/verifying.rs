//! What a verification does, call by call.

use crate::bloom::{bloom_bits, bloom_hashes, bloom_is_small, bloom_with_all, in_bloom};
use crate::cid::{Cid, CidParts};
use crate::cid_set::{ascending, CidSet};
use crate::error::{Error, IncrementalVerificationError};
use crate::incremental_verification::{
    encodings, fill_bloom, lemma_settled_prefix, verify_digest, BlockState, Discovery,
    IncrementalDagVerification,
};
use crate::ipld::{block_links, digest_of};
use crate::payload::bytes_of;
use crate::receive::read_and_verify_block;
use crate::receiver_state::{attach_skip_roots, ReceiverState};
use bytes::Bytes;
use deterministic_bloom::runtime_size::BloomFilter;
use vstd::prelude::*;

verus! {

/// Whether a hash function can be computed: SHA2-256 and SHA2-512, SHA3 and Keccak with 224 to 512 bits,
/// BLAKE3, BLAKE2b with 256 and 512 bits, and BLAKE2s with 128 and 256 bits.
pub open spec fn is_known_hash(code: u64) -> bool {
    ||| code == 0x12 || code == 0x13
    ||| code == 0x14 || code == 0x15 || code == 0x16 || code == 0x17
    ||| code == 0x1a || code == 0x1b || code == 0x1c || code == 0x1d
    ||| code == 0x1e
    ||| code == 0xb220 || code == 0xb240
    ||| code == 0xb250 || code == 0xb260
}

/// Whether bytes are those that an identifier stands for, as far as that can be computed.
pub open spec fn authentic(cid: Cid, data: Seq<u8>) -> bool {
    is_known_hash(cid.parts().hash_code) && digest_of(cid.parts().hash_code, data)
        == cid.parts().digest
}

/// Whether an error says that bytes have another digest: it names the identifier that the bytes have.
pub open spec fn says_mismatch(e: Error, cid: Cid, digest: Seq<u8>) -> bool {
    e matches Error::IncrementalVerificationError(
        IncrementalVerificationError::DigestMismatch { cid: c, actual_cid },
    ) && c == cid && actual_cid.parts() == (CidParts {
        version: 1,
        codec: cid.parts().codec,
        hash_code: cid.parts().hash_code,
        digest,
    })
}

/// Whether an error says that a hash function is not supported.
pub open spec fn says_unsupported(e: Error, cid: Cid) -> bool {
    e matches Error::UnsupportedHashCode { cid: c } && c == cid
}

/// The digest of an identifier has to be the one that was computed.
pub proof fn digests_are_compared(cid: Cid, digest: Option<Vec<u8>>, r: Result<(), Error>)
    requires
        call_ensures(verify_digest, (cid, digest), r),
    ensures
        r is Ok <==> digest is Some && digest->0@ == cid.parts().digest,
        r is Err && digest is None ==> says_unsupported(r->Err_0, cid),
        r is Err && digest is Some ==> says_mismatch(r->Err_0, cid, digest->0@),
{
}

/// A block is fine to be stored exactly if it is wanted and authentic. Of a block that is not wanted the
/// error says whether it is there, or complete by assumption.
pub proof fn wanted_blocks_are_verified(
    dag: IncrementalDagVerification,
    cid: Cid,
    bytes: &[u8],
    r: Result<(), Error>,
)
    requires
        call_ensures(IncrementalDagVerification::verify_and_store_block, (&dag, cid, bytes), r),
    ensures
        r is Ok <==> dag.want_cids@.contains(cid) && authentic(cid, bytes@),
        r is Err && !dag.want_cids@.contains(cid) ==> (
        r->Err_0 matches Error::IncrementalVerificationError(
            IncrementalVerificationError::ExpectedWantedBlock { cid: c, block_state },
        ) && c == cid && block_state == (if dag.have_cids@.contains(cid)
            || dag.boundary@.contains(cid) {
            BlockState::Have
        } else {
            BlockState::Unexpected
        })),
        r is Err && dag.want_cids@.contains(cid) ==> {
            ||| says_unsupported(r->Err_0, cid) && !is_known_hash(cid.parts().hash_code)
            ||| says_mismatch(r->Err_0, cid, digest_of(cid.parts().hash_code, bytes@))
                && is_known_hash(cid.parts().hash_code)
        },
{
}

/// A block that arrives is wanted and authentic, there already, or not expected. Only a wanted block is
/// ever refused.
pub proof fn arriving_blocks_are_verified(
    dag: IncrementalDagVerification,
    cid: Cid,
    block: Bytes,
    r: Result<BlockState, Error>,
)
    requires
        call_ensures(read_and_verify_block, (&dag, cid, &block), r),
    ensures
        dag.want_cids@.contains(cid) ==> (r is Ok <==> authentic(cid, bytes_of(block))) && (
        r matches Ok(state) ==> state == BlockState::Want),
        !dag.want_cids@.contains(cid) ==> r is Ok && (r->Ok_0 == BlockState::Have <==> (
        dag.have_cids@.contains(cid) || dag.boundary@.contains(cid))) && (r->Ok_0
            == BlockState::Unexpected <==> !dag.have_cids@.contains(cid)
            && !dag.boundary@.contains(cid)),
        r matches Err(e) ==> {
            ||| says_unsupported(e, cid) && !is_known_hash(cid.parts().hash_code)
            ||| says_mismatch(e, cid, digest_of(cid.parts().hash_code, bytes_of(block)))
                && is_known_hash(cid.parts().hash_code)
        },
{
}

/// A CID is wanted, there, or not expected.
pub proof fn blocks_have_a_state(dag: IncrementalDagVerification, cid: Cid, r: BlockState)
    requires
        call_ensures(IncrementalDagVerification::block_state, (&dag, cid), r),
    ensures
        r == BlockState::Want <==> dag.want_cids@.contains(cid),
        r == BlockState::Have <==> !dag.want_cids@.contains(cid) && (dag.have_cids@.contains(cid)
            || dag.boundary@.contains(cid)),
{
}

/// At first nothing is there and nothing is missing. Each root is to be looked at once, in order, unless it
/// is complete by assumption, which counts as a hit.
pub proof fn verifications_begin_with_their_roots(
    roots: &[Cid],
    boundary: CidSet,
    r: (IncrementalDagVerification, Discovery),
    unbounded: (IncrementalDagVerification, Discovery),
)
    requires
        call_ensures(IncrementalDagVerification::new_with_boundary, (roots, boundary), r),
        call_ensures(IncrementalDagVerification::new, (roots,), unbounded),
    ensures
        r.0.want_cids@.is_empty() && r.0.have_cids@.is_empty(),
        r.0.boundary@ == boundary@,
        forall|c: Cid|
            r.0.boundary_hits@.contains(c) <==> roots@.contains(c) && #[trigger] boundary@.contains(
                c,
            ),
        forall|c: Cid|
            #[trigger] r.1@.contains(c) <==> roots@.contains(c) && !boundary@.contains(c),
        unbounded.0.want_cids@.is_empty() && unbounded.0.have_cids@.is_empty(),
        unbounded.0.boundary@.is_empty() && unbounded.0.boundary_hits@.is_empty(),
        forall|c: Cid| #[trigger] unbounded.1@.contains(c) <==> roots@.contains(c),
{
    assert forall|c: Cid|
        #[trigger] r.1@.contains(c) <==> roots@.contains(c) && !boundary@.contains(c) by {
        assert(r.1@.to_set().contains(c) <==> roots@.to_set().contains(c) && !boundary@.contains(
            c,
        ));
    }
    assert forall|c: Cid|
        r.0.boundary_hits@.contains(c) <==> roots@.contains(c) && #[trigger] boundary@.contains(
            c,
        ) by {
        assert(r.0@.boundary_hits.contains(c) <==> roots@.to_set().contains(c)
            && boundary@.contains(c));
    }
    assert forall|c: Cid| #[trigger] unbounded.1@.contains(c) <==> roots@.contains(c) by {
        assert(unbounded.1@.to_set().contains(c) <==> roots@.to_set().contains(c));
    }
    assert(r.0@.want.is_empty() && r.0@.have.is_empty());
    assert(unbounded.0@.want.is_empty() && unbounded.0@.have.is_empty());
    assert(unbounded.0@.boundary.is_empty() && unbounded.0@.boundary_hits.is_empty());
}

/// What was missing is to be looked at again, and nothing else changes.
pub proof fn missing_blocks_are_looked_at_again(
    before: IncrementalDagVerification,
    after: IncrementalDagVerification,
    r: Discovery,
)
    requires
        exists|dag: &mut IncrementalDagVerification|
            *dag == before && *final(dag) == after && #[trigger] call_ensures(
                IncrementalDagVerification::update_have_cids,
                (dag,),
                r,
            ),
    ensures
        after.want_cids@.is_empty(),
        after.have_cids@ == before.have_cids@,
        after.boundary@ == before.boundary@,
        after.boundary_hits@ == before.boundary_hits@,
        forall|c: Cid| #[trigger] r@.contains(c) <==> before.want_cids@.contains(c),
{
    assert(after@.want.is_empty());
    assert(after@.have == before@.have && after@.boundary == before@.boundary);
    assert(after@.boundary_hits == before@.boundary_hits);
    assert forall|c: Cid| #[trigger] r@.contains(c) <==> before.want_cids@.contains(c) by {
        assert(r@.to_set().contains(c) <==> before@.want.contains(c));
    }
}

/// Whether a CID needs no question, as it is there, missing, or complete by assumption.
pub open spec fn is_settled(dag: IncrementalDagVerification, cid: Cid) -> bool {
    dag.want_cids@.contains(cid) || dag.have_cids@.contains(cid) || dag.boundary@.contains(cid)
}

/// The first CID that is not settled is asked about next, and what comes after it stays to be looked at. Of
/// those before it the ones that are complete by assumption count as hits. Nothing else changes.
pub proof fn unsettled_blocks_are_asked_about(
    before: IncrementalDagVerification,
    after: IncrementalDagVerification,
    queue: Discovery,
    rest: Discovery,
    r: Option<Cid>,
)
    requires
        exists|dag: &mut IncrementalDagVerification, discovery: &mut Discovery|
            *dag == before && *final(dag) == after && *discovery == queue && *final(discovery)
                == rest && #[trigger] call_ensures(
                IncrementalDagVerification::discover,
                (dag, discovery),
                r,
            ),
    ensures
        after.want_cids@ == before.want_cids@,
        after.have_cids@ == before.have_cids@,
        after.boundary@ == before.boundary@,
        r is None <==> forall|i: int|
            0 <= i < queue@.len() ==> is_settled(before, #[trigger] queue@[i]),
        ({
            let n = if r is Some {
                queue@.len() - rest@.len() - 1
            } else {
                queue@.len() as int
            };
            &&& forall|i: int| 0 <= i < n ==> is_settled(before, #[trigger] queue@[i])
            &&& r is Some ==> r->0 == queue@[n] && rest@ == queue@.skip(n + 1)
            &&& r is None ==> rest@.len() == 0
            &&& forall|c: Cid| #[trigger]
                after.boundary_hits@.contains(c) <==> before.boundary_hits@.contains(c) || (
                before.boundary@.contains(c) && queue@.take(n).contains(c))
        }),
{
    let n = before@.settled_prefix(queue@) as int;
    lemma_settled_prefix(before@, queue@);
    assert(after@ == before@.passed_over(queue@.take(n)));
    assert forall|i: int| 0 <= i < n implies is_settled(before, #[trigger] queue@[i]) by {
        assert(before@.settles(queue@[i]));
    }
    if r is Some {
        assert(!before@.settles(queue@[n]));
        assert(!is_settled(before, queue@[n]));
    }
    assert forall|c: Cid| #[trigger]
        after.boundary_hits@.contains(c) <==> before.boundary_hits@.contains(c) || (
        before.boundary@.contains(c) && queue@.take(n).contains(c)) by {
        assert(after@.boundary_hits.contains(c) <==> before@.boundary_hits.contains(c) || (
        before@.boundary.contains(c) && queue@.take(n).to_set().contains(c)));
    }
}

/// A CID is either there or missing, as the store says, and nothing else changes.
pub proof fn answers_are_kept(
    before: IncrementalDagVerification,
    after: IncrementalDagVerification,
    cid: Cid,
    present: bool,
)
    requires
        exists|dag: &mut IncrementalDagVerification|
            *dag == before && *final(dag) == after && #[trigger] call_ensures(
                IncrementalDagVerification::found,
                (dag, cid, present),
                (),
            ),
    ensures
        after.have_cids@.contains(cid) <==> present,
        after.want_cids@.contains(cid) <==> !present,
        forall|c: Cid|
            c != cid ==> (#[trigger] after.have_cids@.contains(c) <==> before.have_cids@.contains(c)),
        forall|c: Cid|
            c != cid ==> (#[trigger] after.want_cids@.contains(c) <==> before.want_cids@.contains(c)),
        after.boundary@ == before.boundary@,
        after.boundary_hits@ == before.boundary_hits@,
{
    assert(after@ == before@.marked(cid, present));
    assert forall|c: Cid| c != cid implies (#[trigger] after.have_cids@.contains(c)
        <==> before.have_cids@.contains(c)) by {
        assert(after@.have.contains(c) <==> before@.have.contains(c));
    }
    assert forall|c: Cid| c != cid implies (#[trigger] after.want_cids@.contains(c)
        <==> before.want_cids@.contains(c)) by {
        assert(after@.want.contains(c) <==> before@.want.contains(c));
    }
    assert(after@.have.contains(cid) <==> present);
    assert(after@.want.contains(cid) <==> !present);
    assert(after@.boundary == before@.boundary && after@.boundary_hits == before@.boundary_hits);
}

/// A block that is stored is there and no longer missing. Its links, all of them and in their order, are to
/// be looked at, if they can be read.
pub proof fn links_of_stored_blocks_are_looked_at(
    before: IncrementalDagVerification,
    after: IncrementalDagVerification,
    cid: Cid,
    bytes: &[u8],
    r: Result<Discovery, Error>,
)
    requires
        exists|dag: &mut IncrementalDagVerification|
            *dag == before && *final(dag) == after && #[trigger] call_ensures(
                IncrementalDagVerification::block_stored,
                (dag, cid, bytes),
                r,
            ),
    ensures
        after.have_cids@ == before.have_cids@.insert(cid),
        after.want_cids@ == before.want_cids@.remove(cid),
        after.boundary@ == before.boundary@,
        after.boundary_hits@ == before.boundary_hits@,
        r is Ok <==> block_links(cid.parts().codec, bytes@) is Some,
        r matches Ok(discovery) ==> discovery@ == block_links(cid.parts().codec, bytes@)->0,
        r matches Err(e) ==> e is ParsingError,
{
    assert(after@ == before@.marked_as_have(cid));
    assert(after@.have == before@.have.insert(cid) && after@.want == before@.want.remove(cid));
    assert(after@.boundary == before@.boundary && after@.boundary_hits == before@.boundary_hits);
}

/// What comes first is looked at first.
pub proof fn discoveries_wait_in_line(
    seeds: Vec<Cid>,
    begun: Discovery,
    before: Discovery,
    after: Discovery,
    more: Vec<Cid>,
)
    requires
        call_ensures(Discovery::new, (seeds,), begun),
        exists|discovery: &mut Discovery|
            *discovery == before && *final(discovery) == after && #[trigger] call_ensures(
                Discovery::extend,
                (discovery, more),
                (),
            ),
    ensures
        begun@ == seeds@,
        after@ == before@ + more@,
{
}

/// A bloom filter keeps what it holds, and gets all that is put into it. Nothing changes if nothing is put
/// into it, and what is put into it at once or bit by bit makes no difference.
pub proof fn blooms_are_filled(
    bloom: BloomFilter,
    some: &[Cid],
    more: &[Cid],
    all: &[Cid],
    first: BloomFilter,
    second: BloomFilter,
    at_once: BloomFilter,
)
    requires
        call_ensures(fill_bloom, (bloom, some), first),
        call_ensures(fill_bloom, (first, more), second),
        call_ensures(fill_bloom, (bloom, all), at_once),
        all@ == some@ + more@,
    ensures
        bloom_hashes(first) == bloom_hashes(bloom),
        bloom_bits(first).len() == bloom_bits(bloom).len(),
        some@.len() == 0 ==> bloom_bits(first) == bloom_bits(bloom),
        forall|c: Cid| some@.contains(c) ==> in_bloom(first, #[trigger] c.parts().encoding()),
        forall|element: Seq<u8>| in_bloom(bloom, element) ==> #[trigger] in_bloom(first, element),
        bloom_bits(second) == bloom_bits(at_once),
{
    assert forall|c: Cid| some@.contains(c) implies in_bloom(
        first,
        #[trigger] c.parts().encoding(),
    ) by {
        let i = choose|i: int| 0 <= i < some@.len() && some@[i] == c;
        assert(in_bloom(first, some[i].parts().encoding()));
    }
    if some@.len() == 0 {
        assert(encodings(some@) =~= Seq::<Seq<u8>>::empty());
    }
    assert(encodings(all@) =~= encodings(some@) + encodings(more@));
    lemma_filled_bit_by_bit(
        bloom_hashes(bloom),
        bloom_bits(bloom),
        encodings(some@),
        encodings(more@),
    );
}

proof fn lemma_filled_bit_by_bit(
    hashes: nat,
    bits: Seq<u8>,
    some: Seq<Seq<u8>>,
    more: Seq<Seq<u8>>,
)
    ensures
        bloom_with_all(hashes, bits, some + more) == bloom_with_all(
            hashes,
            bloom_with_all(hashes, bits, some),
            more,
        ),
    decreases more.len(),
{
    if more.len() == 0 {
        assert(some + more =~= some);
    } else {
        assert((some + more).drop_last() =~= some + more.drop_last());
        assert((some + more).last() == more.last());
        lemma_filled_bit_by_bit(hashes, bits, some, more.drop_last());
    }
}

/// All skip roots are told, in ascending order, and nothing else changes.
pub proof fn skip_roots_are_told(before: ReceiverState, after: ReceiverState, skip_roots: CidSet)
    requires
        exists|state: &mut ReceiverState|
            *state == before && *final(state) == after && #[trigger] call_ensures(
                attach_skip_roots,
                (state, &skip_roots),
                (),
            ),
    ensures
        forall|c: Cid|
            #[trigger] after.skip_subgraph_roots@.contains(c) <==> skip_roots@.contains(c),
        ascending(after.skip_subgraph_roots@),
        after.missing_subgraph_roots@ == before.missing_subgraph_roots@,
        after.have_cids_bloom == before.have_cids_bloom,
{
    assert forall|c: Cid|
        #[trigger] after.skip_subgraph_roots@.contains(c) <==> skip_roots@.contains(c) by {
        assert(after.skip_subgraph_roots@.to_set().contains(c) <==> skip_roots@.contains(c));
    }
}

/// A bloom filter is small enough to be asked exactly if it has no more than a sixty-fourth of the bytes that
/// can be counted.
pub proof fn small_blooms_can_be_counted(bloom: BloomFilter, state: ReceiverState, r: bool, s: bool)
    requires
        call_ensures(bloom_is_small, (&bloom,), r),
        call_ensures(ReceiverState::bloom_fits_in_memory, (&state,), s),
    ensures
        r <==> bloom_bits(bloom).len() * 64 <= usize::MAX,
        s <==> (state.have_cids_bloom matches Some(b) ==> bloom_bits(b).len() * 64 <= usize::MAX),
{
}

} // verus!
