//! Verification of a graph of blocks while its blocks arrive.

use crate::bloom::{bloom_bits, bloom_fits, bloom_hashes, bloom_insert, bloom_with_all, in_bloom};
use crate::cid::{Cid, CidParts};
use crate::cid_set::{ascending, in_order, lemma_to_set_push, CidSet};
use crate::error::{Error, IncrementalVerificationError};
use crate::ipld::{block_links, codec_supported, digest_of, hash_supported, multihash_digest, references, ReferencesError};
use crate::receiver_state::ReceiverState;
use deterministic_bloom::runtime_size::BloomFilter;
use std::collections::VecDeque;
use vstd::prelude::*;

verus! {

/// A data structure that keeps state about incremental DAG verification.
#[derive(Clone, Debug)]
pub struct IncrementalDagVerification {
    /// All the CIDs that have been discovered to be missing from the DAG.
    pub want_cids: CidSet,
    /// All the CIDs that are available locally.
    ///
    /// This only ever contains CIDs actually walked or received during this verification. Members
    /// of the boundary never end up in here, so that what is built from this set stays
    /// proportional to the transfer, not to the size of the boundary.
    pub have_cids: CidSet,
    /// The CIDs whose subgraphs are complete by assumption. Traversal never descends below a
    /// member.
    pub boundary: CidSet,
    /// The members of the boundary that traversal came across.
    pub boundary_hits: CidSet,
}

/// The state of a block retrieval
#[derive(Clone, Copy, Debug, PartialEq, Eq, Structural)]
pub enum BlockState {
    /// The block was already received/is already stored
    Have,
    /// We know we will need this block
    Want,
    /// We don't know whether we'll need this block
    Unexpected,
}

/// The sets of a verification.
#[verifier::ext_equal]
pub struct DagState {
    /// Missing.
    pub want: Set<Cid>,
    /// Present.
    pub have: Set<Cid>,
    /// Complete by assumption.
    pub boundary: Set<Cid>,
    /// Members of the boundary that were come across.
    pub boundary_hits: Set<Cid>,
}

/// The CIDs that traversal has still to look at, first come, first served.
#[derive(Debug)]
pub struct Discovery {
    queue: VecDeque<Cid>,
}

impl View for Discovery {
    type V = Seq<Cid>;

    closed spec fn view(&self) -> Seq<Cid> {
        self.queue@
    }
}

impl Discovery {
    /// A traversal that starts at the given CIDs.
    pub fn new(seeds: Vec<Cid>) -> (r: Discovery)
        ensures
            r@ == seeds@,
    {
        let mut r = Discovery { queue: VecDeque::new() };
        r.extend(seeds);
        proof {
            assert(r@ =~= seeds@);
        }
        r
    }

    /// Has the traversal look at the given CIDs too, after all others.
    pub fn extend(&mut self, cids: Vec<Cid>)
        ensures
            final(self)@ == old(self)@ + cids@,
    {
        let mut i: usize = 0;
        proof {
            assert(self.queue@ =~= old(self)@ + cids@.take(0));
        }
        while i < cids.len()
            invariant
                i <= cids.len(),
                self.queue@ == old(self)@ + cids@.take(i as int),
            decreases cids.len() - i,
        {
            self.queue.push_back(cids[i]);
            proof {
                assert(self.queue@ =~= old(self)@ + cids@.take(i + 1));
            }
            i = i + 1;
        }
        proof {
            assert(cids@.take(i as int) =~= cids@);
        }
    }
}

impl DagState {
    /// The state before anything was looked at.
    pub open spec fn initial(boundary: Set<Cid>) -> DagState {
        DagState {
            want: Set::empty(),
            have: Set::empty(),
            boundary,
            boundary_hits: Set::empty(),
        }
    }

    /// Whether traversal has nothing to ask about a CID.
    pub open spec fn settles(self, cid: Cid) -> bool {
        self.boundary.contains(cid) || self.have.contains(cid) || self.want.contains(cid)
    }

    /// How many CIDs at the front of a queue traversal passes over without asking.
    pub open spec fn settled_prefix(self, queue: Seq<Cid>) -> nat
        decreases queue.len(),
    {
        if queue.len() == 0 || !self.settles(queue[0]) {
            0
        } else {
            1 + self.settled_prefix(queue.drop_first())
        }
    }

    /// The state after traversal has passed over some CIDs.
    pub open spec fn passed_over(self, cids: Seq<Cid>) -> DagState {
        DagState {
            boundary_hits: self.boundary_hits.union(self.boundary.intersect(cids.to_set())),
            ..self
        }
    }

    /// The state after a CID was found to be present.
    pub open spec fn marked_as_have(self, cid: Cid) -> DagState {
        DagState { want: self.want.remove(cid), have: self.have.insert(cid), ..self }
    }

    /// The state after a CID was found to be missing.
    pub open spec fn marked_as_want(self, cid: Cid) -> DagState {
        DagState { want: self.want.insert(cid), have: self.have.remove(cid), ..self }
    }

    /// The state after the store was asked for a CID.
    pub open spec fn marked(self, cid: Cid, present: bool) -> DagState {
        if present {
            self.marked_as_have(cid)
        } else {
            self.marked_as_want(cid)
        }
    }

    /// What is known of a CID. Boundary members count as present: the receiver asserts that it
    /// holds their complete subgraphs, so it doesn't want them sent again.
    pub open spec fn block_state(self, cid: Cid) -> BlockState {
        if self.want.contains(cid) {
            BlockState::Want
        } else if self.have.contains(cid) || self.boundary.contains(cid) {
            BlockState::Have
        } else {
            BlockState::Unexpected
        }
    }

    /// Whether the other side is told what is present: not if there is nothing to tell, and not if
    /// nothing is missing.
    pub open spec fn needs_bloom(self) -> bool {
        self.have != Set::<Cid>::empty() && self.want != Set::<Cid>::empty()
    }

    /// No CID is in two of the sets, except that the boundary contains what was hit of it.
    pub open spec fn consistent(self) -> bool {
        &&& self.want.disjoint(self.have)
        &&& self.want.disjoint(self.boundary)
        &&& self.have.disjoint(self.boundary)
        &&& self.boundary_hits.subset_of(self.boundary)
    }
}

/// The binary forms of several CIDs.
pub open spec fn encodings(cids: Seq<Cid>) -> Seq<Seq<u8>> {
    cids.map_values(|c: Cid| c.parts().encoding())
}

/// Whether a block has the digest that its CID gives.
pub open spec fn digest_matches(cid: Cid, bytes: Seq<u8>) -> bool {
    digest_of(cid.parts().hash_code, bytes) == cid.parts().digest
}

/// Whether an identifier is the one that bytes with the given digest have, for the codec and the
/// hash function of another identifier.
pub open spec fn is_actual_cid(cid: Cid, digest: Seq<u8>, actual: Cid) -> bool {
    actual.stored() && actual.parts() == (CidParts {
        version: 1,
        codec: cid.parts().codec,
        hash_code: cid.parts().hash_code,
        digest,
    })
}

fn same_bytes(a: &[u8], b: &[u8]) -> (r: bool)
    ensures
        r == (a@ == b@),
{
    if a.len() != b.len() {
        return false;
    }
    let mut i: usize = 0;
    while i < a.len()
        invariant
            i <= a.len(),
            a.len() == b.len(),
            forall|j: int| 0 <= j < i ==> a@[j] == b@[j],
        decreases a.len() - i,
    {
        if a[i] != b[i] {
            return false;
        }
        i = i + 1;
    }
    proof {
        assert(a@ =~= b@);
    }
    true
}

/// Compares the digest of a block's bytes, if its hash function is supported, with the one that its
/// CID gives.
pub fn verify_digest(cid: Cid, digest: Option<Vec<u8>>) -> (r: Result<(), Error>)
    requires
        digest is Some ==> digest->0.len() <= 64,
    ensures
        match r {
            Ok(()) => digest is Some && digest->0@ == cid.parts().digest,
            Err(Error::UnsupportedHashCode { cid: c }) => digest is None && c == cid,
            Err(Error::IncrementalVerificationError(
                IncrementalVerificationError::DigestMismatch { cid: c, actual_cid },
            )) => digest is Some && digest->0@ != cid.parts().digest && c == cid && is_actual_cid(
                cid,
                digest->0@,
                actual_cid,
            ),
            Err(_) => false,
        },
{
    match digest {
        None => Err(Error::UnsupportedHashCode { cid }),
        Some(digest) => {
            let expected = cid.digest();
            if same_bytes(digest.as_slice(), expected.as_slice()) {
                Ok(())
            } else {
                let actual_cid = Cid::new_v1(cid.codec(), cid.hash_code(), digest.as_slice());
                Err(
                    Error::IncrementalVerificationError(
                        IncrementalVerificationError::DigestMismatch { cid, actual_cid },
                    ),
                )
            }
        },
    }
}

impl View for IncrementalDagVerification {
    type V = DagState;

    open spec fn view(&self) -> DagState {
        DagState {
            want: self.want_cids@,
            have: self.have_cids@,
            boundary: self.boundary@,
            boundary_hits: self.boundary_hits@,
        }
    }
}

impl IncrementalDagVerification {
    /// Initiate incremental DAG verification of given roots.
    ///
    /// The roots are to be looked at next, to find missing subgraphs and CIDs that are already
    /// present.
    pub fn new(roots: &[Cid]) -> (r: (Self, Discovery))
        ensures
            r.0@ == DagState::initial(Set::empty()),
            r.1@ == in_order(roots@.to_set()),
            r.1@.to_set() == roots@.to_set(),
    {
        let r = IncrementalDagVerification::new_with_boundary(roots, CidSet::new());
        proof {
            let none = Set::<Cid>::empty();
            assert(roots@.to_set().difference(none) =~= roots@.to_set());
            assert(roots@.to_set().intersect(none) =~= none);
        }
        r
    }

    /// Like [`Self::new`], but with a set of "complete boundary" roots: CIDs whose subgraphs the
    /// caller asserts to be completely present locally.
    ///
    /// The boundary is used purely as a membership check during traversal: traversal stops at a
    /// member instead of walking the entire history below it, and the member is recorded in
    /// [`Self::boundary_hits`].
    ///
    /// A root that is itself a boundary member is trivially complete: it's recorded as a boundary
    /// hit, not a want.
    pub fn new_with_boundary(roots: &[Cid], complete_boundary: CidSet) -> (r: (Self, Discovery))
        ensures
            r.0@ == (DagState {
                boundary_hits: roots@.to_set().intersect(complete_boundary@),
                ..DagState::initial(complete_boundary@)
            }),
            r.1@ == in_order(roots@.to_set().difference(complete_boundary@)),
            r.1@.to_set() == roots@.to_set().difference(complete_boundary@),
    {
        let boundary = complete_boundary;
        let mut boundary_hits = CidSet::new();
        let mut want_cids = CidSet::new();
        let mut i: usize = 0;
        proof {
            let none = Set::<Cid>::empty();
            assert(roots@.take(0).to_set() =~= none);
            assert(none.difference(boundary@) =~= none);
            assert(none.intersect(boundary@) =~= none);
        }
        while i < roots.len()
            invariant
                i <= roots.len(),
                want_cids@ == roots@.take(i as int).to_set().difference(boundary@),
                boundary_hits@ == roots@.take(i as int).to_set().intersect(boundary@),
            decreases roots.len() - i,
        {
            let root = roots[i];
            if boundary.contains(&root) {
                boundary_hits.insert(root);
            } else {
                want_cids.insert(root);
            }
            proof {
                let before = roots@.take(i as int);
                let after = roots@.take(i + 1);
                assert(after =~= before.push(root));
                lemma_to_set_push(before, root);
                assert(want_cids@ =~= after.to_set().difference(boundary@));
                assert(boundary_hits@ =~= after.to_set().intersect(boundary@));
            }
            i = i + 1;
        }
        proof {
            assert(roots@.take(i as int) =~= roots@);
        }
        let mut this = IncrementalDagVerification {
            want_cids,
            have_cids: CidSet::new(),
            boundary,
            boundary_hits,
        };
        let discovery = this.update_have_cids();
        (this, discovery)
    }

    /// Updates the state of incremental dag verification: all "want" blocks are to be looked at
    /// again, since they may have appeared in the store.
    pub fn update_have_cids(&mut self) -> (r: Discovery)
        ensures
            final(self)@ == (DagState { want: Set::empty(), ..old(self)@ }),
            r@ == in_order(old(self)@.want),
            r@.to_set() == old(self)@.want,
    {
        let seeds = self.want_cids.drain();
        Discovery::new(seeds)
    }

    /// Takes the next CID out of a traversal that the store has to be asked about.
    ///
    /// A boundary member is recorded as a boundary hit and never descended into (nor added to
    /// have/want). CIDs already classified are skipped.
    pub fn discover(&mut self, discovery: &mut Discovery) -> (r: Option<Cid>)
        ensures
            ({
                let n = old(self)@.settled_prefix(old(discovery)@);
                let queue = old(discovery)@;
                &&& n <= queue.len()
                &&& final(self)@ == old(self)@.passed_over(queue.take(n as int))
                &&& n < queue.len() ==> r == Some(queue[n as int]) && final(discovery)@
                    == queue.skip(n as int + 1)
                &&& n == queue.len() ==> r is None && final(discovery)@ == Seq::<Cid>::empty()
            }),
    {
        let ghost state = self@;
        let ghost queue = discovery@;
        let ghost n = state.settled_prefix(queue);
        let ghost mut i: int = 0;
        proof {
            lemma_settled_prefix(state, queue);
            assert(state.boundary.intersect(queue.take(0).to_set()) =~= Set::<Cid>::empty());
            assert(self@ =~= state.passed_over(queue.take(0)));
            assert(discovery@ =~= queue.skip(0));
        }
        loop
            invariant
                state == old(self)@,
                queue == old(discovery)@,
                n == state.settled_prefix(queue),
                0 <= i <= n <= queue.len(),
                forall|j: int| 0 <= j < n ==> state.settles(#[trigger] queue[j]),
                n < queue.len() ==> !state.settles(queue[n as int]),
                self@ == state.passed_over(queue.take(i)),
                discovery@ == queue.skip(i),
            decreases queue.len() - i,
        {
            match discovery.queue.pop_front() {
                None => {
                    proof {
                        assert(queue.skip(i).len() == 0);
                    }
                    return None;
                },
                Some(cid) => {
                    proof {
                        assert(cid == queue[i]);
                        assert(discovery@ =~= queue.skip(i + 1));
                        assert(queue.take(i + 1) =~= queue.take(i).push(cid));
                        lemma_to_set_push(queue.take(i), cid);
                    }
                    if self.boundary.contains(&cid) {
                        self.boundary_hits.insert(cid);
                        proof {
                            assert(i < n);
                            assert(self@ =~= state.passed_over(queue.take(i + 1)));
                            i = i + 1;
                        }
                    } else if self.have_cids.contains(&cid) || self.want_cids.contains(&cid) {
                        proof {
                            assert(i < n);
                            assert(self@ =~= state.passed_over(queue.take(i + 1)));
                            i = i + 1;
                        }
                    } else {
                        proof {
                            assert(i == n);
                        }
                        return Some(cid);
                    }
                },
            }
        }
    }

    /// Classifies a CID that the store was asked about: as "have" if it is present locally, so that
    /// its links are to be followed, or as "want" if it is missing.
    pub fn found(&mut self, cid: Cid, present: bool)
        ensures
            final(self)@ == old(self)@.marked(cid, present),
    {
        if present {
            self.mark_as_have(cid);
        } else {
            self.mark_as_want(cid);
        }
    }

    fn mark_as_want(&mut self, want: Cid)
        ensures
            final(self)@ == old(self)@.marked_as_want(want),
    {
        if self.have_cids.contains(&want) {
            self.have_cids.remove(&want);
        }
        self.want_cids.insert(want);
        proof {
            assert(self@ =~= old(self)@.marked_as_want(want));
        }
    }

    fn mark_as_have(&mut self, have: Cid)
        ensures
            final(self)@ == old(self)@.marked_as_have(have),
    {
        self.want_cids.remove(&have);
        self.have_cids.insert(have);
    }

    /// Check the state of a CID to find out whether
    /// - we expect it as one of the next possible blocks to receive (Want)
    /// - we have already stored it (Have)
    /// - we don't know whether we need it (Unexpected)
    pub fn block_state(&self, cid: Cid) -> (r: BlockState)
        ensures
            r == self@.block_state(cid),
    {
        if self.want_cids.contains(&cid) {
            BlockState::Want
        } else if self.have_cids.contains(&cid) || self.boundary.contains(&cid) {
            BlockState::Have
        } else {
            BlockState::Unexpected
        }
    }

    /// Verify that
    /// - the block is part of the graph below the roots.
    /// - the block hasn't been received before
    /// - the block actually hashes to the hash from given CID
    ///
    /// If so the block is to be put into the store, and [`Self::block_stored`] is to be told.
    ///
    /// This *may* fail, even if the block is part of the graph below the roots,
    /// if intermediate blocks between the roots and this block are missing.
    pub fn verify_and_store_block(&self, cid: Cid, bytes: &[u8]) -> (r: Result<(), Error>)
        ensures
            match r {
                Ok(()) => {
                    &&& self@.want.contains(cid)
                    &&& hash_supported(cid.parts().hash_code)
                    &&& digest_matches(cid, bytes@)
                },
                Err(Error::IncrementalVerificationError(
                    IncrementalVerificationError::ExpectedWantedBlock { cid: c, block_state },
                )) => {
                    &&& !self@.want.contains(cid)
                    &&& c == cid
                    &&& block_state == self@.block_state(cid)
                },
                Err(Error::UnsupportedHashCode { cid: c }) => {
                    &&& self@.want.contains(cid)
                    &&& !hash_supported(cid.parts().hash_code)
                    &&& c == cid
                },
                Err(Error::IncrementalVerificationError(
                    IncrementalVerificationError::DigestMismatch { cid: c, actual_cid },
                )) => {
                    &&& self@.want.contains(cid)
                    &&& hash_supported(cid.parts().hash_code)
                    &&& !digest_matches(cid, bytes@)
                    &&& c == cid
                    &&& is_actual_cid(cid, digest_of(cid.parts().hash_code, bytes@), actual_cid)
                },
                Err(_) => false,
            },
    {
        let block_state = self.block_state(cid);
        match block_state {
            BlockState::Want => {},
            _ => {
                return Err(
                    Error::IncrementalVerificationError(
                        IncrementalVerificationError::ExpectedWantedBlock { cid, block_state },
                    ),
                );
            },
        }
        verify_digest(cid, multihash_digest(cid.hash_code(), bytes))
    }

    /// Updates the state after a block was verified and stored: its CID is marked as "have", and
    /// its direct links are to be looked at.
    pub fn block_stored(&mut self, cid: Cid, bytes: &[u8]) -> (r: Result<Discovery, Error>)
        ensures
            final(self)@ == old(self)@.marked_as_have(cid),
            match r {
                Ok(discovery) => block_links(cid.parts().codec, bytes@) == Some(discovery@),
                Err(Error::ParsingError(ReferencesError::UnsupportedCodec { cid: c })) => c == cid
                    && !codec_supported(cid.parts().codec),
                Err(Error::ParsingError(ReferencesError::Undecodable { cid: c })) => c == cid
                    && codec_supported(cid.parts().codec) && block_links(
                    cid.parts().codec,
                    bytes@,
                ) is None,
                Err(_) => false,
            },
    {
        self.mark_as_have(cid);
        match references(cid, bytes, Vec::new()) {
            Ok(refs) => {
                proof {
                    assert(Seq::<Cid>::empty() + block_links(cid.parts().codec, bytes@)->0
                        =~= block_links(cid.parts().codec, bytes@)->0);
                }
                Ok(Discovery::new(refs))
            },
            Err(e) => Err(Error::ParsingError(e)),
        }
    }

    /// The number of CIDs that the bloom filter of the receiver state is to hold, if there is to be
    /// one.
    pub fn bloom_capacity(&self) -> (r: Option<u64>)
        ensures
            r == (if self@.needs_bloom() {
                Some(self@.have.len() as u64)
            } else {
                None
            }),
            r is Some ==> r->0 == self@.have.len() && r->0 > 0,
    {
        if self.have_cids.is_empty() || self.want_cids.is_empty() {
            return None;
        }
        Some(self.have_cids.len() as u64)
    }

    /// Computes the receiver state for the current incremental dag verification state.
    ///
    /// The `have_cids_bloom` is built over the walked/received CIDs only
    /// (`have_cids`), so its size is proportional to the transfer delta. It is filled into the
    /// given bloom filter, which is to be there if [`Self::bloom_capacity`] asks for one.
    /// The (sorted) boundary hits are returned as `skip_subgraph_roots`, so
    /// the sender prunes its walk below exactly the boundary members that are
    /// relevant to this transfer.
    pub fn into_receiver_state(self, empty_bloom: Option<BloomFilter>) -> (r: ReceiverState)
        requires
            self@.needs_bloom() ==> empty_bloom is Some && bloom_fits(bloom_bits(empty_bloom->0)),
        ensures
            r.missing_subgraph_roots@ == in_order(self@.want),
            r.missing_subgraph_roots@.to_set() == self@.want,
            r.missing_subgraph_roots@.no_duplicates(),
            ascending(r.missing_subgraph_roots@),
            r.skip_subgraph_roots@ == in_order(self@.boundary_hits),
            r.skip_subgraph_roots@.to_set() == self@.boundary_hits,
            ascending(r.skip_subgraph_roots@),
            r.have_cids_bloom is Some <==> self@.needs_bloom(),
            r.have_cids_bloom matches Some(bloom) ==> {
                let given = empty_bloom->0;
                &&& bloom_hashes(bloom) == bloom_hashes(given)
                &&& bloom_bits(bloom).len() == bloom_bits(given).len()
                &&& bloom_bits(bloom) == bloom_with_all(
                    bloom_hashes(given),
                    bloom_bits(given),
                    encodings(in_order(self@.have)),
                )
                &&& forall|c: Cid|
                    self@.have.contains(c) ==> in_bloom(bloom, #[trigger] c.parts().encoding())
            },
    {
        let missing_subgraph_roots = self.want_cids.to_vec();
        let skip_subgraph_roots = self.boundary_hits.to_vec();
        if self.have_cids.is_empty() || self.want_cids.is_empty() {
            return ReceiverState {
                missing_subgraph_roots,
                have_cids_bloom: None,
                skip_subgraph_roots,
            };
        }
        match empty_bloom {
            None => ReceiverState {
                missing_subgraph_roots,
                have_cids_bloom: None,
                skip_subgraph_roots,
            },
            Some(given) => {
                let bloom = fill_bloom(given, self.have_cids.to_vec().as_slice());
                proof {
                    let cids = in_order(self@.have);
                    assert forall|c: Cid| self@.have.contains(c) implies in_bloom(
                        bloom,
                        #[trigger] c.parts().encoding(),
                    ) by {
                        assert(cids.to_set().contains(c));
                        let i = choose|i: int| 0 <= i < cids.len() && cids[i] == c;
                        assert(in_bloom(bloom, cids[i].parts().encoding()));
                    }
                }
                ReceiverState {
                    missing_subgraph_roots,
                    have_cids_bloom: Some(bloom),
                    skip_subgraph_roots,
                }
            },
        }
    }
}

/// Puts the binary forms of all CIDs into a bloom filter.
pub fn fill_bloom(bloom: BloomFilter, cids: &[Cid]) -> (r: BloomFilter)
    requires
        bloom_fits(bloom_bits(bloom)),
    ensures
        bloom_hashes(r) == bloom_hashes(bloom),
        bloom_bits(r).len() == bloom_bits(bloom).len(),
        bloom_bits(r) == bloom_with_all(bloom_hashes(bloom), bloom_bits(bloom), encodings(cids@)),
        forall|i: int|
            0 <= i < cids.len() ==> in_bloom(r, (#[trigger] cids[i]).parts().encoding()),
        forall|element: Seq<u8>| in_bloom(bloom, element) ==> #[trigger] in_bloom(r, element),
{
    let ghost given = bloom;
    let ghost all = encodings(cids@);
    let mut bloom = bloom;
    let mut i: usize = 0;
    proof {
        assert(all.take(0) =~= Seq::<Seq<u8>>::empty());
    }
    while i < cids.len()
        invariant
            i <= cids.len(),
            all == encodings(cids@),
            bloom_fits(bloom_bits(given)),
            bloom_hashes(bloom) == bloom_hashes(given),
            bloom_bits(bloom).len() == bloom_bits(given).len(),
            bloom_bits(bloom) == bloom_with_all(
                bloom_hashes(given),
                bloom_bits(given),
                all.take(i as int),
            ),
            forall|j: int|
                0 <= j < i ==> in_bloom(bloom, (#[trigger] cids[j]).parts().encoding()),
            forall|element: Seq<u8>|
                in_bloom(given, element) ==> #[trigger] in_bloom(bloom, element),
        decreases cids.len() - i,
    {
        bloom_insert(&mut bloom, cids[i].to_bytes().as_slice());
        proof {
            assert(all.take(i + 1).drop_last() =~= all.take(i as int));
            assert(all.take(i + 1).last() == cids[i as int].parts().encoding());
        }
        i = i + 1;
    }
    proof {
        assert(all.take(i as int) =~= all);
    }
    bloom
}

/// What is passed over is settled, and what is asked about is not.
pub proof fn lemma_settled_prefix(state: DagState, queue: Seq<Cid>)
    ensures
        state.settled_prefix(queue) <= queue.len(),
        forall|j: int|
            0 <= j < state.settled_prefix(queue) ==> state.settles(#[trigger] queue[j]),
        state.settled_prefix(queue) < queue.len() ==> !state.settles(
            queue[state.settled_prefix(queue) as int],
        ),
    decreases queue.len(),
{
    if queue.len() > 0 && state.settles(queue[0]) {
        let rest = queue.drop_first();
        lemma_settled_prefix(state, rest);
        assert forall|j: int| 0 <= j < state.settled_prefix(queue) implies state.settles(
            #[trigger] queue[j],
        ) by {
            if j > 0 {
                assert(queue[j] == rest[j - 1]);
            }
        }
    }
}

} // verus!
