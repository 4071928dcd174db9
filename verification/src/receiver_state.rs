//! What the receiving side of a transfer tells the sending side.

use crate::bloom::{bloom_as_bytes, bloom_bits, bloom_fits, bloom_from_parts, bloom_hash_count, bloom_hashes, bloom_is_small, bloom_contains, in_bloom};
use crate::cid::Cid;
use crate::cid_set::{ascending, in_order, CidSet};
use crate::messages::{PullRequest, PushResponse};
use deterministic_bloom::runtime_size::BloomFilter;
use vstd::prelude::*;

verus! {

/// Some information that the block receiving end provides the block sending end
/// in order to deduplicate block transfers.
#[derive(Clone)]
pub struct ReceiverState {
    /// At least *some* of the subgraph roots that are missing for sure on the receiving end.
    pub missing_subgraph_roots: Vec<Cid>,
    /// An optional bloom filter of all CIDs below the root that the receiving end has.
    pub have_cids_bloom: Option<BloomFilter>,
    /// Roots whose entire subgraphs the sender should neither walk nor send
    /// (the receiver has them completely, or doesn't want them). Explicitly
    /// requested `missing_subgraph_roots` always take precedence.
    pub skip_subgraph_roots: Vec<Cid>,
}

/// The hash count and the bits with which a bloom filter, or none, goes on the wire.
pub open spec fn bloom_on_wire(bloom: Option<BloomFilter>) -> (nat, Seq<u8>) {
    match bloom {
        Some(b) => (bloom_hashes(b) % 0x1_0000_0000, bloom_bits(b)),
        None => (3, Seq::empty()),
    }
}

/// Whether a bloom filter, or none, is the one that came over the wire.
pub open spec fn bloom_off_wire(
    hash_count: u32,
    bytes: Seq<u8>,
    bloom: Option<BloomFilter>,
) -> bool {
    match bloom {
        Some(b) => bytes.len() > 0 && bloom_hashes(b) == hash_count && bloom_bits(b) == bytes,
        None => bytes.len() == 0,
    }
}

impl ReceiverState {
    /// Whether the bloom filter, if there is one, is small enough to be asked.
    pub open spec fn fits(self) -> bool {
        self.have_cids_bloom matches Some(b) ==> bloom_fits(bloom_bits(b))
    }

    /// Decides whether the bloom filter, if there is one, is small enough to be asked.
    pub fn bloom_fits_in_memory(&self) -> (r: bool)
        ensures
            r == self.fits(),
    {
        match &self.have_cids_bloom {
            Some(b) => bloom_is_small(b),
            None => true,
        }
    }

    /// The hash count and the bits of a bloom filter, or stand-ins for them if there is none.
    pub fn bloom_serialize(bloom: Option<BloomFilter>) -> (r: (u32, Vec<u8>))
        ensures
            (r.0 as nat, r.1@) == bloom_on_wire(bloom),
    {
        match bloom {
            Some(bloom) => {
                let count: u64 = bloom_hash_count(&bloom) as u64;
                proof {
                    assert(count as u32 == count % 0x1_0000_0000) by (bit_vector);
                }
                (count as u32, vstd::slice::slice_to_vec(bloom_as_bytes(&bloom)))
            },
            None => (3, Vec::new()),
        }
    }

    /// The bloom filter with the given hash count and bits, if there are any bits.
    pub fn bloom_deserialize(hash_count: u32, bytes: Vec<u8>) -> (r: Option<BloomFilter>)
        ensures
            bloom_off_wire(hash_count, bytes@, r),
    {
        if bytes.len() == 0 {
            None
        } else {
            Some(bloom_from_parts(hash_count as usize, bytes))
        }
    }
}

impl From<PushResponse> for ReceiverState {
    fn from(push: PushResponse) -> (r: ReceiverState)
        ensures
            r.missing_subgraph_roots@ == push.subgraph_roots@,
            r.skip_subgraph_roots@ == push.skip_subgraph_roots@,
            bloom_off_wire(push.bloom_hash_count, push.bloom_bytes@, r.have_cids_bloom),
    {
        ReceiverState {
            missing_subgraph_roots: push.subgraph_roots,
            have_cids_bloom: ReceiverState::bloom_deserialize(
                push.bloom_hash_count,
                push.bloom_bytes,
            ),
            skip_subgraph_roots: push.skip_subgraph_roots,
        }
    }
}

impl vstd::std_specs::convert::FromSpecImpl<PushResponse> for ReceiverState {
    open spec fn obeys_from_spec() -> bool {
        false
    }

    open spec fn from_spec(push: PushResponse) -> ReceiverState {
        arbitrary()
    }
}

impl From<PullRequest> for ReceiverState {
    fn from(pull: PullRequest) -> (r: ReceiverState)
        ensures
            r.missing_subgraph_roots@ == pull.resources@,
            r.skip_subgraph_roots@ == pull.skip_subgraph_roots@,
            bloom_off_wire(pull.bloom_hash_count, pull.bloom_bytes@, r.have_cids_bloom),
    {
        ReceiverState {
            missing_subgraph_roots: pull.resources,
            have_cids_bloom: ReceiverState::bloom_deserialize(
                pull.bloom_hash_count,
                pull.bloom_bytes,
            ),
            skip_subgraph_roots: pull.skip_subgraph_roots,
        }
    }
}

impl vstd::std_specs::convert::FromSpecImpl<PullRequest> for ReceiverState {
    open spec fn obeys_from_spec() -> bool {
        false
    }

    open spec fn from_spec(pull: PullRequest) -> ReceiverState {
        arbitrary()
    }
}

impl From<ReceiverState> for PushResponse {
    fn from(receiver_state: ReceiverState) -> (r: PushResponse)
        ensures
            r.subgraph_roots@ == receiver_state.missing_subgraph_roots@,
            r.skip_subgraph_roots@ == receiver_state.skip_subgraph_roots@,
            (r.bloom_hash_count as nat, r.bloom_bytes@) == bloom_on_wire(
                receiver_state.have_cids_bloom,
            ),
    {
        let (hash_count, bytes) = ReceiverState::bloom_serialize(receiver_state.have_cids_bloom);
        PushResponse {
            subgraph_roots: receiver_state.missing_subgraph_roots,
            bloom_hash_count: hash_count,
            bloom_bytes: bytes,
            skip_subgraph_roots: receiver_state.skip_subgraph_roots,
        }
    }
}

impl vstd::std_specs::convert::FromSpecImpl<ReceiverState> for PushResponse {
    open spec fn obeys_from_spec() -> bool {
        false
    }

    open spec fn from_spec(receiver_state: ReceiverState) -> PushResponse {
        arbitrary()
    }
}

impl From<ReceiverState> for PullRequest {
    fn from(receiver_state: ReceiverState) -> (r: PullRequest)
        ensures
            r.resources@ == receiver_state.missing_subgraph_roots@,
            r.skip_subgraph_roots@ == receiver_state.skip_subgraph_roots@,
            (r.bloom_hash_count as nat, r.bloom_bytes@) == bloom_on_wire(
                receiver_state.have_cids_bloom,
            ),
    {
        let (hash_count, bytes) = ReceiverState::bloom_serialize(receiver_state.have_cids_bloom);
        PullRequest {
            resources: receiver_state.missing_subgraph_roots,
            bloom_hash_count: hash_count,
            bloom_bytes: bytes,
            skip_subgraph_roots: receiver_state.skip_subgraph_roots,
        }
    }
}

impl vstd::std_specs::convert::FromSpecImpl<ReceiverState> for PullRequest {
    open spec fn obeys_from_spec() -> bool {
        false
    }

    open spec fn from_spec(receiver_state: ReceiverState) -> PullRequest {
        arbitrary()
    }
}

/// Attach the receiver's configured skip roots to the outgoing state, so the
/// (stateless) sender learns them on every round. Sorted for deterministic
/// wire bytes.
pub fn attach_skip_roots(receiver_state: &mut ReceiverState, skip_roots: &CidSet)
    ensures
        final(receiver_state).skip_subgraph_roots@ == in_order(skip_roots@),
        final(receiver_state).skip_subgraph_roots@.to_set() == skip_roots@,
        ascending(final(receiver_state).skip_subgraph_roots@),
        final(receiver_state).missing_subgraph_roots == old(receiver_state).missing_subgraph_roots,
        final(receiver_state).have_cids_bloom == old(receiver_state).have_cids_bloom,
{
    receiver_state.skip_subgraph_roots = skip_roots.to_vec();
}

/// The bloom filter of the receiving end, or one that holds nothing if there is none.
pub fn handle_missing_bloom(have_cids_bloom: Option<BloomFilter>) -> (r: BloomFilter)
    ensures
        match have_cids_bloom {
            Some(bloom) => r == bloom,
            None => {
                &&& bloom_hashes(r) == 1
                &&& bloom_bits(r) == seq![0u8]
                &&& forall|element: Seq<u8>| !(#[trigger] in_bloom(r, element))
            },
        },
{
    match have_cids_bloom {
        Some(bloom) => bloom,
        None => {
            let mut bits: Vec<u8> = Vec::new();
            bits.push(0);
            proof {
                assert(bits@ =~= seq![0u8]);
            }
            bloom_from_parts(1, bits)
        },
    }
}

/// Whether a block need not be sent: the receiving end seems to have it, and has not asked for it.
pub fn should_block_be_skipped(cid: &Cid, bloom: &BloomFilter, subgraph_roots: &CidSet) -> (r: bool)
    requires
        bloom_fits(bloom_bits(*bloom)),
    ensures
        r == (in_bloom(*bloom, cid.parts().encoding()) && !subgraph_roots@.contains(*cid)),
{
    bloom_contains(bloom, cid.to_bytes().as_slice()) && !subgraph_roots.contains(cid)
}

/// What a bloom filter becomes on its way over the wire: it keeps its hash functions and its bits,
/// as long as there are any bits and the number of hash functions fits the field for it.
pub proof fn bloom_survives_the_wire(
    sent: Option<BloomFilter>,
    hash_count: u32,
    bytes: Seq<u8>,
    received: Option<BloomFilter>,
)
    requires
        (hash_count as nat, bytes) == bloom_on_wire(sent),
        bloom_off_wire(hash_count, bytes, received),
        sent matches Some(b) ==> bloom_hashes(b) <= u32::MAX && bloom_bits(b).len() > 0,
    ensures
        sent is Some == received is Some,
        sent is Some ==> {
            &&& bloom_hashes(received->0) == bloom_hashes(sent->0)
            &&& bloom_bits(received->0) == bloom_bits(sent->0)
            &&& forall|element: Seq<u8>| #[trigger]
                in_bloom(received->0, element) == in_bloom(sent->0, element)
        },
{
}

/// Whether a state tells the same as another one, apart from how it is stored.
pub open spec fn tells_the_same(a: ReceiverState, b: ReceiverState) -> bool {
    &&& a.missing_subgraph_roots@ == b.missing_subgraph_roots@
    &&& a.skip_subgraph_roots@ == b.skip_subgraph_roots@
    &&& a.have_cids_bloom is Some == b.have_cids_bloom is Some
    &&& a.have_cids_bloom is Some ==> {
        &&& bloom_hashes(a.have_cids_bloom->0) == bloom_hashes(b.have_cids_bloom->0)
        &&& bloom_bits(a.have_cids_bloom->0) == bloom_bits(b.have_cids_bloom->0)
        &&& forall|element: Seq<u8>| #[trigger]
            in_bloom(a.have_cids_bloom->0, element) == in_bloom(b.have_cids_bloom->0, element)
    }
}

/// What the receiving side tells reaches the sending side, as a pull request and as a push response: the
/// same roots, the same skip roots, and a bloom filter that holds the same. A bloom filter has to have
/// bits, and no more hash functions than the field for them can count.
pub proof fn states_survive_the_wire(
    state: ReceiverState,
    pull: PullRequest,
    push: PushResponse,
    pulled: ReceiverState,
    pushed: ReceiverState,
)
    requires
        call_ensures(<PullRequest as From<ReceiverState>>::from, (state,), pull),
        call_ensures(<ReceiverState as From<PullRequest>>::from, (pull,), pulled),
        call_ensures(<PushResponse as From<ReceiverState>>::from, (state,), push),
        call_ensures(<ReceiverState as From<PushResponse>>::from, (push,), pushed),
        state.have_cids_bloom matches Some(b) ==> bloom_hashes(b) <= u32::MAX && bloom_bits(b).len()
            > 0,
    ensures
        tells_the_same(pulled, state),
        tells_the_same(pushed, state),
{
}

/// What the receiving side tells goes on the wire as it stands. The number of hash functions is cut to the
/// field for it. Without a bloom filter there are no bits, and three hash functions are named.
pub proof fn states_are_put_on_the_wire(
    state: ReceiverState,
    pull: PullRequest,
    push: PushResponse,
    bloom: (u32, Vec<u8>),
)
    requires
        call_ensures(<PullRequest as From<ReceiverState>>::from, (state,), pull),
        call_ensures(<PushResponse as From<ReceiverState>>::from, (state,), push),
        call_ensures(ReceiverState::bloom_serialize, (state.have_cids_bloom,), bloom),
    ensures
        pull.resources@ == state.missing_subgraph_roots@,
        push.subgraph_roots@ == state.missing_subgraph_roots@,
        pull.skip_subgraph_roots@ == state.skip_subgraph_roots@,
        push.skip_subgraph_roots@ == state.skip_subgraph_roots@,
        pull.bloom_bytes@ == push.bloom_bytes@ && pull.bloom_bytes@ == bloom.1@,
        pull.bloom_hash_count == push.bloom_hash_count && pull.bloom_hash_count == bloom.0,
        match state.have_cids_bloom {
            Some(b) => pull.bloom_bytes@ == bloom_bits(b) && pull.bloom_hash_count
                == bloom_hashes(b) % 0x1_0000_0000,
            None => pull.bloom_bytes@.len() == 0 && pull.bloom_hash_count == 3,
        },
{
}

/// What comes over the wire is understood as it stands: roots are requested, skip roots are skipped, and
/// bits make a bloom filter with the given number of hash functions. Without bits there is none.
pub proof fn messages_are_understood(
    pull: PullRequest,
    push: PushResponse,
    pulled: ReceiverState,
    pushed: ReceiverState,
    bloom: Option<BloomFilter>,
)
    requires
        call_ensures(<ReceiverState as From<PullRequest>>::from, (pull,), pulled),
        call_ensures(<ReceiverState as From<PushResponse>>::from, (push,), pushed),
        call_ensures(
            ReceiverState::bloom_deserialize,
            (pull.bloom_hash_count, pull.bloom_bytes),
            bloom,
        ),
    ensures
        bloom is Some <==> pull.bloom_bytes@.len() > 0,
        bloom matches Some(b) ==> bloom_hashes(b) == pull.bloom_hash_count && bloom_bits(b)
            == pull.bloom_bytes@,
        pulled.missing_subgraph_roots@ == pull.resources@,
        pulled.skip_subgraph_roots@ == pull.skip_subgraph_roots@,
        pulled.have_cids_bloom is Some <==> pull.bloom_bytes@.len() > 0,
        pulled.have_cids_bloom matches Some(b) ==> bloom_hashes(b) == pull.bloom_hash_count
            && bloom_bits(b) == pull.bloom_bytes@,
        pushed.missing_subgraph_roots@ == push.subgraph_roots@,
        pushed.skip_subgraph_roots@ == push.skip_subgraph_roots@,
        pushed.have_cids_bloom is Some <==> push.bloom_bytes@.len() > 0,
        pushed.have_cids_bloom matches Some(b) ==> bloom_hashes(b) == push.bloom_hash_count
            && bloom_bits(b) == push.bloom_bytes@,
{
}

/// A block need not be sent exactly if it is not requested and the bloom filter holds its CID. Without a
/// bloom filter none is skipped.
pub proof fn only_what_is_held_is_skipped(
    cid: Cid,
    have_cids_bloom: Option<BloomFilter>,
    bloom: BloomFilter,
    requested: CidSet,
    r: bool,
)
    requires
        call_ensures(handle_missing_bloom, (have_cids_bloom,), bloom),
        call_ensures(should_block_be_skipped, (&cid, &bloom, &requested), r),
    ensures
        r <==> !requested@.contains(cid) && (have_cids_bloom matches Some(b) && in_bloom(
            b,
            cid.parts().encoding(),
        )),
{
}

/// The decimal digits of a number.
pub open spec fn decimal(n: nat) -> Seq<char>
    decreases n,
{
    if n < 10 {
        seq![(48 + n) as char]
    } else {
        decimal(n / 10).push((48 + n % 10) as char)
    }
}

/// What is printed of a bloom filter: not its bits, but how many there are.
pub open spec fn bloom_text(bloom: Option<BloomFilter>) -> Seq<char> {
    match bloom {
        Some(b) => "\"Some(BloomFilter(k_hashes = "@ + decimal(bloom_hashes(b)) + ", "@ + decimal(
            bloom_bits(b).len(),
        ) + " bytes))\""@,
        None => "\"None\""@,
    }
}

/// What is printed of a receiver state: not the CIDs, but how many there are. With `alternate` each
/// field has a line of its own.
pub open spec fn debug_text(state: ReceiverState, alternate: bool) -> Seq<char> {
    let missing = decimal(state.missing_subgraph_roots@.len());
    let skipped = decimal(state.skip_subgraph_roots@.len());
    let bloom = bloom_text(state.have_cids_bloom);
    if alternate {
        "ReceiverState {\n    missing_subgraph_roots.len() == : "@ + missing
            + ",\n    have_cids_bloom: "@ + bloom + ",\n    skip_subgraph_roots.len() == : "@
            + skipped + ",\n}"@
    } else {
        "ReceiverState { missing_subgraph_roots.len() == : "@ + missing + ", have_cids_bloom: "@
            + bloom + ", skip_subgraph_roots.len() == : "@ + skipped + " }"@
    }
}

fn digit(n: usize) -> (r: &'static str)
    requires
        n < 10,
    ensures
        r@ == seq![(48 + n) as char],
{
    proof {
        reveal_strlit("0");
        reveal_strlit("1");
        reveal_strlit("2");
        reveal_strlit("3");
        reveal_strlit("4");
        reveal_strlit("5");
        reveal_strlit("6");
        reveal_strlit("7");
        reveal_strlit("8");
        reveal_strlit("9");
    }
    let r = if n == 0 {
        "0"
    } else if n == 1 {
        "1"
    } else if n == 2 {
        "2"
    } else if n == 3 {
        "3"
    } else if n == 4 {
        "4"
    } else if n == 5 {
        "5"
    } else if n == 6 {
        "6"
    } else if n == 7 {
        "7"
    } else if n == 8 {
        "8"
    } else {
        "9"
    };
    proof {
        assert(r@ =~= seq![(48 + n) as char]);
    }
    r
}

fn decimal_string(n: usize) -> (r: String)
    ensures
        r@ == decimal(n as nat),
    decreases n,
{
    if n < 10 {
        let mut s = String::new();
        s.append(digit(n));
        proof {
            assert(s@ =~= decimal(n as nat));
        }
        s
    } else {
        let mut s = decimal_string(n / 10);
        s.append(digit(n % 10));
        proof {
            assert(s@ =~= decimal(n as nat));
        }
        s
    }
}

impl ReceiverState {
    /// A short description: not the CIDs and the bits of the bloom filter, but how many there are.
    /// With `alternate` each field has a line of its own.
    pub fn to_debug_string(&self, alternate: bool) -> (r: String)
        ensures
            r@ == debug_text(*self, alternate),
            r@.len() < 300,
    {
        let mut s = String::new();
        s.append(
            if alternate {
                "ReceiverState {\n    missing_subgraph_roots.len() == : "
            } else {
                "ReceiverState { missing_subgraph_roots.len() == : "
            },
        );
        s.append(decimal_string(self.missing_subgraph_roots.len()).as_str());
        s.append(
            if alternate {
                ",\n    have_cids_bloom: "
            } else {
                ", have_cids_bloom: "
            },
        );
        let ghost head = s@;
        match &self.have_cids_bloom {
            Some(bloom) => {
                s.append("\"Some(BloomFilter(k_hashes = ");
                s.append(decimal_string(bloom_hash_count(bloom)).as_str());
                s.append(", ");
                s.append(decimal_string(bloom_as_bytes(bloom).len()).as_str());
                s.append(" bytes))\"");
            },
            None => {
                s.append("\"None\"");
            },
        }
        proof {
            assert(s@ =~= head + bloom_text(self.have_cids_bloom));
        }
        s.append(
            if alternate {
                ",\n    skip_subgraph_roots.len() == : "
            } else {
                ", skip_subgraph_roots.len() == : "
            },
        );
        s.append(decimal_string(self.skip_subgraph_roots.len()).as_str());
        s.append(
            if alternate {
                ",\n}"
            } else {
                " }"
            },
        );
        proof {
            assert(s@ =~= debug_text(*self, alternate));
            debug_text_is_not_huge(*self, alternate);
        }
        s
    }
}

proof fn lemma_decimals_are_short(n: nat, digits: nat)
    requires
        n < vstd::arithmetic::power::pow(10, digits),
        digits > 0,
    ensures
        decimal(n).len() <= digits,
    decreases digits,
{
    reveal(vstd::arithmetic::power::pow);
    if n >= 10 {
        if digits == 1 {
            assert(vstd::arithmetic::power::pow(10, 0) == 1);
            assert(false);
        }
        assert(vstd::arithmetic::power::pow(10, digits) == 10 * vstd::arithmetic::power::pow(
            10,
            (digits - 1) as nat,
        ));
        lemma_decimals_are_short(n / 10, (digits - 1) as nat);
    }
}

/// However many CIDs and bits there are, the description stays short.
pub proof fn debug_text_is_not_huge(state: ReceiverState, alternate: bool)
    requires
        state.missing_subgraph_roots@.len() <= usize::MAX,
        state.skip_subgraph_roots@.len() <= usize::MAX,
        state.have_cids_bloom matches Some(b) ==> bloom_hashes(b) <= usize::MAX && bloom_bits(
            b,
        ).len() <= usize::MAX,
    ensures
        debug_text(state, alternate).len() < 300,
{
    reveal_strlit("\"Some(BloomFilter(k_hashes = ");
    reveal_strlit(", ");
    reveal_strlit(" bytes))\"");
    reveal_strlit("\"None\"");
    reveal_strlit("ReceiverState {\n    missing_subgraph_roots.len() == : ");
    reveal_strlit(",\n    have_cids_bloom: ");
    reveal_strlit(",\n    skip_subgraph_roots.len() == : ");
    reveal_strlit(",\n}");
    reveal_strlit("ReceiverState { missing_subgraph_roots.len() == : ");
    reveal_strlit(", have_cids_bloom: ");
    reveal_strlit(", skip_subgraph_roots.len() == : ");
    reveal_strlit(" }");
    lemma_pow_ten_twenty();
    lemma_decimals_are_short(state.missing_subgraph_roots@.len(), 20);
    lemma_decimals_are_short(state.skip_subgraph_roots@.len(), 20);
    match state.have_cids_bloom {
        Some(b) => {
            lemma_decimals_are_short(bloom_hashes(b), 20);
            lemma_decimals_are_short(bloom_bits(b).len(), 20);
        },
        None => {},
    }
}

proof fn lemma_pow_ten_twenty()
    ensures
        vstd::arithmetic::power::pow(10, 20) == 100_000_000_000_000_000_000,
{
    reveal(vstd::arithmetic::power::pow);
    reveal_with_fuel(vstd::arithmetic::power::pow, 21);
}

/// The number that decimal digits stand for.
pub open spec fn decimal_value(digits: Seq<char>) -> nat
    decreases digits.len(),
{
    if digits.len() == 0 {
        0
    } else {
        (10 * decimal_value(digits.drop_last()) + (digits.last() as nat - 48)) as nat
    }
}

/// Decimal digits stand for the number that they are made of.
pub proof fn decimals_are_read_back(n: nat)
    ensures
        decimal_value(decimal(n)) == n,
        decimal(n).len() > 0,
    decreases n,
{
    if n < 10 {
        assert(decimal(n).drop_last() =~= Seq::<char>::empty());
        assert(decimal_value(Seq::<char>::empty()) == 0);
    } else {
        decimals_are_read_back(n / 10);
        assert(decimal(n).drop_last() =~= decimal(n / 10));
    }
}

} // verus!
