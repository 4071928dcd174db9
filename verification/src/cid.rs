//! Content identifiers: which block is meant, and how its bytes are hashed and encoded.

use vstd::prelude::*;

verus! {

/// The multicodec code of blocks without structure, which therefore carry no links.
pub const CODEC_RAW: u64 = 0x55;

/// The multicodec code of DAG-PB.
pub const CODEC_DAG_PB: u64 = 0x70;

/// The multicodec code of DAG-CBOR.
pub const CODEC_DAG_CBOR: u64 = 0x71;

/// The multicodec code of DAG-JSON.
pub const CODEC_DAG_JSON: u64 = 0x0129;

/// The multihash code of SHA2-256, the only hash function of version 0 identifiers.
pub const HASH_SHA2_256: u64 = 0x12;

/// What an identifier says, apart from how it is stored.
pub struct CidParts {
    /// 0 or 1.
    pub version: u64,
    /// The multicodec code of the block's encoding.
    pub codec: u64,
    /// The multihash code of the hash function.
    pub hash_code: u64,
    /// The digest of the block's bytes.
    pub digest: Seq<u8>,
}

impl CidParts {
    /// Version 1 takes any codec and hash function with a digest of up to 64 bytes. Version 0 is
    /// the SHA2-256 digest of a DAG-PB block and nothing else.
    pub open spec fn valid(self) -> bool {
        &&& self.version <= 1
        &&& self.digest.len() <= 64
        &&& self.version == 0 ==> {
            &&& self.codec == CODEC_DAG_PB
            &&& self.hash_code == HASH_SHA2_256
            &&& self.digest.len() == 32
        }
    }

    /// The binary form: a version 0 identifier is its multihash, a version 1 identifier is the
    /// version and the codec followed by the multihash. A multihash is the code of the hash
    /// function, the length of the digest and the digest. All numbers are unsigned varints.
    pub open spec fn encoding(self) -> Seq<u8> {
        let multihash = uvarint(self.hash_code as nat) + uvarint(self.digest.len()) + self.digest;
        if self.version == 0 {
            multihash
        } else {
            uvarint(self.version as nat) + uvarint(self.codec as nat) + multihash
        }
    }
}

/// The unsigned varint encoding of `n`: seven bits per byte, least significant first, with the
/// top bit set on every byte but the last.
pub open spec fn uvarint(n: nat) -> Seq<u8>
    decreases n,
{
    if n < 128 {
        seq![n as u8]
    } else {
        seq![(n % 128 + 128) as u8] + uvarint(n / 128)
    }
}

/// Unsigned varints are short: a byte for small numbers, and no more than ten for any machine integer.
pub proof fn uvarints_are_short(n: nat)
    ensures
        uvarint(n).len() > 0,
        n < 128 ==> uvarint(n).len() == 1,
        n <= u64::MAX ==> uvarint(n).len() <= 10,
{
    reveal_with_fuel(uvarint, 11);
    lemma_uvarint_is_not_empty(n);
}

proof fn lemma_uvarint_is_not_empty(n: nat)
    ensures
        uvarint(n).len() > 0,
    decreases n,
{
    if n >= 128 {
        lemma_uvarint_is_not_empty(n / 128);
    }
}

/// The most bytes that the binary form of an identifier takes up.
pub const MAX_ENCODING: usize = 86;

/// The binary form of an identifier is short.
pub proof fn encodings_are_short(parts: CidParts)
    requires
        parts.valid(),
    ensures
        parts.encoding().len() <= MAX_ENCODING,
{
    uvarints_are_short(parts.version as nat);
    uvarints_are_short(parts.codec as nat);
    uvarints_are_short(parts.hash_code as nat);
    uvarints_are_short(parts.digest.len());
}

/// A content identifier.
#[derive(Clone, Copy, Debug, Eq, Hash)]
pub struct Cid {
    version: u64,
    codec: u64,
    hash_code: u64,
    size: u8,
    digest: [u8; 64],
}

/// The result of comparing two values of a totally ordered type.
#[derive(Clone, Copy, Debug, PartialEq, Eq, Structural)]
pub enum Order {
    /// The first one comes first.
    Less,
    /// The two are equal.
    Equal,
    /// The second one comes first.
    Greater,
}

/// Lexicographic order on sequences of one length.
pub open spec fn seq_before(a: Seq<int>, b: Seq<int>) -> bool {
    exists|i: int| #[trigger] first_difference(a, b, i) && a[i] < b[i]
}

/// `a` and `b` agree below `i` and differ there.
pub open spec fn first_difference(a: Seq<int>, b: Seq<int>, i: int) -> bool {
    &&& 0 <= i < a.len()
    &&& i < b.len()
    &&& a[i] != b[i]
    &&& forall|j: int| 0 <= j < i ==> a[j] == b[j]
}

proof fn lemma_some_first_difference(a: Seq<int>, b: Seq<int>, k: int) -> (i: int)
    requires
        0 <= k < a.len(),
        a.len() == b.len(),
        a[k] != b[k],
    ensures
        first_difference(a, b, i),
    decreases k,
{
    if forall|j: int| 0 <= j < k ==> a[j] == b[j] {
        k
    } else {
        let j = choose|j: int| 0 <= j < k && a[j] != b[j];
        lemma_some_first_difference(a, b, j)
    }
}

impl Cid {
    /// Whether this is the stored form of valid parts, as every identifier is that a program
    /// holds.
    #[verifier::type_invariant]
    pub closed spec fn stored(self) -> bool {
        &&& self.size <= 64
        &&& self.parts().valid()
        &&& forall|i: int| self.size <= i < 64 ==> self.digest[i] == 0
    }

    /// What this identifier says.
    pub closed spec fn parts(self) -> CidParts {
        CidParts {
            version: self.version,
            codec: self.codec,
            hash_code: self.hash_code,
            digest: self.digest@.take(self.size as int),
        }
    }

    /// The numbers by which identifiers are ordered, the most significant first: the version, the
    /// codec, the hash function, the length of the digest and the digest padded with zeros.
    pub closed spec fn key(self) -> Seq<int> {
        Seq::new(
            68,
            |i: int|
                if i == 0 {
                    self.version as int
                } else if i == 1 {
                    self.codec as int
                } else if i == 2 {
                    self.hash_code as int
                } else if i == 3 {
                    self.size as int
                } else {
                    self.digest[i - 4] as int
                },
        )
    }

    /// The order of identifiers.
    pub open spec fn before(self, other: Cid) -> bool {
        seq_before(self.key(), other.key())
    }

    /// What an identifier says is valid.
    pub proof fn stored_is_valid(cid: Cid)
        requires
            cid.stored(),
        ensures
            cid.parts().valid(),
    {
    }

    /// Identifiers that say the same are equal.
    pub proof fn parts_identify(a: Cid, b: Cid)
        requires
            a.stored(),
            b.stored(),
            a.parts() == b.parts(),
        ensures
            a == b,
    {
        assert(a.digest@.take(a.size as int).len() == b.digest@.take(b.size as int).len());
        assert forall|i: int| 0 <= i < 64 implies a.digest[i] == b.digest[i] by {
            if i < a.size {
                assert(a.digest@.take(a.size as int)[i] == b.digest@.take(b.size as int)[i]);
            }
        }
        assert(a.digest =~= b.digest);
    }

    /// Of two identifiers one comes first, unless they are equal.
    pub proof fn order_is_total(a: Cid, b: Cid)
        ensures
            a == b || a.before(b) || b.before(a),
    {
        if a.key() =~= b.key() {
            Cid::lemma_key_identifies(a, b);
        } else {
            let k = choose|k: int| 0 <= k < 68 && a.key()[k] != b.key()[k];
            let i = lemma_some_first_difference(a.key(), b.key(), k);
            assert(first_difference(b.key(), a.key(), i));
        }
    }

    /// No two identifiers come before each other.
    pub proof fn order_is_strict(a: Cid, b: Cid)
        requires
            a.before(b),
        ensures
            !b.before(a),
            a != b,
    {
        let i = choose|i: int| #[trigger] first_difference(a.key(), b.key(), i) && a.key()[i] < b.key()[i];
        if b.before(a) {
            let j = choose|j: int| #[trigger] first_difference(b.key(), a.key(), j) && b.key()[j] < a.key()[j];
            assert(i == j);
        }
    }

    /// The order is transitive.
    pub proof fn order_is_transitive(a: Cid, b: Cid, c: Cid)
        requires
            a.before(b),
            b.before(c),
        ensures
            a.before(c),
    {
        let i = choose|i: int| #[trigger] first_difference(a.key(), b.key(), i) && a.key()[i] < b.key()[i];
        let j = choose|j: int| #[trigger] first_difference(b.key(), c.key(), j) && b.key()[j] < c.key()[j];
        let k = if i < j { i } else { j };
        assert(first_difference(a.key(), c.key(), k));
    }

    proof fn lemma_key_identifies(a: Cid, b: Cid)
        requires
            a.key() == b.key(),
        ensures
            a == b,
    {
        assert(a.key()[0] == a.version && b.key()[0] == b.version);
        assert(a.key()[1] == a.codec && b.key()[1] == b.codec);
        assert(a.key()[2] == a.hash_code && b.key()[2] == b.hash_code);
        assert(a.key()[3] == a.size && b.key()[3] == b.size);
        assert forall|i: int| 0 <= i < 64 implies a.digest[i] == b.digest[i] by {
            assert(a.key()[i + 4] == a.digest[i] as int);
            assert(b.key()[i + 4] == b.digest[i] as int);
        }
        assert(a.digest =~= b.digest);
    }

    fn key_at(&self, i: usize) -> (r: u64)
        requires
            i < 68,
        ensures
            r == self.key()[i as int],
    {
        if i == 0 {
            self.version
        } else if i == 1 {
            self.codec
        } else if i == 2 {
            self.hash_code
        } else if i == 3 {
            self.size as u64
        } else {
            self.digest[i - 4] as u64
        }
    }

    /// Compares two identifiers.
    pub fn order(&self, other: &Cid) -> (r: Order)
        ensures
            r == Order::Less <==> self.before(*other),
            r == Order::Equal <==> *self == *other,
            r == Order::Greater <==> other.before(*self),
    {
        let mut i: usize = 0;
        while i < 68
            invariant
                i <= 68,
                forall|j: int| 0 <= j < i ==> self.key()[j] == other.key()[j],
            decreases 68 - i,
        {
            let a: u64 = self.key_at(i);
            let b: u64 = other.key_at(i);
            if a != b {
                proof {
                    assert(first_difference(self.key(), other.key(), i as int));
                    assert(first_difference(other.key(), self.key(), i as int));
                    if a < b {
                        Cid::order_is_strict(*self, *other);
                    } else {
                        Cid::order_is_strict(*other, *self);
                    }
                }
                return if a < b {
                    Order::Less
                } else {
                    Order::Greater
                };
            }
            i = i + 1;
        }
        proof {
            assert(self.key() =~= other.key());
            Cid::lemma_key_identifies(*self, *other);
            if self.before(*other) {
                Cid::order_is_strict(*self, *other);
            }
        }
        Order::Equal
    }

    /// An identifier of the given parts, or nothing if there is none.
    pub fn from_parts(version: u64, codec: u64, hash_code: u64, digest: &[u8]) -> (r: Option<Cid>)
        ensures
            ({
                let parts = CidParts { version, codec, hash_code, digest: digest@ };
                match r {
                    Some(cid) => parts.valid() && cid.stored() && cid.parts() == parts,
                    None => !parts.valid(),
                }
            }),
    {
        if version > 1 || digest.len() > 64 {
            return None;
        }
        if version == 0 && (codec != CODEC_DAG_PB || hash_code != HASH_SHA2_256 || digest.len()
            != 32) {
            return None;
        }
        let mut padded: [u8; 64] = [0u8; 64];
        let mut i: usize = 0;
        while i < 64
            invariant
                i <= 64,
                digest.len() <= 64,
                forall|j: int| 0 <= j < i && j < digest.len() ==> padded[j] == digest[j],
                forall|j: int| 0 <= j < i && digest.len() <= j ==> padded[j] == 0,
            decreases 64 - i,
        {
            padded[i] = if i < digest.len() {
                digest[i]
            } else {
                0
            };
            i = i + 1;
        }
        proof {
            assert(padded@.take(digest.len() as int) =~= digest@);
        }
        Some(Cid { version, codec, hash_code, size: digest.len() as u8, digest: padded })
    }

    /// A version 1 identifier. The digest has at most 64 bytes.
    pub fn new_v1(codec: u64, hash_code: u64, digest: &[u8]) -> (r: Cid)
        requires
            digest.len() <= 64,
        ensures
            r.stored(),
            r.parts() == (CidParts { version: 1, codec, hash_code, digest: digest@ }),
    {
        match Cid::from_parts(1, codec, hash_code, digest) {
            Some(cid) => cid,
            None => Cid::default(),
        }
    }

    /// 0 or 1.
    pub fn version(&self) -> (r: u64)
        ensures
            r == self.parts().version,
    {
        self.version
    }

    /// The multicodec code of the block's encoding.
    pub fn codec(&self) -> (r: u64)
        ensures
            r == self.parts().codec,
    {
        self.codec
    }

    /// The multihash code of the hash function.
    pub fn hash_code(&self) -> (r: u64)
        ensures
            r == self.parts().hash_code,
    {
        self.hash_code
    }

    /// The digest of the block's bytes.
    pub fn digest(&self) -> (r: Vec<u8>)
        ensures
            r@ == self.parts().digest,
    {
        proof {
            use_type_invariant(self);
        }
        let mut out: Vec<u8> = Vec::new();
        let mut i: usize = 0;
        while i < self.size as usize
            invariant
                i <= self.size <= 64,
                out@ == self.digest@.take(i as int),
            decreases self.size - i,
        {
            out.push(self.digest[i]);
            proof {
                assert(self.digest@.take(i + 1) =~= self.digest@.take(i as int).push(
                    self.digest[i as int],
                ));
            }
            i = i + 1;
        }
        out
    }

    /// The binary form of an identifier.
    pub fn to_bytes(&self) -> (r: Vec<u8>)
        ensures
            r@ == self.parts().encoding(),
    {
        let digest = self.digest();
        proof {
            use_type_invariant(self);
        }
        cid_to_bytes(self.version, self.codec, self.hash_code, digest.as_slice())
    }
}

/// `Cid::to_bytes` of the outside identifier that `Cid::new` and `Multihash::wrap` make of the
/// given parts. For valid parts neither refuses them; the bytes are the version and the codec,
/// which version 0 leaves out, the code of the hash function and the length of the digest, all as
/// unsigned varints, followed by the digest.
#[verifier::external_body]
fn cid_to_bytes(version: u64, codec: u64, hash_code: u64, digest: &[u8]) -> (r: Vec<u8>)
    requires
        (CidParts { version, codec, hash_code, digest: digest@ }).valid(),
    ensures
        r@ == (CidParts { version, codec, hash_code, digest: digest@ }).encoding(),
{
    let version = libipld_core::cid::Version::try_from(version).expect("a known version");
    let hash = libipld_core::multihash::Multihash::wrap(hash_code, digest).expect("a short digest");
    let cid = libipld_core::cid::Cid::new(version, codec, hash).expect("a valid combination");
    cid.to_bytes()
}

impl Default for Cid {
    /// The identifier of no block: version 1, codec 0, hash function 0 and an empty digest.
    fn default() -> (r: Cid)
        ensures
            r.stored(),
            r.parts() == (CidParts { version: 1, codec: 0, hash_code: 0, digest: Seq::empty() }),
    {
        let mut digest: [u8; 64] = [0u8; 64];
        let mut i: usize = 0;
        while i < 64
            invariant
                i <= 64,
                forall|j: int| 0 <= j < i ==> digest[j] == 0,
            decreases 64 - i,
        {
            digest[i] = 0;
            i = i + 1;
        }
        let r = Cid { version: 1, codec: 0, hash_code: 0, size: 0, digest };
        proof {
            assert(r.digest@.take(0) =~= Seq::<u8>::empty());
        }
        r
    }
}

impl PartialEq for Cid {
    fn eq(&self, other: &Cid) -> (r: bool) {
        match self.order(other) {
            Order::Equal => true,
            _ => false,
        }
    }
}

impl vstd::std_specs::cmp::PartialEqSpecImpl for Cid {
    open spec fn obeys_eq_spec() -> bool {
        true
    }

    open spec fn eq_spec(&self, other: &Cid) -> bool {
        *self == *other
    }
}

/// The order of what identifiers say: by the version, then by the codec, then by the hash function, then
/// by the length of the digest, and then by the first byte of the digest that differs.
pub open spec fn parts_before(a: CidParts, b: CidParts) -> bool {
    if a.version != b.version {
        a.version < b.version
    } else if a.codec != b.codec {
        a.codec < b.codec
    } else if a.hash_code != b.hash_code {
        a.hash_code < b.hash_code
    } else if a.digest.len() != b.digest.len() {
        a.digest.len() < b.digest.len()
    } else {
        exists|i: int| #[trigger] digests_differ_at(a, b, i) && a.digest[i] < b.digest[i]
    }
}

/// Whether two digests of one length differ for the first time at an index.
pub open spec fn digests_differ_at(a: CidParts, b: CidParts, i: int) -> bool {
    &&& 0 <= i < a.digest.len()
    &&& a.digest[i] != b.digest[i]
    &&& forall|j: int| 0 <= j < i ==> a.digest[j] == b.digest[j]
}

/// Identifiers are ordered by what they say.
pub proof fn order_goes_by_parts(a: Cid, b: Cid)
    requires
        a.stored(),
        b.stored(),
    ensures
        a.before(b) <==> parts_before(a.parts(), b.parts()),
{
    let (p, q) = (a.parts(), b.parts());
    assert(a.key()[0] == p.version && b.key()[0] == q.version);
    assert(a.key()[1] == p.codec && b.key()[1] == q.codec);
    assert(a.key()[2] == p.hash_code && b.key()[2] == q.hash_code);
    assert(a.key()[3] == p.digest.len() && b.key()[3] == q.digest.len());
    assert forall|i: int| 0 <= i < p.digest.len() implies #[trigger] a.key()[i + 4] == p.digest[i] by {}
    assert forall|i: int| 0 <= i < q.digest.len() implies #[trigger] b.key()[i + 4] == q.digest[i] by {}
    if p.version != q.version {
        assert(first_difference(a.key(), b.key(), 0));
        lemma_one_first_difference(a.key(), b.key(), 0);
    } else if p.codec != q.codec {
        assert(first_difference(a.key(), b.key(), 1));
        lemma_one_first_difference(a.key(), b.key(), 1);
    } else if p.hash_code != q.hash_code {
        assert(first_difference(a.key(), b.key(), 2));
        lemma_one_first_difference(a.key(), b.key(), 2);
    } else if p.digest.len() != q.digest.len() {
        assert(first_difference(a.key(), b.key(), 3));
        lemma_one_first_difference(a.key(), b.key(), 3);
    } else {
        if a.before(b) {
            let k = choose|k: int| #[trigger]
                first_difference(a.key(), b.key(), k) && a.key()[k] < b.key()[k];
            assert(k >= 4);
            assert(k - 4 < p.digest.len()) by {
                if k - 4 >= p.digest.len() {
                    assert(a.key()[k] == a.digest[k - 4] && b.key()[k] == b.digest[k - 4]);
                }
            }
            assert(a.key()[k - 4 + 4] == p.digest[k - 4]);
            assert(b.key()[k - 4 + 4] == q.digest[k - 4]);
            assert forall|j: int| 0 <= j < k - 4 implies p.digest[j] == q.digest[j] by {
                assert(a.key()[j + 4] == b.key()[j + 4]);
            }
            assert(digests_differ_at(p, q, k - 4));
        }
        if parts_before(p, q) {
            let i = choose|i: int| #[trigger]
                digests_differ_at(p, q, i) && p.digest[i] < q.digest[i];
            assert(a.key()[i + 4] == p.digest[i] && b.key()[i + 4] == q.digest[i]);
            assert forall|j: int| 0 <= j < i + 4 implies a.key()[j] == b.key()[j] by {
                if j >= 4 {
                    assert(a.key()[j - 4 + 4] == p.digest[j - 4]);
                    assert(b.key()[j - 4 + 4] == q.digest[j - 4]);
                }
            }
            assert(first_difference(a.key(), b.key(), i + 4));
        }
    }
}

proof fn lemma_one_first_difference(a: Seq<int>, b: Seq<int>, i: int)
    requires
        first_difference(a, b, i),
    ensures
        seq_before(a, b) <==> a[i] < b[i],
{
    if seq_before(a, b) {
        let k = choose|k: int| #[trigger] first_difference(a, b, k) && a[k] < b[k];
        assert(k == i);
    }
}

/// There is an identifier of version 1 for any codec, hash function and digest of up to 64 bytes, one of
/// version 0 for any SHA2-256 digest of a DAG-PB block, and no other. It says what it was made of.
pub proof fn identifiers_are_made_of_parts(
    version: u64,
    codec: u64,
    hash_code: u64,
    digest: &[u8],
    r: Option<Cid>,
)
    requires
        call_ensures(Cid::from_parts, (version, codec, hash_code, digest), r),
    ensures
        r is Some <==> (version == 1 && digest.len() <= 64) || (version == 0 && codec == 0x70
            && hash_code == 0x12 && digest.len() == 32),
        r matches Some(cid) ==> cid.parts() == (CidParts {
            version,
            codec,
            hash_code,
            digest: digest@,
        }),
{
}

/// The number that an unsigned varint stands for.
pub open spec fn uvarint_value(bytes: Seq<u8>) -> nat
    decreases bytes.len(),
{
    if bytes.len() == 0 {
        0
    } else {
        bytes[0] as nat % 128 + 128 * uvarint_value(bytes.drop_first())
    }
}

/// An unsigned varint stands for the number that it is made of, and all of its bytes but the last say
/// that there are more.
pub proof fn uvarints_are_read_back(n: nat)
    ensures
        uvarint_value(uvarint(n)) == n,
        forall|i: int|
            0 <= i < uvarint(n).len() ==> ((#[trigger] uvarint(n)[i]) >= 128 <==> i < uvarint(
                n,
            ).len() - 1),
    decreases n,
{
    let bytes = uvarint(n);
    lemma_uvarint_is_not_empty(n);
    if n >= 128 {
        let rest = uvarint(n / 128);
        lemma_uvarint_is_not_empty(n / 128);
        uvarints_are_read_back(n / 128);
        assert(bytes.drop_first() =~= rest);
        assert(uvarint_value(rest) == n / 128);
        assert forall|i: int| 0 <= i < bytes.len() implies ((#[trigger] bytes[i]) >= 128 <==> i
            < bytes.len() - 1) by {
            if i > 0 {
                assert(bytes[i] == rest[i - 1]);
            }
        }
    } else {
        assert(bytes.drop_first() =~= Seq::<u8>::empty());
        assert(uvarint_value(Seq::<u8>::empty()) == 0);
    }
}

proof fn lemma_uvarints_end_by_themselves(m: nat, n: nat, x: Seq<u8>, y: Seq<u8>)
    requires
        uvarint(m) + x == uvarint(n) + y,
    ensures
        m == n,
        x == y,
    decreases m,
{
    let s = uvarint(m) + x;
    lemma_uvarint_is_not_empty(m);
    lemma_uvarint_is_not_empty(n);
    assert(s[0] == uvarint(m)[0]);
    assert((uvarint(n) + y)[0] == uvarint(n)[0]);
    if m < 128 {
        assert(n < 128);
        assert(s.skip(1) =~= x);
        assert((uvarint(n) + y).skip(1) =~= y);
    } else {
        assert(n >= 128);
        assert(s.skip(1) =~= uvarint(m / 128) + x);
        assert((uvarint(n) + y).skip(1) =~= uvarint(n / 128) + y);
        lemma_uvarints_end_by_themselves(m / 128, n / 128, x, y);
    }
}

/// No two identifiers have the same binary form.
pub proof fn encodings_identify(a: CidParts, b: CidParts)
    requires
        a.valid(),
        b.valid(),
        a.encoding() == b.encoding(),
    ensures
        a == b,
{
    let hash_a = uvarint(a.hash_code as nat) + uvarint(a.digest.len()) + a.digest;
    let hash_b = uvarint(b.hash_code as nat) + uvarint(b.digest.len()) + b.digest;
    let rest_a = uvarint(a.codec as nat) + hash_a;
    let rest_b = uvarint(b.codec as nat) + hash_b;
    if a.version == 1 {
        assert(a.encoding() =~= uvarint(1) + rest_a);
    }
    if b.version == 1 {
        assert(b.encoding() =~= uvarint(1) + rest_b);
    }
    assert(hash_a =~= uvarint(a.hash_code as nat) + (uvarint(a.digest.len()) + a.digest));
    assert(hash_b =~= uvarint(b.hash_code as nat) + (uvarint(b.digest.len()) + b.digest));
    if a.version != b.version {
        if a.version == 1 {
            lemma_uvarints_end_by_themselves(
                1,
                b.hash_code as nat,
                rest_a,
                uvarint(b.digest.len()) + b.digest,
            );
        } else {
            lemma_uvarints_end_by_themselves(
                1,
                a.hash_code as nat,
                rest_b,
                uvarint(a.digest.len()) + a.digest,
            );
        }
    } else {
        if a.version == 1 {
            lemma_uvarints_end_by_themselves(1, 1, rest_a, rest_b);
            lemma_uvarints_end_by_themselves(a.codec as nat, b.codec as nat, hash_a, hash_b);
        }
        lemma_uvarints_end_by_themselves(
            a.hash_code as nat,
            b.hash_code as nat,
            uvarint(a.digest.len()) + a.digest,
            uvarint(b.digest.len()) + b.digest,
        );
        lemma_uvarints_end_by_themselves(
            a.digest.len(),
            b.digest.len(),
            a.digest,
            b.digest,
        );
    }
}

/// An identifier gives back the parts that it was made of, and its binary form ends with the digest.
pub proof fn identifiers_give_back_their_parts(
    version: u64,
    codec: u64,
    hash_code: u64,
    digest: &[u8],
    cid: Cid,
    said: (u64, u64, u64, Vec<u8>),
    bytes: Vec<u8>,
)
    requires
        call_ensures(Cid::from_parts, (version, codec, hash_code, digest), Some(cid)) || (version
            == 1 && call_ensures(Cid::new_v1, (codec, hash_code, digest), cid)),
        call_ensures(Cid::version, (&cid,), said.0),
        call_ensures(Cid::codec, (&cid,), said.1),
        call_ensures(Cid::hash_code, (&cid,), said.2),
        call_ensures(Cid::digest, (&cid,), said.3),
        call_ensures(Cid::to_bytes, (&cid,), bytes),
    ensures
        said.0 == version && said.1 == codec && said.2 == hash_code && said.3@ == digest@,
        bytes@.len() >= digest@.len(),
        bytes@.skip(bytes@.len() - digest@.len()) == digest@,
{
    assert(bytes@.skip(bytes@.len() - digest@.len()) =~= digest@);
}

/// Identifiers are equal exactly if they say the same, and else they are ordered.
pub proof fn identifiers_are_compared(a: Cid, b: Cid, r: Order)
    requires
        a.stored(),
        b.stored(),
        call_ensures(Cid::order, (&a, &b), r),
    ensures
        r == Order::Equal <==> a.parts() == b.parts(),
        r == Order::Less <==> parts_before(a.parts(), b.parts()),
        r == Order::Greater <==> parts_before(b.parts(), a.parts()),
{
    order_goes_by_parts(a, b);
    order_goes_by_parts(b, a);
    Cid::order_is_total(a, b);
    if a.parts() == b.parts() {
        Cid::parts_identify(a, b);
    }
    if a.before(b) {
        Cid::order_is_strict(a, b);
    }
    if b.before(a) {
        Cid::order_is_strict(b, a);
    }
}

/// The identifier of no block comes before all others of its version, and stands for no bytes at all.
pub proof fn default_identifiers_come_first(r: Cid, other: Cid)
    requires
        call_ensures(<Cid as Default>::default, (), r),
        other.stored(),
        other.parts().version == r.parts().version,
    ensures
        r.parts().version == 1,
        r.parts().digest.len() == 0,
        r == other || r.before(other),
{
    order_goes_by_parts(r, other);
    let (p, q) = (r.parts(), other.parts());
    if p.codec == q.codec && p.hash_code == q.hash_code && p.digest.len() == q.digest.len() {
        assert(p.digest =~= q.digest);
        Cid::parts_identify(r, other);
    }
}

} // verus!
