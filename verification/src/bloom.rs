//! Bloom filters of the `deterministic-bloom` crate, and what the rest of the library knows of
//! them.

use deterministic_bloom::runtime_size::BloomFilter;
use vstd::prelude::*;

verus! {

/// `deterministic_bloom::runtime_size::BloomFilter`: a number of hash functions and an array of
/// bits.
#[verifier::external_type_specification]
#[verifier::external_body]
pub struct ExBloomFilter(BloomFilter);

/// The array of bits of a filter, as bytes.
pub uninterp spec fn bloom_bits(b: BloomFilter) -> Seq<u8>;

/// The number of hash functions of a filter.
pub uninterp spec fn bloom_hashes(b: BloomFilter) -> nat;

/// What `BloomFilter::contains` says of an element, for a filter with the given number of hash
/// functions and the given bits.
pub uninterp spec fn bloom_hit(hashes: nat, bits: Seq<u8>, element: Seq<u8>) -> bool;

/// The bits that `BloomFilter::insert` leaves.
pub uninterp spec fn bloom_with(hashes: nat, bits: Seq<u8>, element: Seq<u8>) -> Seq<u8>;

/// Whether a filter can be asked: it looks at its bits through a view that counts them in a `usize`
/// and keeps the three highest bits of it for itself, so there may be an eighth as many bits as that,
/// and a sixty-fourth as many bytes.
pub open spec fn bloom_fits(bits: Seq<u8>) -> bool {
    bits.len() * 64 <= usize::MAX
}

/// Whether a filter holds an element.
pub open spec fn in_bloom(b: BloomFilter, element: Seq<u8>) -> bool {
    bloom_hit(bloom_hashes(b), bloom_bits(b), element)
}

/// `BloomFilter::new_with`: the filter of the given components. `BloomFilter::contains` looks for a
/// bit that is not set, so a filter whose bits are all zero, but which has bits and hash functions,
/// holds nothing.
#[verifier::external_body]
pub(crate) fn bloom_from_parts(hashes: usize, bits: Vec<u8>) -> (r: BloomFilter)
    ensures
        bloom_hashes(r) == hashes,
        bloom_bits(r) == bits@,
        hashes > 0 && bits.len() > 0 && (forall|i: int| 0 <= i < bits.len() ==> bits[i] == 0)
            ==> forall|element: Seq<u8>| !(#[trigger] in_bloom(r, element)),
{
    BloomFilter::new_with(hashes, bits.into_boxed_slice())
}

/// `BloomFilter::hash_count`: the number of hash functions.
#[verifier::external_body]
pub(crate) fn bloom_hash_count(b: &BloomFilter) -> (r: usize)
    ensures
        r == bloom_hashes(*b),
{
    b.hash_count()
}

/// `BloomFilter::as_bytes`: the array of bits.
#[verifier::external_body]
pub(crate) fn bloom_as_bytes(b: &BloomFilter) -> (r: &[u8])
    ensures
        r@ == bloom_bits(*b),
{
    b.as_bytes()
}

/// `BloomFilter::contains`: whether every hash function of the element points at a set bit. The
/// filter counts its bits in a part of a `usize`, hence the bound.
#[verifier::external_body]
pub(crate) fn bloom_contains(b: &BloomFilter, element: &[u8]) -> (r: bool)
    requires
        bloom_fits(bloom_bits(*b)),
    ensures
        r == bloom_hit(bloom_hashes(*b), bloom_bits(*b), element@),
{
    b.contains(&element)
}

/// `BloomFilter::insert`: sets the bits that the hash functions of the element point at. The filter
/// holds the element afterwards, and every element that it held before; its shape stays. The filter
/// counts its bits in a part of a `usize`, hence the bound.
#[verifier::external_body]
pub(crate) fn bloom_insert(b: &mut BloomFilter, element: &[u8])
    requires
        bloom_fits(bloom_bits(*old(b))),
    ensures
        bloom_hashes(*final(b)) == bloom_hashes(*old(b)),
        bloom_bits(*final(b)) == bloom_with(
            bloom_hashes(*old(b)),
            bloom_bits(*old(b)),
            element@,
        ),
        bloom_bits(*final(b)).len() == bloom_bits(*old(b)).len(),
        in_bloom(*final(b), element@),
        forall|other: Seq<u8>|
            in_bloom(*old(b), other) ==> #[trigger] in_bloom(*final(b), other),
{
    b.insert(&element)
}

/// The bits of a filter after several elements were inserted.
pub open spec fn bloom_with_all(hashes: nat, bits: Seq<u8>, elements: Seq<Seq<u8>>) -> Seq<u8>
    decreases elements.len(),
{
    if elements.len() == 0 {
        bits
    } else {
        bloom_with(hashes, bloom_with_all(hashes, bits, elements.drop_last()), elements.last())
    }
}

/// Whether a filter is small enough to be asked.
pub fn bloom_is_small(b: &BloomFilter) -> (r: bool)
    ensures
        r == bloom_fits(bloom_bits(*b)),
{
    bloom_as_bytes(b).len() <= usize::MAX / 64
}

} // verus!
