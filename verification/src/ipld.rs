//! What the bytes of a block say: the blocks it links to, and its digest.

use crate::cbor;
use crate::cid::{Cid, CidParts, CODEC_DAG_CBOR, CODEC_DAG_JSON, CODEC_DAG_PB, CODEC_RAW};
use anyhow::Error as AnyhowError;
use libipld::{Ipld, IpldCodec};
use libipld_core::codec::References;
use libipld_core::multihash::{Code, MultihashDigest};
use std::io::Cursor;
use vstd::prelude::*;

verus! {

/// `anyhow::Error`, the error of the outside parsers.
#[verifier::external_type_specification]
#[verifier::external_body]
pub struct ExAnyhowError(AnyhowError);

/// Why the links of a block could not be read.
#[derive(Clone, Copy, Debug, PartialEq, Eq)]
pub enum ReferencesError {
    /// No parser for the codec of this identifier is known.
    UnsupportedCodec {
        /// The identifier of the block.
        cid: Cid,
    },
    /// The bytes are not a block of the codec of this identifier.
    Undecodable {
        /// The identifier of the block.
        cid: Cid,
    },
}

/// The codecs whose links can be read.
pub open spec fn codec_supported(codec: u64) -> bool {
    codec == CODEC_RAW || codec == CODEC_DAG_PB || codec == CODEC_DAG_CBOR || codec
        == CODEC_DAG_JSON
}

/// The hash functions that can be computed: SHA2 and SHA3, Keccak and BLAKE3, BLAKE2b and BLAKE2s.
pub open spec fn hash_supported(code: u64) -> bool {
    ||| 0x12 <= code <= 0x17
    ||| 0x1a <= code <= 0x1e
    ||| code == 0xb220 || code == 0xb240 || code == 0xb250 || code == 0xb260
}

/// The links that the outside parser of a codec finds in a block, or nothing if it refuses the
/// block.
pub uninterp spec fn parsed_links(codec: u64, block: Seq<u8>) -> Option<Seq<CidParts>>;

/// The digest that the outside implementation of a hash function computes.
pub uninterp spec fn digest_of(code: u64, data: Seq<u8>) -> Seq<u8>;

/// The parts of an identifier as plain values.
pub open spec fn plain_parts(p: (u64, u64, u64, Vec<u8>)) -> CidParts {
    CidParts { version: p.0, codec: p.1, hash_code: p.2, digest: p.3@ }
}

/// The parts of several identifiers as plain values.
pub open spec fn plain_links(links: Seq<(u64, u64, u64, Vec<u8>)>) -> Seq<CidParts> {
    links.map_values(|p: (u64, u64, u64, Vec<u8>)| plain_parts(p))
}

/// `<Ipld as References<IpldCodec>>::references` for the codec that `IpldCodec::try_from` makes of
/// the code, with the links taken apart. A raw block has no links. The parser of DAG-CBOR follows
/// the headers of the items, so it is only given blocks where these lead somewhere, and it descends
/// into nested items by recursion, so it is only given blocks that are not nested too deep for that.
#[verifier::external_body]
fn ipld_references(codec: u64, block: &[u8]) -> (r: Result<
    Vec<(u64, u64, u64, Vec<u8>)>,
    AnyhowError,
>)
    requires
        codec_supported(codec),
        codec == CODEC_DAG_CBOR ==> cbor::walkable(block@) && cbor::shallow(block@),
    ensures
        r is Ok <==> parsed_links(codec, block@) is Some,
        r is Ok ==> plain_links(r->Ok_0@) == parsed_links(codec, block@)->0,
        codec == CODEC_RAW ==> r is Ok && r->Ok_0@.len() == 0,
{
    let codec = IpldCodec::try_from(codec)?;
    let mut links: Vec<libipld_core::cid::Cid> = Vec::new();
    <Ipld as References<IpldCodec>>::references(codec, &mut Cursor::new(block), &mut links)?;
    Ok(
        links.iter().map(
            |c| (c.version().into(), c.codec(), c.hash().code(), c.hash().digest().to_vec()),
        ).collect(),
    )
}

/// `MultihashDigest::digest` of the hash function that `Code::try_from` makes of the code. The
/// digest is at most 64 bytes long.
#[verifier::external_body]
pub(crate) fn multihash_digest(code: u64, data: &[u8]) -> (r: Option<Vec<u8>>)
    ensures
        match r {
            Some(digest) => hash_supported(code) && digest@ == digest_of(code, data@)
                && digest.len() <= 64,
            None => !hash_supported(code),
        },
{
    let code = Code::try_from(code).ok()?;
    Some(code.digest(data).digest().to_vec())
}

/// The identifier with the given parts.
pub open spec fn cid_of(parts: CidParts) -> Cid {
    choose|c: Cid| c.stored() && c.parts() == parts
}

/// Every identifier is the one with its parts.
pub proof fn cid_of_parts(cid: Cid)
    requires
        cid.stored(),
    ensures
        cid_of(cid.parts()) == cid,
{
    let c = cid_of(cid.parts());
    assert(c.stored() && c.parts() == cid.parts());
    Cid::parts_identify(c, cid);
}

/// Whether some identifiers are those with the given parts, in this order.
pub open spec fn are_cids_of(cids: Seq<Cid>, links: Seq<CidParts>) -> bool {
    &&& cids.len() == links.len()
    &&& forall|i: int|
        0 <= i < cids.len() ==> (#[trigger] cids[i]).stored() && cids[i].parts() == links[i]
}

/// The links that the outside parser of DAG-CBOR finds in several items, or nothing if it refuses one
/// of them.
pub open spec fn joined_links(items: Seq<Seq<u8>>) -> Option<Seq<CidParts>>
    decreases items.len(),
{
    if items.len() == 0 {
        Some(Seq::empty())
    } else {
        match (joined_links(items.drop_last()), parsed_links(CODEC_DAG_CBOR, items.last())) {
            (Some(links), Some(more)) => Some(links + more),
            _ => None,
        }
    }
}

/// The parts of the links of a block. The links of a DAG-CBOR block that is nested too deep for the
/// outside parser are parsed one by one.
pub open spec fn link_parts(codec: u64, block: Seq<u8>) -> Option<Seq<CidParts>> {
    if codec == CODEC_DAG_CBOR && !cbor::walkable(block) {
        None
    } else if codec == CODEC_DAG_CBOR && !cbor::shallow(block) {
        joined_links(cbor::link_items(block))
    } else {
        parsed_links(codec, block)
    }
}

/// The links of a block with the given codec, in the order in which they stand in it, or nothing
/// if the block cannot be read. A raw block has none.
pub open spec fn block_links(codec: u64, block: Seq<u8>) -> Option<Seq<Cid>> {
    if codec == CODEC_RAW {
        Some(Seq::empty())
    } else if !codec_supported(codec) {
        None
    } else {
        match link_parts(codec, block) {
            Some(links) => if forall|i: int| 0 <= i < links.len() ==> (#[trigger] links[i]).valid() {
                Some(links.map_values(|p: CidParts| cid_of(p)))
            } else {
                None
            },
            None => None,
        }
    }
}

/// Decides whether the links of a codec can be read.
pub fn is_codec_supported(codec: u64) -> (r: bool)
    ensures
        r == codec_supported(codec),
{
    codec == CODEC_RAW || codec == CODEC_DAG_PB || codec == CODEC_DAG_CBOR || codec
        == CODEC_DAG_JSON
}

proof fn lemma_joined_links_go_on(items: Seq<Seq<u8>>, n: int)
    requires
        0 <= n <= items.len(),
        joined_links(items.take(n)) is None,
    ensures
        joined_links(items) is None,
    decreases items.len() - n,
{
    if n < items.len() {
        assert(items.take(n + 1).drop_last() =~= items.take(n));
        lemma_joined_links_go_on(items, n + 1);
    } else {
        assert(items.take(n) =~= items);
    }
}

/// Parses the links of a DAG-CBOR block one by one.
fn parse_link_items(block: &[u8], frame: &cbor::Frame) -> (r: Option<
    Vec<(u64, u64, u64, Vec<u8>)>,
>)
    requires
        frame.describes(block@),
    ensures
        match r {
            Some(links) => joined_links(cbor::link_items(block@)) == Some(plain_links(links@)),
            None => joined_links(cbor::link_items(block@)) is None,
        },
{
    let ghost items = cbor::link_items(block@);
    let mut links: Vec<(u64, u64, u64, Vec<u8>)> = Vec::new();
    let mut i: usize = 0;
    proof {
        cbor::link_items_are_links(block@);
        assert(items.take(0) =~= Seq::<Seq<u8>>::empty());
        assert(plain_links(links@) =~= Seq::<CidParts>::empty());
    }
    while i < frame.links.len()
        invariant
            i <= frame.links.len(),
            frame.describes(block@),
            items == cbor::link_items(block@),
            forall|j: int| 0 <= j < items.len() ==> cbor::is_link_item(#[trigger] items[j]),
            joined_links(items.take(i as int)) == Some(plain_links(links@)),
        decreases frame.links.len() - i,
    {
        let (start, end) = frame.links[i];
        let part = vstd::slice::slice_subrange(block, start, end);
        proof {
            assert(cbor::parts_of(block@, frame.links@)[i as int] == items[i as int]);
            assert(part@ == items[i as int]);
            assert(items.take(i + 1).drop_last() =~= items.take(i as int));
            assert(items.take(i + 1).last() == part@);
            cbor::link_item_stands_alone(part@);
        }
        match ipld_references(CODEC_DAG_CBOR, part) {
            Ok(more) => {
                let ghost earlier = links@;
                let ghost added = more@;
                let mut more = more;
                links.append(&mut more);
                proof {
                    assert(plain_links(links@) =~= plain_links(earlier) + plain_links(added));
                }
            },
            Err(_) => {
                proof {
                    lemma_joined_links_go_on(items, i + 1);
                }
                return None;
            },
        }
        i = i + 1;
    }
    proof {
        assert(items.take(i as int) =~= items);
    }
    Some(links)
}

/// Reads the parts of the links of a block.
fn read_links(codec: u64, block: &[u8]) -> (r: Option<Vec<(u64, u64, u64, Vec<u8>)>>)
    requires
        codec_supported(codec),
    ensures
        match r {
            Some(links) => link_parts(codec, block@) == Some(plain_links(links@)),
            None => link_parts(codec, block@) is None,
        },
        codec == CODEC_RAW ==> r is Some && r->0@.len() == 0,
{
    if codec == CODEC_DAG_CBOR {
        match cbor::read_frame(block) {
            Some(frame) => {
                if !frame.is_shallow {
                    return parse_link_items(block, &frame);
                }
            },
            None => {
                return None;
            },
        }
    }
    match ipld_references(codec, block) {
        Ok(links) => Some(links),
        Err(_) => None,
    }
}

/// Appends the identifiers of all blocks that a block links to.
///
/// Fails if the codec is not supported, or if the block cannot be parsed. A raw block links to nothing.
pub fn references(cid: Cid, block: &[u8], refs: Vec<Cid>) -> (r: Result<Vec<Cid>, ReferencesError>)
    ensures
        match r {
            Ok(all) => block_links(cid.parts().codec, block@) is Some && all@ == refs@
                + block_links(cid.parts().codec, block@)->0,
            Err(ReferencesError::UnsupportedCodec { cid: c }) => c == cid && !codec_supported(
                cid.parts().codec,
            ),
            Err(ReferencesError::Undecodable { cid: c }) => c == cid && codec_supported(
                cid.parts().codec,
            ) && block_links(cid.parts().codec, block@) is None,
        },
        cid.parts().codec == CODEC_RAW ==> r is Ok && r->Ok_0@ == refs@,
        r is Ok && cid.parts().codec != CODEC_RAW ==> are_cids_of(
            r->Ok_0@.skip(refs@.len() as int),
            link_parts(cid.parts().codec, block@)->0,
        ),
{
    let codec: u64 = cid.codec();
    if !is_codec_supported(codec) {
        return Err(ReferencesError::UnsupportedCodec { cid });
    }
    match read_links(codec, block) {
        Some(links) => {
            let ghost parsed = plain_links(links@);
            proof {
                assert(forall|i: int|
                    0 <= i < parsed.len() ==> #[trigger] parsed[i] == plain_parts(links@[i]));
            }
            match append_links(links.as_slice(), refs) {
                Some(all) => Ok(all),
                None => {
                    proof {
                        let i = choose|i: int|
                            0 <= i < links.len() && !plain_parts(#[trigger] links@[i]).valid();
                        assert(!parsed[i].valid());
                    }
                    Err(ReferencesError::Undecodable { cid })
                },
            }
        },
        None => Err(ReferencesError::Undecodable { cid }),
    }
}

/// Appends the identifiers with the given parts, or fails if one of them is not valid.
pub fn append_links(links: &[(u64, u64, u64, Vec<u8>)], refs: Vec<Cid>) -> (r: Option<Vec<Cid>>)
    ensures
        match r {
            Some(all) => {
                &&& forall|i: int|
                    0 <= i < links.len() ==> plain_parts(#[trigger] links@[i]).valid()
                &&& all@ == refs@ + plain_links(links@).map_values(|p: CidParts| cid_of(p))
            },
            None => exists|i: int|
                0 <= i < links.len() && !plain_parts(#[trigger] links@[i]).valid(),
        },
        r matches Some(all) ==> are_cids_of(all@.skip(refs@.len() as int), plain_links(links@)),
{
    let mut all: Vec<Cid> = refs;
    let ghost wanted = plain_links(links@).map_values(|p: CidParts| cid_of(p));
    let mut i: usize = 0;
    proof {
        assert(refs@ + wanted.take(0) =~= refs@);
        assert(refs@.skip(refs@.len() as int) =~= Seq::<Cid>::empty());
    }
    while i < links.len()
        invariant
            i <= links.len(),
            wanted == plain_links(links@).map_values(|p: CidParts| cid_of(p)),
            forall|j: int| 0 <= j < i ==> plain_parts(#[trigger] links@[j]).valid(),
            all@ == refs@ + wanted.take(i as int),
            are_cids_of(all@.skip(refs@.len() as int), plain_links(links@).take(i as int)),
        decreases links.len() - i,
    {
        let link = &links[i];
        match Cid::from_parts(link.0, link.1, link.2, link.3.as_slice()) {
            Some(cid) => {
                proof {
                    cid_of_parts(cid);
                    assert(wanted[i as int] == cid);
                    assert(refs@ + wanted.take(i + 1) =~= (refs@ + wanted.take(i as int)).push(
                        cid,
                    ));
                }
                let ghost before = all@.skip(refs@.len() as int);
                all.push(cid);
                proof {
                    assert(all@.skip(refs@.len() as int) =~= before.push(cid));
                    assert(plain_links(links@)[i as int] == plain_parts(links@[i as int]));
                }
            },
            None => {
                proof {
                    assert(!plain_parts(links@[i as int]).valid());
                }
                return None;
            },
        }
        i = i + 1;
    }
    proof {
        assert(wanted.take(i as int) =~= wanted);
        assert(plain_links(links@).take(i as int) =~= plain_links(links@));
    }
    Some(all)
}

} // verus!
