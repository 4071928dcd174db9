//! What can go wrong in a transfer.

use crate::cid::Cid;
use crate::incremental_verification::BlockState;
use crate::ipld::ReferencesError;
use iroh_car::Error as CarError;
use vstd::prelude::*;

verus! {

/// `iroh_car::Error`, the error of the CAR reader and writer.
#[verifier::external_type_specification]
#[verifier::external_body]
pub struct ExCarError(CarError);

/// A transfer that failed.
#[derive(Debug)]
pub enum Error {
    /// A message is larger than the recipient accepts.
    TooManyBytes {
        /// The largest number of bytes accepted.
        receive_maximum: usize,
        /// The number of bytes of the message.
        bytes_read: usize,
    },
    /// A block is larger than the recipient accepts.
    BlockSizeExceeded {
        /// The identifier of the block.
        cid: Cid,
        /// The number of bytes of the block.
        block_bytes: usize,
        /// The largest number of bytes accepted.
        max_block_size: usize,
    },
    /// The hash function of an identifier is not supported.
    UnsupportedHashCode {
        /// The identifier.
        cid: Cid,
    },
    /// A block that is needed is not in the store.
    CidNotFound {
        /// The identifier of the block.
        cid: Cid,
    },
    /// The links of a block could not be read.
    ParsingError(ReferencesError),
    /// A block did not pass verification.
    IncrementalVerificationError(IncrementalVerificationError),
    /// A CAR file could not be read or written.
    CarFileError(CarError),
}

/// A block that did not pass verification.
#[derive(Clone, Copy, Debug, PartialEq, Eq)]
pub enum IncrementalVerificationError {
    /// The block is not one of those that are to be received next.
    ExpectedWantedBlock {
        /// The identifier of the block.
        cid: Cid,
        /// What is known of the block.
        block_state: BlockState,
    },
    /// The block's bytes do not have the digest that its identifier gives.
    DigestMismatch {
        /// The identifier that came with the block.
        cid: Cid,
        /// The identifier that the bytes have.
        actual_cid: Cid,
    },
}

} // verus!
