//! The checks that every operation makes before it touches a buffer: the
//! initialization gate and the ownership gate, and the errors of both stores.
use vstd::prelude::*;

verus! {

/// Why an operation was refused. Every error leaves every buffer as it was.
#[derive(Clone, Copy, Debug, PartialEq, Eq)]
pub enum PriceDbError {
    AlreadyInitialized,
    Uninitialized,
    MissingAuthorization,
    NotOwner,
    CapacityExceeded,
    KeyNotFound,
    InvalidCommand,
    MalformedBuffer,
    /// The encoded state does not fit in the buffer it is written to.
    BufferTooSmall,
}

/// The identity that submitted an operation, with whether it authorized it.
#[derive(Clone, Copy, Debug, PartialEq, Eq)]
pub struct Signer {
    pub key: [u8; 32],
    pub is_signer: bool,
}

/// A buffer counts as initialized when the sum of its bytes is positive,
/// that is, when some byte is nonzero.
pub open spec fn initialized(data: Seq<u8>) -> bool {
    exists|i: int| 0 <= i < data.len() && data[i] != 0
}

/// The outcome of the ownership gate for `sender` against a stored `owner`.
pub open spec fn owner_gate(sender: Option<Signer>, owner: Seq<u8>) -> Result<(), PriceDbError> {
    match sender {
        None => Err(PriceDbError::MissingAuthorization),
        Some(s) => if !s.is_signer {
            Err(PriceDbError::MissingAuthorization)
        } else if s.key@ != owner {
            Err(PriceDbError::NotOwner)
        } else {
            Ok(())
        },
    }
}

/// Whether the buffer has been initialized: its byte sum is positive.
pub fn is_initialized(data: &Vec<u8>) -> (r: bool)
    ensures
        r == initialized(data@),
{
    let mut i: usize = 0;
    while i < data.len()
        invariant
            0 <= i <= data@.len(),
            forall|j: int| 0 <= j < i ==> data@[j] == 0,
        decreases data@.len() - i,
    {
        if data[i] != 0 {
            return true;
        }
        i += 1;
    }
    false
}

/// The ownership gate: the sender must be present, must have authorized the
/// operation, and must be the stored owner, byte for byte.
pub fn check_owner(sender: &Option<Signer>, owner: &[u8; 32]) -> (r: Result<(), PriceDbError>)
    ensures
        r == owner_gate(*sender, owner@),
{
    match sender {
        None => Err(PriceDbError::MissingAuthorization),
        Some(s) => {
            if !s.is_signer {
                Err(PriceDbError::MissingAuthorization)
            } else if !crate::price::bytes_eq(&s.key, owner) {
                Err(PriceDbError::NotOwner)
            } else {
                Ok(())
            }
        },
    }
}

} // verus!
