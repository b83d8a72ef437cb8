//! Connecting to a fixed peer without discovery: the peer's identifier, as
//! stored in a file.

use vstd::prelude::*;

use crate::backend::secret::{KeyError, key_from_bytes};

verus! {

/// Whether 32 bytes are a valid endpoint identifier, that is, the
/// compressed form of an ed25519 public key (as `iroh` decides it).
pub uninterp spec fn spec_valid_endpoint_id(b: Seq<u8>) -> bool;

/// `EndpointId::from_bytes` of `iroh`: accepts the bytes when they decode to
/// a curve point; the identifier's bytes are then the bytes given
/// (`as_bytes` returns the compressed form it was built from).
#[verifier::external_body]
fn endpoint_id_from_bytes(bytes: &[u8; 32]) -> (r: Result<[u8; 32], KeyError>)
    ensures
        r is Ok <==> spec_valid_endpoint_id(bytes@),
        r matches Ok(b) ==> b@ == bytes@,
        r matches Err(e) ==> e == KeyError::InvalidEndpointId,
{
    match iroh::EndpointId::from_bytes(bytes) {
        Ok(id) => Ok(*id.as_bytes()),
        Err(_) => Err(KeyError::InvalidEndpointId),
    }
}

/// The peer's identifier from the bytes of the file that holds it: exactly
/// 32 bytes, which must be a valid endpoint identifier.
pub fn endpoint_id_from_file(bytes: &[u8]) -> (r: Result<[u8; 32], KeyError>)
    ensures
        bytes@.len() != 32 ==> r == Err::<[u8; 32], KeyError>(KeyError::WrongLength),
        bytes@.len() == 32 ==> {
            &&& (r is Ok <==> spec_valid_endpoint_id(bytes@))
            &&& (r matches Ok(b) ==> b@ == bytes@)
            &&& (r matches Err(e) ==> e == KeyError::InvalidEndpointId)
        },
{
    match key_from_bytes(bytes) {
        Ok(a) => endpoint_id_from_bytes(&a),
        Err(e) => Err(e),
    }
}

} // verus!
