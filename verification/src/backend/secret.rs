//! The endpoint's secret key file.

use vstd::prelude::*;

verus! {

/// The file that holds the endpoint's secret key.
pub const KEY_FILE: &'static str = "endpoint.key";

/// Why stored key bytes were refused.
#[derive(Debug, PartialEq, Eq, Structural)]
pub enum KeyError {
    /// The bytes are not exactly 32.
    WrongLength,
    /// The 32 bytes are not a valid endpoint identifier (a public key).
    InvalidEndpointId,
}

/// The 32 bytes of a key read from a file: exactly 32 bytes are required.
pub fn key_from_bytes(bytes: &[u8]) -> (r: Result<[u8; 32], KeyError>)
    ensures
        r is Ok <==> bytes@.len() == 32,
        r matches Ok(a) ==> a@ == bytes@,
        r matches Err(e) ==> e == KeyError::WrongLength,
{
    if bytes.len() != 32 {
        return Err(KeyError::WrongLength);
    }
    let mut a = [0u8; 32];
    for i in 0..32
        invariant
            bytes@.len() == 32,
            forall|k: int| 0 <= k < i ==> a@[k] == bytes@[k],
    {
        a[i] = bytes[i];
    }
    assert(a@ =~= bytes@);
    Ok(a)
}

} // verus!
