//! Types from outside the library that its values carry without looking inside.

use vstd::prelude::*;

verus! {

/// `std::path::PathBuf`, carried opaquely (commands and arguments name paths
/// that only the program around the library opens).
#[verifier::external_type_specification]
#[verifier::external_body]
pub struct ExPathBuf(std::path::PathBuf);

} // verus!
