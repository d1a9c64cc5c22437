//! The error type of `std::io`, carried by the errors of the commands.

use vstd::prelude::*;

verus! {

/// `std::io::Error`: the commands that read and write files keep the error that
/// the operating system reported as the source of their own errors. Nothing in
/// the library looks into it.
#[verifier::external_type_specification]
#[verifier::external_body]
pub struct ExIoError(std::io::Error);

} // verus!
