use vstd::prelude::*;

verus! {

/// `std::io::Error`, carried through the library's error type.
#[verifier::external_type_specification]
#[verifier::external_body]
pub struct ExIoError(std::io::Error);

/// `core::num::ParseIntError`, carried through the library's error type.
#[verifier::external_type_specification]
#[verifier::external_body]
pub struct ExParseIntError(core::num::ParseIntError);

/// `std::string::FromUtf8Error`, carried through the library's error type.
#[verifier::external_type_specification]
#[verifier::external_body]
pub struct ExFromUtf8Error(std::string::FromUtf8Error);

} // verus!
