use vstd::prelude::*;

verus! {

/// Declared so that I/O errors can be carried through verified code.
#[verifier::external_type_specification]
#[verifier::external_body]
pub struct ExIoError(std::io::Error);

/// Relies on `std::io::Error::new`: wraps the message in an error of kind `Other`.
#[verifier::external_body]
fn other_error(msg: &str) -> (e: std::io::Error) {
    std::io::Error::new(std::io::ErrorKind::Other, msg)
}

/// An `Err` that carries `msg` as an error of kind `Other`.
pub fn create_error<T>(msg: &str) -> (r: Result<T, std::io::Error>)
    ensures
        r is Err,
{
    Err(other_error(msg))
}

} // verus!
