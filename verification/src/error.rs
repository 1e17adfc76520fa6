use vstd::prelude::*;

verus! {

/// Errors raised by the loader and by the core-method kernels.
#[derive(Debug, Clone, PartialEq, Eq)]
pub enum Error {
    /// The input ended before a structure that had to be read.
    TooShort,
    /// The input is structurally malformed.
    InvalidFormat,
    /// The binary header names a format major version other than "04".
    UnsupportedVersion([u8; 2]),
    /// A constant-pool entry carries an unknown type tag.
    UnknownPoolType(u8),
    /// Ruby `ArgumentError` with its message.
    ArgumentError(String),
    /// Ruby `RangeError` with its message.
    RangeError(String),
    /// Ruby `ZeroDivisionError`.
    ZeroDivisionError,
    /// Ruby `RuntimeError` with its message.
    RuntimeError(String),
    /// Ruby `FrozenError` with its message.
    FrozenError(String),
    /// Ruby `KeyError` with its message.
    KeyError(String),
}

/// `Err(RangeError(msg))` with the given message text.
pub open spec fn is_range_error<T>(r: Result<T, Error>, msg: Seq<char>) -> bool {
    r matches Err(Error::RangeError(m)) && m@ == msg
}

/// `Err(ArgumentError(msg))` with the given message text.
pub open spec fn is_argument_error<T>(r: Result<T, Error>, msg: Seq<char>) -> bool {
    r matches Err(Error::ArgumentError(m)) && m@ == msg
}

pub(crate) fn range_error(msg: &str) -> (e: Error)
    ensures
        e matches Error::RangeError(m) && m@ == msg@,
{
    Error::RangeError(msg.to_owned())
}

pub(crate) fn runtime_error(msg: &str) -> (e: Error)
    ensures
        e matches Error::RuntimeError(m) && m@ == msg@,
{
    Error::RuntimeError(msg.to_owned())
}

/// `Err(RuntimeError(msg))` with the given message text.
pub open spec fn is_runtime_error<T>(r: Result<T, Error>, msg: Seq<char>) -> bool {
    r matches Err(Error::RuntimeError(m)) && m@ == msg
}

pub(crate) fn argument_error(msg: &str) -> (e: Error)
    ensures
        e matches Error::ArgumentError(m) && m@ == msg@,
{
    Error::ArgumentError(msg.to_owned())
}

/// `String::from_iter` over characters: as std documents, the string holds
/// exactly those characters in order.
#[verifier::external_body]
pub(crate) fn string_from_chars(cs: &[char]) -> (s: String)
    ensures
        s@ == cs@,
{
    String::from_iter(cs.iter())
}

} // verus!
