//! Verified core of an mruby bytecode runtime: the RITE binary loader,
//! instance-variable storage, and the integer, string, format, array,
//! range, comparison and shared-memory kernels behind the Ruby core methods.
//!
//! Each kernel takes the receiver and arguments as plain values (integers,
//! characters, bytes, lengths, or the results of calls the interpreter made
//! for it) and returns plain values or a layout of which element goes where.

use vstd::prelude::*;

pub mod error;
pub mod rite;
pub mod value;
pub mod numeric;
pub mod ivar;
pub mod object;
pub mod text;
pub mod radix;
pub mod format;
pub mod array;
pub mod range;
pub mod compare;
pub mod hierarchy;
pub mod unwind;
pub mod dispatch;
pub mod hash;
pub mod interp;
pub mod memory;

verus! {

} // verus!
