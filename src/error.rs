//! The errors that the library's fallible operations return.

use vstd::prelude::*;

verus! {

/// What went wrong; every fallible operation returns one of these and leaves
/// its arguments as they were.
#[derive(Debug, Clone, Copy, PartialEq, Eq, Structural)]
pub enum Error {
    /// A builder would exceed its bits or references, or a slice has fewer left
    /// than asked for, or an index is past the end.
    Bounds,
    /// A bit-string literal or stored data is malformed.
    Format,
    /// A value of one kind was given or asked for where another was expected.
    Type,
    /// A traversal went past the limit the caller set.
    ResourceLimit,
    /// A field of width zero was asked for.
    ZeroWidth,
    /// A negative value was given where an unsigned field was asked for.
    Negative,
    /// The interpreter failed in a way that is not an exception of the machine.
    Execution,
}

} // verus!
