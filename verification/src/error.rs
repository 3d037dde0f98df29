//! The ways in which a request to the generator can be refused.

use vstd::prelude::*;

verus! {

/// Why a request was refused. A refused request leaves the generator untouched.
#[derive(Clone, Copy, Debug, PartialEq, Eq, Structural)]
pub enum R30Error {
    /// A bounded draw was asked for a range whose lower end lies above its upper end.
    InvalidRange,
    /// A choice was asked from an empty sequence.
    EmptyInput,
    /// More bits were asked for than the result can hold.
    BitWidthExceeded,
}

} // verus!
