//! Defines an error in minimal multicast QUIC.

use crate::error::Error;
use vstd::prelude::*;

verus! {

/// An error related to the minimal multicast extension.
#[derive(Clone, Copy, Debug, PartialEq, Eq, Structural)]
pub enum McError {
    /// Creation of the multicast flow failed.
    McFlow,
}

impl From<McError> for Error {
    fn from(value: McError) -> (e: Self) {
        Error::Multicast(value)
    }
}

impl vstd::std_specs::convert::FromSpecImpl<McError> for Error {
    open spec fn obeys_from_spec() -> bool {
        true
    }

    open spec fn from_spec(value: McError) -> Self {
        Error::Multicast(value)
    }
}

} // verus!
