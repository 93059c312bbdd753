use vstd::prelude::*;

verus! {

/// Failures of the model layer.
#[derive(Debug, Clone, Copy, PartialEq, Eq, Structural)]
pub enum Error {
    TicketDeleteFailedIdNotFound { id: u64 },
}

} // verus!
