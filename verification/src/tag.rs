use vstd::prelude::*;

verus! {

/// The closed set of message kinds on the wire: a worker's request for
/// work, the coordinator's reply carrying an assignment, a worker's
/// completed result, and the end-of-game shutdown.
#[derive(Clone, Copy, PartialEq, Eq, Structural, Debug)]
pub enum Tag {
    Request,
    Response,
    Completed,
    Finished,
}

} // verus!
