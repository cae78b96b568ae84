use vstd::prelude::*;

verus! {

/// The kinds of message replicas exchange.
pub enum MsgType {
    Election,
    Log,
    Ack,
    Commit,
    Abort,
}

} // verus!
