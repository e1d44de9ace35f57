//! Framing protocol and connection logic of a small TCP tunnel: a client
//! forwards the traffic of local applications to a server inside frames that
//! carry a connection id, flags, and the original destination.
use vstd::prelude::*;

pub mod network;
pub mod tcp;

verus! {

} // verus!
