//! Numbering of the application connections that the client accepts.
use vstd::prelude::*;

verus! {

/// The id for the next accepted application connection: one past the last.
pub fn next_connection_id(id_cont: u16) -> (next: u16)
    requires
        id_cont < u16::MAX,
    ensures
        next == id_cont + 1,
{
    id_cont + 1
}

} // verus!
