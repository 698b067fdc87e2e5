use vstd::prelude::*;

verus! {

/// A positioned failure shared by every layer of the codec: a human-readable
/// message and the byte offset at which the anomaly was detected.
///
/// All decode errors are terminal for the call that raised them; no partial
/// result is ever returned beside one.
#[derive(Debug)]
pub struct GooseError {
    pub message: String,
    pub pos: usize,
}

} // verus!
