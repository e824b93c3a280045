use vstd::prelude::*;

verus! {

/// Failures of the store, the model layer and the signal bus.
#[derive(Clone, Copy, Debug, PartialEq, Eq, Structural)]
pub enum Error {
    /// `pull` or `rm` named a key that the namespace does not hold.
    NotFound,
    /// The storage engine failed (disk, lock, capacity).
    Backend,
    /// Encoding or decoding a record failed.
    Serialization,
    /// Every subscription id that a `u32` can hold was handed out.
    IdsExhausted,
}

} // verus!
