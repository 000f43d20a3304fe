use vstd::prelude::*;

verus! {

/// Everything an operation of the registry can fail with.
#[derive(Debug, Clone, Copy, PartialEq, Eq, Structural)]
pub enum RegistryError {
    /// A tenant, namespace or node id holds the key separator.
    InvalidIdentifier,
    /// A create found the key already written.
    NodeAlreadyExists,
    /// The operation needed a record that is absent.
    NodeNotFound,
    /// A conditional write lost to a concurrent writer.
    StaleSequence,
    /// The bounded retry of an update ran out of attempts.
    Contention,
    /// Stored bytes do not decode to a node record.
    CorruptRecord,
    /// The store answered with a shape that the attempted write rules out.
    UnknownException,
    /// The store itself failed; nothing is known of the write.
    Store,
}

} // verus!
