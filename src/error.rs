use vstd::prelude::*;

verus! {

/// Every way an operation of this library can fail.
#[derive(Debug, Clone, Copy, PartialEq, Eq, Structural)]
pub enum SecurityModuleError {
    /// No token is attached.
    DeviceNotFound,
    /// The PIN was rejected; the token allows this many further attempts.
    WrongPin { retries_remaining: u8 },
    /// The PIN retry counter is exhausted.
    PinLocked,
    /// Every object slot of the pool holds a record.
    NoFreeSlot,
    /// The requested algorithm cannot be generated on the token.
    UnsupportedAlgorithm,
    /// The requested usage is not offered for the requested algorithm.
    UnsupportedUsage,
    /// No stored record carries the requested key name.
    KeyNotFound,
    /// Object data does not hold a well-formed record.
    MalformedRecord,
    /// A device command failed.
    DeviceIoFailure,
}

} // verus!
