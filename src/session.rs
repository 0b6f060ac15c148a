//! What the library tracks of the token's PIN state between device calls.
use vstd::prelude::*;

use crate::error::SecurityModuleError;

verus! {

/// The PIN state of the session: the retry count the token last reported, if any, and
/// whether the last PIN verification succeeded.
#[derive(Debug, Clone, Copy, PartialEq, Eq, Structural)]
pub struct PinGate {
    pub retries: Option<u8>,
    pub authenticated: bool,
}

impl PinGate {
    /// A session on which no PIN was tried yet.
    pub fn new() -> (r: PinGate)
        ensures
            r.retries is None,
            !r.authenticated,
    {
        PinGate { retries: None, authenticated: false }
    }

    /// Whether a PIN may be sent to the token. Once the token has reported no retries left,
    /// the session is locked and no verification is sent.
    pub fn begin_attempt(&self) -> (r: Result<(), SecurityModuleError>)
        ensures
            r == if self.retries == Some(0u8) {
                Err::<(), SecurityModuleError>(SecurityModuleError::PinLocked)
            } else {
                Ok::<(), SecurityModuleError>(())
            },
    {
        if self.retries == Some(0u8) {
            Err(SecurityModuleError::PinLocked)
        } else {
            Ok(())
        }
    }

    /// Takes in the outcome of a PIN verification and, after a rejection, the retry count
    /// the token reported for it.
    pub fn record_attempt(&mut self, accepted: bool, retries_remaining: u8) -> (r: Result<
        (),
        SecurityModuleError,
    >)
        ensures
            final(self).retries == Some(retries_remaining),
            final(self).authenticated == accepted,
            r == if accepted {
                Ok::<(), SecurityModuleError>(())
            } else {
                Err::<(), SecurityModuleError>(SecurityModuleError::WrongPin { retries_remaining })
            },
    {
        self.retries = Some(retries_remaining);
        self.authenticated = accepted;
        if accepted {
            Ok(())
        } else {
            Err(SecurityModuleError::WrongPin { retries_remaining })
        }
    }

    /// Whether a key may be generated: only after the PIN was accepted. A locked session
    /// reports `PinLocked`, any other unauthenticated one the last rejection.
    pub fn authorize(&self) -> (r: Result<(), SecurityModuleError>)
        ensures
            r == if self.authenticated {
                Ok::<(), SecurityModuleError>(())
            } else if self.retries == Some(0u8) {
                Err::<(), SecurityModuleError>(SecurityModuleError::PinLocked)
            } else {
                Err::<(), SecurityModuleError>(
                    SecurityModuleError::WrongPin {
                        retries_remaining: match self.retries {
                            Some(n) => n,
                            None => 0,
                        },
                    },
                )
            },
    {
        if self.authenticated {
            Ok(())
        } else if self.retries == Some(0u8) {
            Err(SecurityModuleError::PinLocked)
        } else {
            let retries_remaining = match self.retries {
                Some(n) => n,
                None => 0,
            };
            Err(SecurityModuleError::WrongPin { retries_remaining })
        }
    }
}

} // verus!
