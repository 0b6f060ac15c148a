//! The provider's in-memory state: the active key and the session's PIN state.
use vstd::prelude::*;

use crate::codec::{decode_spec, KeyRecord, KeyUsage};
use crate::error::SecurityModuleError;
use crate::pool::{lowest_match, SlotPool};
use crate::provision::{KeyAlgorithm, ProvisionPlan};
use crate::session::PinGate;

verus! {

/// The active key of a provider, and its session's PIN state.
pub struct ProviderState {
    pub key_algorithm: Option<KeyAlgorithm>,
    pub key_usage: Option<KeyUsage>,
    pub slot_id: Option<u32>,
    pub public_key: String,
    pub pin: PinGate,
}

impl ProviderState {
    /// A provider with no active key, on a session where no PIN was tried yet.
    pub fn new() -> (r: ProviderState)
        ensures
            r.key_algorithm is None,
            r.key_usage is None,
            r.slot_id is None,
            r.public_key@.len() == 0,
            r.pin.retries is None,
            !r.pin.authenticated,
    {
        ProviderState {
            key_algorithm: None,
            key_usage: None,
            slot_id: None,
            public_key: String::new(),
            pin: PinGate::new(),
        }
    }

    /// Makes the key named `key_id` active: the first object slot, in slot order, whose
    /// record carries that name gives the slot, the usage and the public key. Slots without
    /// a well-formed record are passed over. When no record carries the name, nothing changes.
    pub fn load_key(&mut self, pool: &SlotPool, key_id: &str) -> (r: Result<(), SecurityModuleError>)
        requires
            pool.wf(),
        ensures
            match lowest_match(pool@, key_id@) {
                Some(i) => {
                    let m = decode_spec(pool@[i])->0;
                    &&& r is Ok
                    &&& final(self).slot_id == Some((i + 1) as u32)
                    &&& final(self).key_usage == Some(m.usage.usage_spec())
                    &&& final(self).public_key@ == m.public_key
                    &&& final(self).key_algorithm == old(self).key_algorithm
                    &&& final(self).pin == old(self).pin
                },
                None => {
                    &&& r == Err::<(), SecurityModuleError>(SecurityModuleError::KeyNotFound)
                    &&& *final(self) == *old(self)
                },
            },
    {
        match pool.find_key(key_id) {
            Ok(found) => {
                self.slot_id = Some(found.slot_id);
                self.key_usage = Some(found.record.usage.key_usage());
                self.public_key = found.record.public_key;
                Ok(())
            },
            Err(e) => Err(e),
        }
    }

    /// Makes a freshly provisioned key active, once its record is stored.
    pub fn key_created(&mut self, plan: &ProvisionPlan, record: KeyRecord)
        ensures
            final(self).key_algorithm == Some(plan.algorithm),
            final(self).key_usage == Some(plan.usage),
            final(self).slot_id == Some(plan.slot_id),
            final(self).public_key@ == record.public_key@,
            final(self).pin == old(self).pin,
    {
        self.key_algorithm = Some(plan.algorithm);
        self.key_usage = Some(plan.usage);
        self.slot_id = Some(plan.slot_id);
        self.public_key = record.public_key;
    }
}

} // verus!
