//! Provisioning: choosing the slot and generation parameters for a key, and the record
//! that describes it once the token has generated it.
use vstd::prelude::*;
use vstd::utf8::*;

use crate::codec::{
    decode_spec, encode, encode_spec, lemma_round_trip, no_nul, KeyRecord, KeyUsage,
    RecordModel, UsageLabel,
};
use crate::error::SecurityModuleError;
use crate::pem::{base64_of, lemma_plain_ascii_no_nul, pem_public_key, pem_spec};
use crate::pool::{
    free_count, lemma_fill_free_slot, lemma_lowest_free, lemma_lowest_match, lemma_none_free,
    lowest_free, lowest_match, names, SlotPool, SLOT_COUNT,
};

verus! {

/// Asymmetric algorithms a PIV token can generate.
#[derive(Debug, Clone, Copy, PartialEq, Eq, Structural)]
pub enum KeyAlgorithm {
    Rsa1024,
    Rsa2048,
    EccP256,
    EccP384,
}

/// Which label a key of this algorithm and usage is stored under.
pub open spec fn label_spec(algorithm: KeyAlgorithm, usage: KeyUsage) -> Result<
    UsageLabel,
    SecurityModuleError,
> {
    match (algorithm, usage) {
        (KeyAlgorithm::Rsa2048, KeyUsage::SignEncrypt) => Ok(UsageLabel::Encrypt),
        (KeyAlgorithm::EccP256, KeyUsage::SignEncrypt) => Ok(UsageLabel::Sign),
        (KeyAlgorithm::Rsa2048, KeyUsage::Decrypt) => Ok(UsageLabel::Decrypt),
        (KeyAlgorithm::EccP256, KeyUsage::Decrypt) => Err(SecurityModuleError::UnsupportedUsage),
        _ => Err(SecurityModuleError::UnsupportedAlgorithm),
    }
}

/// The table of supported algorithm and usage pairs: RSA-2048 for encryption is stored as
/// `encrypt`, ECC-P256 for signing as `sign`, RSA-2048 for decryption as `decrypt`.
/// ECC-P256 keys are not offered for decryption; other algorithms are not offered at all.
pub fn usage_label(algorithm: KeyAlgorithm, usage: KeyUsage) -> (r: Result<
    UsageLabel,
    SecurityModuleError,
>)
    ensures
        r == label_spec(algorithm, usage),
{
    match (algorithm, usage) {
        (KeyAlgorithm::Rsa2048, KeyUsage::SignEncrypt) => Ok(UsageLabel::Encrypt),
        (KeyAlgorithm::EccP256, KeyUsage::SignEncrypt) => Ok(UsageLabel::Sign),
        (KeyAlgorithm::Rsa2048, KeyUsage::Decrypt) => Ok(UsageLabel::Decrypt),
        (KeyAlgorithm::EccP256, KeyUsage::Decrypt) => Err(SecurityModuleError::UnsupportedUsage),
        _ => Err(SecurityModuleError::UnsupportedAlgorithm),
    }
}

/// What the token is to do for a new key: generate `algorithm` in key slot `slot_id`.
#[derive(Debug, Clone, Copy, PartialEq, Eq, Structural)]
pub struct ProvisionPlan {
    pub slot_id: u32,
    pub algorithm: KeyAlgorithm,
    pub usage: KeyUsage,
    pub label: UsageLabel,
    /// The key name already had a record, whose slot is generated into again.
    pub reuses_slot: bool,
}

/// The slot a key is provisioned into: the one already holding its record, else the lowest
/// free one.
pub open spec fn target_slot(s: Seq<Seq<u8>>, key_id: Seq<char>) -> Result<
    (int, bool),
    SecurityModuleError,
> {
    match lowest_match(s, key_id) {
        Some(i) => Ok((i, true)),
        None => match lowest_free(s) {
            Some(i) => Ok((i, false)),
            None => Err(SecurityModuleError::NoFreeSlot),
        },
    }
}

pub open spec fn plan_spec(
    s: Seq<Seq<u8>>,
    key_id: Seq<char>,
    algorithm: KeyAlgorithm,
    usage: KeyUsage,
) -> Result<ProvisionPlan, SecurityModuleError> {
    match target_slot(s, key_id) {
        Err(e) => Err(e),
        Ok((i, reuses)) => match label_spec(algorithm, usage) {
            Err(e) => Err(e),
            Ok(label) => Ok(
                ProvisionPlan {
                    slot_id: (i + 1) as u32,
                    algorithm,
                    usage,
                    label,
                    reuses_slot: reuses,
                },
            ),
        },
    }
}

/// The record written for a key once the token has generated it.
pub open spec fn record_spec(key_id: Seq<char>, plan: ProvisionPlan, der: Seq<u8>) -> RecordModel {
    RecordModel {
        key_name: key_id,
        slot_id: plan.slot_id,
        usage: plan.label,
        public_key: pem_spec(base64_of(der)),
    }
}

/// The pool once a record has been written for a plan.
pub open spec fn written(s: Seq<Seq<u8>>, plan: ProvisionPlan, rec: RecordModel) -> Seq<Seq<u8>> {
    s.update(plan.slot_id - 1, encode_spec(rec))
}

proof fn lemma_first_match(s: Seq<Seq<u8>>, name: Seq<char>, j: int)
    requires
        0 <= j < s.len(),
        names(s, j, name),
        forall|k: int| 0 <= k < j ==> !names(s, k, name),
    ensures
        lowest_match(s, name) == Some(j),
{
    lemma_lowest_match(s, name);
}

/// After a key is provisioned by its plan, looking its name up finds the slot of the plan
/// and the record that was written there.
pub proof fn lemma_create_then_load(
    s: Seq<Seq<u8>>,
    key_id: Seq<char>,
    algorithm: KeyAlgorithm,
    usage: KeyUsage,
    public_key: Seq<char>,
)
    requires
        s.len() == SLOT_COUNT,
        plan_spec(s, key_id, algorithm, usage) is Ok,
        no_nul(encode_utf8(key_id)),
        no_nul(encode_utf8(public_key)),
    ensures
        ({
            let plan = plan_spec(s, key_id, algorithm, usage)->Ok_0;
            let rec = RecordModel {
                key_name: key_id,
                slot_id: plan.slot_id,
                usage: plan.label,
                public_key,
            };
            let s2 = written(s, plan, rec);
            &&& 1 <= plan.slot_id <= SLOT_COUNT
            &&& lowest_match(s2, key_id) == Some(plan.slot_id - 1)
            &&& decode_spec(s2[plan.slot_id - 1]) == Some(rec)
        }),
{
    let plan = plan_spec(s, key_id, algorithm, usage)->Ok_0;
    let rec = RecordModel { key_name: key_id, slot_id: plan.slot_id, usage: plan.label, public_key };
    let s2 = written(s, plan, rec);
    lemma_lowest_match(s, key_id);
    lemma_lowest_free(s);
    let j = plan.slot_id - 1;
    match lowest_match(s, key_id) {
        Some(i) => {
            assert(plan.slot_id == i + 1);
            assert(j == i);
            assert(forall|k: int| 0 <= k < j ==> !names(s, k, key_id));
            assert(0 <= j < s.len());
        },
        None => {
            let i = lowest_free(s)->0;
            assert(plan.slot_id == i + 1);
            assert(forall|k: int| 0 <= k < j ==> !names(s, k, key_id));
            assert(0 <= j < s.len());
        },
    }
    assert(forall|k: int| 0 <= k < j ==> !names(s, k, key_id));
    assert(0 <= j < s.len());
    lemma_round_trip(rec);
    assert(s2[j] == encode_spec(rec));
    assert forall|k: int| 0 <= k < j implies !names(s2, k, key_id) by {
        assert(s2[k] == s[k]);
        assert(!names(s, k, key_id));
    }
    lemma_first_match(s2, key_id, j);
}

/// A key name that no record carries is not found.
pub proof fn lemma_unprovisioned_not_found(s: Seq<Seq<u8>>, key_id: Seq<char>)
    requires
        forall|k: int| 0 <= k < s.len() ==> !names(s, k, key_id),
    ensures
        lowest_match(s, key_id) is None,
{
    lemma_lowest_match(s, key_id);
}

/// When no object slot is free and no record is named `key_id`, provisioning `key_id` fails
/// for want of a free slot.
pub proof fn lemma_full_pool(
    s: Seq<Seq<u8>>,
    key_id: Seq<char>,
    algorithm: KeyAlgorithm,
    usage: KeyUsage,
)
    requires
        free_count(s) == 0,
        lowest_match(s, key_id) is None,
    ensures
        plan_spec(s, key_id, algorithm, usage) == Err::<ProvisionPlan, SecurityModuleError>(
            SecurityModuleError::NoFreeSlot,
        ),
{
    lemma_none_free(s);
    lemma_lowest_free(s);
}

/// Provisioning a name that no record carries takes exactly one free slot, so that from a
/// pool of empty slots the pool is full after as many new keys as it has slots.
pub proof fn lemma_new_key_takes_one_slot(
    s: Seq<Seq<u8>>,
    key_id: Seq<char>,
    algorithm: KeyAlgorithm,
    usage: KeyUsage,
    public_key: Seq<char>,
)
    requires
        s.len() == SLOT_COUNT,
        plan_spec(s, key_id, algorithm, usage) is Ok,
        lowest_match(s, key_id) is None,
        no_nul(encode_utf8(key_id)),
        no_nul(encode_utf8(public_key)),
    ensures
        ({
            let plan = plan_spec(s, key_id, algorithm, usage)->Ok_0;
            let rec = RecordModel {
                key_name: key_id,
                slot_id: plan.slot_id,
                usage: plan.label,
                public_key,
            };
            &&& !plan.reuses_slot
            &&& free_count(written(s, plan, rec)) + 1 == free_count(s)
        }),
{
    let plan = plan_spec(s, key_id, algorithm, usage)->Ok_0;
    let rec = RecordModel { key_name: key_id, slot_id: plan.slot_id, usage: plan.label, public_key };
    lemma_lowest_free(s);
    let i = lowest_free(s)->0;
    assert(plan.slot_id == i + 1);
    lemma_round_trip(rec);
    lemma_fill_free_slot(s, i, encode_spec(rec));
}

/// Provisioning a name again, after it was provisioned once, targets the same slot and
/// takes no other.
pub proof fn lemma_reprovision_same_slot(
    s: Seq<Seq<u8>>,
    key_id: Seq<char>,
    algorithm: KeyAlgorithm,
    usage: KeyUsage,
    public_key: Seq<char>,
    algorithm2: KeyAlgorithm,
    usage2: KeyUsage,
)
    requires
        s.len() == SLOT_COUNT,
        plan_spec(s, key_id, algorithm, usage) is Ok,
        label_spec(algorithm2, usage2) is Ok,
        no_nul(encode_utf8(key_id)),
        no_nul(encode_utf8(public_key)),
    ensures
        ({
            let plan = plan_spec(s, key_id, algorithm, usage)->Ok_0;
            let rec = RecordModel {
                key_name: key_id,
                slot_id: plan.slot_id,
                usage: plan.label,
                public_key,
            };
            let again = plan_spec(written(s, plan, rec), key_id, algorithm2, usage2);
            again is Ok && again->Ok_0.slot_id == plan.slot_id && again->Ok_0.reuses_slot
        }),
{
    lemma_create_then_load(s, key_id, algorithm, usage, public_key);
}

/// A key name that can be stored: non-empty, with no NUL byte.
pub open spec fn key_id_ok(key_id: Seq<char>) -> bool {
    key_id.len() > 0 && no_nul(encode_utf8(key_id))
}

/// Whether `key_id` can name a stored key: it is non-empty and holds no NUL byte, which
/// would break the record's field separators.
pub fn valid_key_id(key_id: &str) -> (r: bool)
    ensures
        r == key_id_ok(key_id@),
{
    let b = key_id.as_bytes();
    if key_id.is_empty() {
        return false;
    }
    let mut i: usize = 0;
    while i < b.len()
        invariant
            0 <= i <= b@.len(),
            b@ == encode_utf8(key_id@),
            forall|j: int| 0 <= j < i ==> b@[j] != 0,
        decreases b@.len() - i,
    {
        if b[i] == 0 {
            return false;
        }
        i = i + 1;
    }
    true
}

impl SlotPool {
    /// Decides where and how a key named `key_id` is to be generated: in the slot that
    /// already holds its record, else in the lowest free slot, with the generation
    /// algorithm and label of the usage table.
    pub fn plan_key(&self, key_id: &str, algorithm: KeyAlgorithm, usage: KeyUsage) -> (r: Result<
        ProvisionPlan,
        SecurityModuleError,
    >)
        requires
            self.wf(),
        ensures
            r == plan_spec(self@, key_id@, algorithm, usage),
            r matches Ok(p) ==> 1 <= p.slot_id <= SLOT_COUNT,
    {
        proof {
            lemma_lowest_match(self@, key_id@);
            lemma_lowest_free(self@);
        }
        let (slot_id, reuses_slot) = match self.find_key(key_id) {
            Ok(found) => (found.slot_id, true),
            Err(_) => match self.find_free_slot() {
                Ok(free) => (free, false),
                Err(e) => return Err(e),
            },
        };
        let label = match usage_label(algorithm, usage) {
            Ok(l) => l,
            Err(e) => return Err(e),
        };
        Ok(ProvisionPlan { slot_id, algorithm, usage, label, reuses_slot })
    }

    /// Records a key that the token generated by `plan`, whose public key is `der` in DER
    /// form. Returns the record and its serialized form, which belongs in the object slot
    /// paired with the plan's key slot; the pool holds that data from now on.
    pub fn commit_key(&mut self, plan: &ProvisionPlan, key_id: &str, der: &[u8]) -> (r: (
        KeyRecord,
        Vec<u8>,
    ))
        requires
            old(self).wf(),
            1 <= plan.slot_id <= SLOT_COUNT,
            der@.len() <= usize::MAX / 4,
        ensures
            final(self).wf(),
            r.0@ == record_spec(key_id@, *plan, der@),
            r.1@ == encode_spec(r.0@),
            final(self)@ == written(old(self)@, *plan, r.0@),
            decode_spec(r.1@) == Some(r.0@) <== no_nul(encode_utf8(key_id@)),
            (no_nul(encode_utf8(key_id@)) && plan_spec(old(self)@, key_id@, plan.algorithm, plan.usage)
                == Ok::<ProvisionPlan, SecurityModuleError>(*plan)) ==> lowest_match(
                final(self)@,
                key_id@,
            ) == Some(plan.slot_id - 1),
    {
        let public_key = pem_public_key(der);
        let record = KeyRecord {
            key_name: String::from_str(key_id),
            slot_id: plan.slot_id,
            usage: plan.label,
            public_key,
        };
        let data = encode(&record);
        proof {
            lemma_plain_ascii_no_nul(record.public_key@);
            if no_nul(encode_utf8(key_id@)) {
                lemma_round_trip(record@);
                if plan_spec(old(self)@, key_id@, plan.algorithm, plan.usage) == Ok::<
                    ProvisionPlan,
                    SecurityModuleError,
                >(*plan) {
                    lemma_create_then_load(
                        old(self)@,
                        key_id@,
                        plan.algorithm,
                        plan.usage,
                        record.public_key@,
                    );
                }
            }
        }
        self.set_object(plan.slot_id, data.clone());
        (record, data)
    }
}

} // verus!
