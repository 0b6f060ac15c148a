use keyslot_manager::codec::{decode, encode, parse_slot_data, KeyRecord, KeyUsage, UsageLabel};
use keyslot_manager::decimal::{parse_decimal, push_decimal};
use keyslot_manager::error::SecurityModuleError;
use keyslot_manager::pem::pem_public_key;
use keyslot_manager::pool::{SlotPool, SLOT_COUNT};
use keyslot_manager::provider::ProviderState;
use keyslot_manager::provision::{usage_label, valid_key_id, KeyAlgorithm};
use keyslot_manager::session::PinGate;

const PEM_HEAD: &str = "-----BEGIN PUBLIC KEY-----\n";
const PEM_TAIL: &str = "\n-----END PUBLIC KEY-----";

fn provision(
    pool: &mut SlotPool,
    state: &mut ProviderState,
    key_id: &str,
    algorithm: KeyAlgorithm,
    usage: KeyUsage,
    der: &[u8],
) -> Result<KeyRecord, SecurityModuleError> {
    let plan = pool.plan_key(key_id, algorithm, usage)?;
    let (record, data) = pool.commit_key(&plan, key_id, der);
    assert_eq!(pool.object(plan.slot_id), &data);
    state.key_created(&plan, record.clone());
    Ok(record)
}

fn sample_record() -> KeyRecord {
    KeyRecord {
        key_name: "k1".to_string(),
        slot_id: 3,
        usage: UsageLabel::Decrypt,
        public_key: format!("{}QUJD{}", PEM_HEAD, PEM_TAIL),
    }
}

#[test]
fn encode_layout_is_nul_separated() {
    let bytes = encode(&sample_record());
    let mut expected = b"k1\x003\x00decrypt\x00".to_vec();
    expected.extend_from_slice(format!("{}QUJD{}", PEM_HEAD, PEM_TAIL).as_bytes());
    assert_eq!(bytes, expected);
}

#[test]
fn decode_inverts_encode() {
    let rec = sample_record();
    assert_eq!(decode(&encode(&rec)), Ok(rec));
    let rec2 = KeyRecord {
        key_name: "schlüssel-ä".to_string(),
        slot_id: 4294967295,
        usage: UsageLabel::Sign,
        public_key: "pk".to_string(),
    };
    assert_eq!(decode(&encode(&rec2)), Ok(rec2));
}

#[test]
fn sign_and_encrypt_labels_share_a_usage() {
    assert_eq!(UsageLabel::Sign.key_usage(), KeyUsage::SignEncrypt);
    assert_eq!(UsageLabel::Encrypt.key_usage(), KeyUsage::SignEncrypt);
    assert_eq!(UsageLabel::Decrypt.key_usage(), KeyUsage::Decrypt);
}

#[test]
fn truncated_record_is_malformed_and_free() {
    let data = b"k1\x003".to_vec();
    assert_eq!(decode(&data), Err(SecurityModuleError::MalformedRecord));
    assert_eq!(parse_slot_data(&data), Err(SecurityModuleError::MalformedRecord));
    let mut objects = vec![Vec::new(); SLOT_COUNT];
    objects[0] = data.clone();
    objects[1] = encode(&KeyRecord {
        key_name: "k2".to_string(),
        slot_id: 2,
        usage: UsageLabel::Sign,
        public_key: "pk2".to_string(),
    });
    let pool = SlotPool::from_objects(objects);
    assert_eq!(pool.find_free_slot(), Ok(1));
    let mut state = ProviderState::new();
    assert_eq!(state.load_key(&pool, "k2"), Ok(()));
    assert_eq!(state.slot_id, Some(2));
    assert_eq!(state.public_key, "pk2");
}

#[test]
fn malformed_fields_are_refused() {
    assert_eq!(decode(b""), Err(SecurityModuleError::MalformedRecord));
    assert_eq!(decode(b"k\x00x1\x00sign\x00pk"), Err(SecurityModuleError::MalformedRecord));
    assert_eq!(decode(b"k\x001\x00verify\x00pk"), Err(SecurityModuleError::MalformedRecord));
    assert_eq!(decode(b"k\x00\x00sign\x00pk"), Err(SecurityModuleError::MalformedRecord));
    assert_eq!(decode(b"\xff\x001\x00sign\x00pk"), Err(SecurityModuleError::MalformedRecord));
    assert_eq!(decode(b"k\x004294967296\x00sign\x00pk"), Err(SecurityModuleError::MalformedRecord));
}

#[test]
fn parse_slot_data_splits_four_fields() {
    let r = parse_slot_data(b"name\x007\x00encrypt\x00key\x00extra").unwrap();
    assert_eq!(r, ("name".to_string(), "7".to_string(), "encrypt".to_string(), "key".to_string()));
    let r = parse_slot_data(b"\x00\x00\x00").unwrap();
    assert_eq!(r, (String::new(), String::new(), String::new(), String::new()));
    assert_eq!(parse_slot_data(b"a\x00b\x00c"), Err(SecurityModuleError::MalformedRecord));
    assert_eq!(parse_slot_data(b"a\x00\xc3\x00c\x00d"), Err(SecurityModuleError::MalformedRecord));
}

#[test]
fn decimal_notation() {
    let mut out = Vec::new();
    push_decimal(&mut out, 0);
    push_decimal(&mut out, 1204);
    assert_eq!(out, b"01204".to_vec());
    assert_eq!(parse_decimal(b"4294967295"), Some(4294967295));
    assert_eq!(parse_decimal(b"007"), Some(7));
    assert_eq!(parse_decimal(b""), None);
    assert_eq!(parse_decimal(b"12a"), None);
    assert_eq!(parse_decimal(b"99999999999"), None);
}

#[test]
fn pem_armor_wraps_base64() {
    assert_eq!(pem_public_key(&[0, 1, 2]), format!("{}AAEC{}", PEM_HEAD, PEM_TAIL));
    assert_eq!(pem_public_key(b"ab"), format!("{}YWI={}", PEM_HEAD, PEM_TAIL));
}

#[test]
fn usage_table() {
    assert_eq!(usage_label(KeyAlgorithm::Rsa2048, KeyUsage::SignEncrypt), Ok(UsageLabel::Encrypt));
    assert_eq!(usage_label(KeyAlgorithm::EccP256, KeyUsage::SignEncrypt), Ok(UsageLabel::Sign));
    assert_eq!(usage_label(KeyAlgorithm::Rsa2048, KeyUsage::Decrypt), Ok(UsageLabel::Decrypt));
    assert_eq!(
        usage_label(KeyAlgorithm::EccP256, KeyUsage::Decrypt),
        Err(SecurityModuleError::UnsupportedUsage)
    );
    assert_eq!(
        usage_label(KeyAlgorithm::EccP384, KeyUsage::SignEncrypt),
        Err(SecurityModuleError::UnsupportedAlgorithm)
    );
    assert_eq!(
        usage_label(KeyAlgorithm::Rsa1024, KeyUsage::Decrypt),
        Err(SecurityModuleError::UnsupportedAlgorithm)
    );
}

#[test]
fn unknown_key_is_not_found() {
    let pool = SlotPool::new();
    let mut state = ProviderState::new();
    assert_eq!(state.load_key(&pool, "missing"), Err(SecurityModuleError::KeyNotFound));
    assert_eq!(state.slot_id, None);
}

#[test]
fn first_key_goes_to_lowest_slot() {
    let mut pool = SlotPool::new();
    let mut state = ProviderState::new();
    let rec = provision(&mut pool, &mut state, "k1", KeyAlgorithm::Rsa2048, KeyUsage::SignEncrypt, b"der")
        .unwrap();
    assert_eq!(rec.slot_id, 1);
    assert_eq!(rec.usage, UsageLabel::Encrypt);
    assert_eq!(rec.public_key, format!("{}ZGVy{}", PEM_HEAD, PEM_TAIL));
    let mut expected = b"k1\x001\x00encrypt\x00".to_vec();
    expected.extend_from_slice(rec.public_key.as_bytes());
    assert_eq!(pool.object(1), &expected);
    assert_eq!(state.slot_id, Some(1));
    assert_eq!(state.key_algorithm, Some(KeyAlgorithm::Rsa2048));
}

#[test]
fn create_then_load_agrees() {
    let mut pool = SlotPool::new();
    let mut state = ProviderState::new();
    provision(&mut pool, &mut state, "a", KeyAlgorithm::EccP256, KeyUsage::SignEncrypt, b"1").unwrap();
    let rec = provision(&mut pool, &mut state, "b", KeyAlgorithm::Rsa2048, KeyUsage::Decrypt, b"22")
        .unwrap();
    let mut fresh = ProviderState::new();
    assert_eq!(fresh.load_key(&pool, "b"), Ok(()));
    assert_eq!(fresh.slot_id, Some(rec.slot_id));
    assert_eq!(fresh.slot_id, Some(2));
    assert_eq!(fresh.key_usage, Some(KeyUsage::Decrypt));
    assert_eq!(fresh.public_key, rec.public_key);
}

#[test]
fn reprovisioning_reuses_slot() {
    let mut pool = SlotPool::new();
    let mut state = ProviderState::new();
    let first = provision(&mut pool, &mut state, "k1", KeyAlgorithm::EccP256, KeyUsage::SignEncrypt, b"x")
        .unwrap();
    let plan = pool.plan_key("k1", KeyAlgorithm::EccP256, KeyUsage::SignEncrypt).unwrap();
    assert!(plan.reuses_slot);
    let second = provision(&mut pool, &mut state, "k1", KeyAlgorithm::EccP256, KeyUsage::SignEncrypt, b"y")
        .unwrap();
    assert_eq!(first.slot_id, second.slot_id);
    assert_eq!(second.usage, UsageLabel::Sign);
    assert_eq!(pool.find_free_slot(), Ok(2));
}

#[test]
fn full_pool_has_no_free_slot() {
    let mut pool = SlotPool::new();
    let mut state = ProviderState::new();
    for n in 0..SLOT_COUNT {
        let id = format!("key{}", n);
        let rec = provision(&mut pool, &mut state, &id, KeyAlgorithm::Rsa2048, KeyUsage::Decrypt, b"d")
            .unwrap();
        assert_eq!(rec.slot_id as usize, n + 1);
    }
    assert_eq!(pool.find_free_slot(), Err(SecurityModuleError::NoFreeSlot));
    assert_eq!(
        provision(&mut pool, &mut state, "one-more", KeyAlgorithm::Rsa2048, KeyUsage::Decrypt, b"d"),
        Err(SecurityModuleError::NoFreeSlot)
    );
    assert!(provision(&mut pool, &mut state, "key3", KeyAlgorithm::Rsa2048, KeyUsage::Decrypt, b"e").is_ok());
}

#[test]
fn free_slot_is_lowest_and_stable() {
    let mut objects = vec![Vec::new(); SLOT_COUNT];
    for i in [0usize, 1, 3] {
        objects[i] = encode(&KeyRecord {
            key_name: format!("n{}", i),
            slot_id: (i + 1) as u32,
            usage: UsageLabel::Sign,
            public_key: String::new(),
        });
    }
    let pool = SlotPool::from_objects(objects);
    assert_eq!(pool.find_free_slot(), Ok(3));
    assert_eq!(pool.find_free_slot(), Ok(3));
}

#[test]
fn unsupported_combinations_fail() {
    let pool = SlotPool::new();
    assert_eq!(
        pool.plan_key("k", KeyAlgorithm::EccP256, KeyUsage::Decrypt),
        Err(SecurityModuleError::UnsupportedUsage)
    );
    assert_eq!(
        pool.plan_key("k", KeyAlgorithm::EccP384, KeyUsage::SignEncrypt),
        Err(SecurityModuleError::UnsupportedAlgorithm)
    );
}

#[test]
fn pin_locks_after_three_failures() {
    let mut gate = PinGate::new();
    let mut retries: u8 = 3;
    for expected in [2u8, 1, 0] {
        assert_eq!(gate.begin_attempt(), Ok(()));
        retries -= 1;
        assert_eq!(
            gate.record_attempt(false, retries),
            Err(SecurityModuleError::WrongPin { retries_remaining: expected })
        );
    }
    assert_eq!(gate.begin_attempt(), Err(SecurityModuleError::PinLocked));
    assert_eq!(gate.authorize(), Err(SecurityModuleError::PinLocked));
}

#[test]
fn accepted_pin_authorizes() {
    let mut gate = PinGate::new();
    assert_eq!(gate.authorize(), Err(SecurityModuleError::WrongPin { retries_remaining: 0 }));
    assert_eq!(gate.record_attempt(false, 2), Err(SecurityModuleError::WrongPin { retries_remaining: 2 }));
    assert_eq!(gate.authorize(), Err(SecurityModuleError::WrongPin { retries_remaining: 2 }));
    assert_eq!(gate.record_attempt(true, 3), Ok(()));
    assert_eq!(gate.authorize(), Ok(()));
}

#[test]
fn key_ids_must_be_storable() {
    assert!(valid_key_id("k1"));
    assert!(!valid_key_id(""));
    assert!(!valid_key_id("a\0b"));
}
