//! The on-device record format: four fields separated by single NUL bytes.
use vstd::prelude::*;
use vstd::utf8::*;

use crate::decimal::{all_digits, digits_of, lemma_digits_of, lemma_parse_digits, parse_decimal, parse_spec, push_decimal};
use crate::error::SecurityModuleError;

verus! {

/// What a key may be used for.
#[derive(Debug, Clone, Copy, PartialEq, Eq, Structural)]
pub enum KeyUsage {
    SignEncrypt,
    Decrypt,
}

/// The usage word stored in a record.
#[derive(Debug, Clone, Copy, PartialEq, Eq, Structural)]
pub enum UsageLabel {
    Sign,
    Encrypt,
    Decrypt,
}

impl UsageLabel {
    /// The ASCII bytes of the label: `sign`, `encrypt` or `decrypt`.
    pub open spec fn bytes_spec(self) -> Seq<u8> {
        match self {
            UsageLabel::Sign => seq![115u8, 105, 103, 110],
            UsageLabel::Encrypt => seq![101u8, 110, 99, 114, 121, 112, 116],
            UsageLabel::Decrypt => seq![100u8, 101, 99, 114, 121, 112, 116],
        }
    }

    pub open spec fn usage_spec(self) -> KeyUsage {
        match self {
            UsageLabel::Sign | UsageLabel::Encrypt => KeyUsage::SignEncrypt,
            UsageLabel::Decrypt => KeyUsage::Decrypt,
        }
    }

    /// `sign` and `encrypt` both stand for signing and encryption keys.
    pub fn key_usage(self) -> (r: KeyUsage)
        ensures
            r == self.usage_spec(),
    {
        match self {
            UsageLabel::Sign | UsageLabel::Encrypt => KeyUsage::SignEncrypt,
            UsageLabel::Decrypt => KeyUsage::Decrypt,
        }
    }

    /// The label as text.
    pub fn as_text(self) -> (r: String)
        ensures
            encode_utf8(r@) == self.bytes_spec(),
    {
        let r = match self {
            UsageLabel::Sign => String::from_str("sign"),
            UsageLabel::Encrypt => String::from_str("encrypt"),
            UsageLabel::Decrypt => String::from_str("decrypt"),
        };
        proof {
            reveal_strlit("sign");
            reveal_strlit("encrypt");
            reveal_strlit("decrypt");
            assert(is_ascii_chars(r@));
            is_ascii_chars_encode_utf8(r@);
            assert(encode_utf8(r@) =~= self.bytes_spec());
        }
        r
    }
}

/// The label that a run of bytes spells, if any.
pub open spec fn label_of(b: Seq<u8>) -> Option<UsageLabel> {
    if b == UsageLabel::Sign.bytes_spec() {
        Some(UsageLabel::Sign)
    } else if b == UsageLabel::Encrypt.bytes_spec() {
        Some(UsageLabel::Encrypt)
    } else if b == UsageLabel::Decrypt.bytes_spec() {
        Some(UsageLabel::Decrypt)
    } else {
        None
    }
}

/// A key's metadata as it is kept in an object slot.
#[derive(Debug, Clone, PartialEq, Eq)]
pub struct KeyRecord {
    pub key_name: String,
    pub slot_id: u32,
    pub usage: UsageLabel,
    pub public_key: String,
}

/// The mathematical content of a [`KeyRecord`].
pub struct RecordModel {
    pub key_name: Seq<char>,
    pub slot_id: u32,
    pub usage: UsageLabel,
    pub public_key: Seq<char>,
}

impl View for KeyRecord {
    type V = RecordModel;

    open spec fn view(&self) -> RecordModel {
        RecordModel {
            key_name: self.key_name@,
            slot_id: self.slot_id,
            usage: self.usage,
            public_key: self.public_key@,
        }
    }
}

pub open spec fn no_nul(b: Seq<u8>) -> bool {
    forall|i: int| 0 <= i < b.len() ==> b[i] != 0
}

/// The fields of a record hold no NUL byte, so that the separators stay unambiguous.
pub open spec fn nul_free(m: RecordModel) -> bool {
    no_nul(encode_utf8(m.key_name)) && no_nul(encode_utf8(m.public_key))
}

/// The serialized form of a record.
pub open spec fn encode_spec(m: RecordModel) -> Seq<u8> {
    encode_utf8(m.key_name) + seq![0u8] + digits_of(m.slot_id as nat) + seq![0u8]
        + m.usage.bytes_spec() + seq![0u8] + encode_utf8(m.public_key)
}

/// Where the field that begins at `start` ends: at the next NUL byte, or at the end of the data.
pub open spec fn field_end(b: Seq<u8>, start: int) -> int
    decreases b.len() - start,
{
    if start >= b.len() {
        b.len() as int
    } else if b[start] == 0 {
        start
    } else {
        field_end(b, start + 1)
    }
}

/// What `decode` makes of a run of bytes. Segments past the fourth are not read.
pub open spec fn decode_spec(b: Seq<u8>) -> Option<RecordModel> {
    let e0 = field_end(b, 0);
    let e1 = field_end(b, e0 + 1);
    let e2 = field_end(b, e1 + 1);
    let e3 = field_end(b, e2 + 1);
    let name = b.subrange(0, e0);
    let slot = b.subrange(e0 + 1, e1);
    let label = b.subrange(e1 + 1, e2);
    let key = b.subrange(e2 + 1, e3);
    if e0 < b.len() && e1 < b.len() && e2 < b.len() && valid_utf8(name) && valid_utf8(key)
        && parse_spec(slot) is Some && label_of(label) is Some {
        Some(
            RecordModel {
                key_name: decode_utf8(name),
                slot_id: parse_spec(slot)->0,
                usage: label_of(label)->0,
                public_key: decode_utf8(key),
            },
        )
    } else {
        None
    }
}

/// Relies on `String::from_utf8`: it accepts exactly well-formed UTF-8 and keeps its characters.
#[verifier::external_body]
fn utf8_string(bytes: Vec<u8>) -> (r: Option<String>)
    ensures
        r is Some <==> valid_utf8(bytes@),
        r matches Some(s) ==> s@ == decode_utf8(bytes@),
{
    String::from_utf8(bytes).ok()
}

/// Appends the bytes of a slice.
fn push_bytes(out: &mut Vec<u8>, b: &[u8])
    ensures
        final(out)@ == old(out)@ + b@,
{
    let mut i: usize = 0;
    while i < b.len()
        invariant
            0 <= i <= b@.len(),
            out@ == old(out)@ + b@.take(i as int),
        decreases b@.len() - i,
    {
        out.push(b[i]);
        i = i + 1;
        assert(out@ =~= old(out)@ + b@.take(i as int));
    }
    assert(b@.take(i as int) =~= b@);
}

/// Copies `b[start..end]`.
fn copy_range(b: &[u8], start: usize, end: usize) -> (r: Vec<u8>)
    requires
        start <= end <= b@.len(),
    ensures
        r@ == b@.subrange(start as int, end as int),
{
    let mut r: Vec<u8> = Vec::new();
    let mut i: usize = start;
    while i < end
        invariant
            start <= i <= end <= b@.len(),
            r@ == b@.subrange(start as int, i as int),
        decreases end - i,
    {
        r.push(b[i]);
        i = i + 1;
        assert(r@ =~= b@.subrange(start as int, i as int));
    }
    r
}

/// Finds the end of the field that begins at `start`.
fn find_nul(b: &[u8], start: usize) -> (r: usize)
    requires
        start <= b@.len(),
    ensures
        r == field_end(b@, start as int),
        start <= r <= b@.len(),
{
    let mut i: usize = start;
    while i < b.len() && b[i] != 0
        invariant
            start <= i <= b@.len(),
            field_end(b@, i as int) == field_end(b@, start as int),
        decreases b@.len() - i,
    {
        i = i + 1;
    }
    i
}

/// Reads a usage label; any other text is refused.
fn parse_label(b: &[u8]) -> (r: Option<UsageLabel>)
    ensures
        r == label_of(b@),
{
    let candidates = [UsageLabel::Sign, UsageLabel::Encrypt, UsageLabel::Decrypt];
    let mut k: usize = 0;
    while k < 3
        invariant
            0 <= k <= 3,
            candidates@ == seq![UsageLabel::Sign, UsageLabel::Encrypt, UsageLabel::Decrypt],
            forall|j: int| 0 <= j < k ==> b@ != (#[trigger] candidates@[j]).bytes_spec(),
        decreases 3 - k,
    {
        let label = candidates[k];
        let text = label.as_text();
        let bytes = text.as_str().as_bytes();
        if same_bytes(b, bytes) {
            return Some(label);
        }
        k = k + 1;
    }
    assert(b@ != candidates@[0].bytes_spec());
    assert(b@ != candidates@[1].bytes_spec());
    assert(b@ != candidates@[2].bytes_spec());
    None
}

/// Byte-wise equality of two slices.
fn same_bytes(a: &[u8], b: &[u8]) -> (r: bool)
    ensures
        r == (a@ == b@),
{
    if a.len() != b.len() {
        return false;
    }
    let mut i: usize = 0;
    while i < a.len()
        invariant
            a@.len() == b@.len(),
            0 <= i <= a@.len(),
            a@.take(i as int) == b@.take(i as int),
        decreases a@.len() - i,
    {
        if a[i] != b[i] {
            assert(a@[i as int] != b@[i as int]);
            return false;
        }
        assert(a@.take(i + 1) =~= b@.take(i + 1)) by {
            assert(a@.take(i + 1) =~= a@.take(i as int).push(a@[i as int]));
            assert(b@.take(i + 1) =~= b@.take(i as int).push(b@[i as int]));
        }
        i = i + 1;
    }
    assert(a@ =~= a@.take(i as int));
    assert(b@ =~= b@.take(i as int));
    true
}

/// Serializes a record: name, slot id in decimal, usage label and public key, NUL between each.
pub fn encode(record: &KeyRecord) -> (r: Vec<u8>)
    ensures
        r@ == encode_spec(record@),
{
    let mut out: Vec<u8> = Vec::new();
    push_bytes(&mut out, record.key_name.as_str().as_bytes());
    out.push(0);
    push_decimal(&mut out, record.slot_id);
    out.push(0);
    let label = record.usage.as_text();
    push_bytes(&mut out, label.as_str().as_bytes());
    out.push(0);
    push_bytes(&mut out, record.public_key.as_str().as_bytes());
    assert(out@ =~= encode_spec(record@));
    out
}

/// Splits object data at its NUL bytes into its first four fields, each well-formed UTF-8.
pub open spec fn slot_fields_spec(b: Seq<u8>) -> Option<(Seq<char>, Seq<char>, Seq<char>, Seq<char>)> {
    let e0 = field_end(b, 0);
    let e1 = field_end(b, e0 + 1);
    let e2 = field_end(b, e1 + 1);
    let e3 = field_end(b, e2 + 1);
    let f0 = b.subrange(0, e0);
    let f1 = b.subrange(e0 + 1, e1);
    let f2 = b.subrange(e1 + 1, e2);
    let f3 = b.subrange(e2 + 1, e3);
    if e0 < b.len() && e1 < b.len() && e2 < b.len() && valid_utf8(f0) && valid_utf8(f1)
        && valid_utf8(f2) && valid_utf8(f3) {
        Some((decode_utf8(f0), decode_utf8(f1), decode_utf8(f2), decode_utf8(f3)))
    } else {
        None
    }
}

pub open spec fn ascii_bytes(b: Seq<u8>) -> bool {
    forall|i: int| 0 <= i < b.len() ==> #[trigger] b[i] <= 0x7f
}

proof fn lemma_ascii_valid_utf8(b: Seq<u8>)
    requires
        ascii_bytes(b),
    ensures
        valid_utf8(b),
    decreases b.len(),
{
    if b.len() > 0 {
        let b0 = b[0];
        assert(b0 <= 0x7f);
        assert((b0 & 0x7f) as u32 <= 0x7f) by (bit_vector);
        assert(valid_first_scalar(b));
        let rest = pop_first_scalar(b);
        assert(rest =~= b.subrange(1, b.len() as int));
        assert(ascii_bytes(rest)) by {
            assert forall|i: int| 0 <= i < rest.len() implies #[trigger] rest[i] <= 0x7f by {
                assert(rest[i] == b[i + 1]);
            }
        }
        lemma_ascii_valid_utf8(rest);
    }
}

proof fn lemma_digits_ascii(d: Seq<u8>)
    requires
        parse_spec(d) is Some,
    ensures
        valid_utf8(d),
{
    assert(ascii_bytes(d)) by {
        assert forall|i: int| 0 <= i < d.len() implies #[trigger] d[i] <= 0x7f by {
            assert(crate::decimal::is_digit(d[i]));
        }
    }
    lemma_ascii_valid_utf8(d);
}

proof fn lemma_label_ascii(l: Seq<u8>)
    requires
        label_of(l) is Some,
    ensures
        valid_utf8(l),
{
    let m = label_of(l)->0;
    assert(l == m.bytes_spec());
    assert(ascii_bytes(l));
    lemma_ascii_valid_utf8(l);
}

/// Splits object data into its first four NUL-separated fields: key name, slot id, usage
/// and public key. Fewer than four fields, or a field that is not UTF-8, is refused.
pub fn parse_slot_data(data: &[u8]) -> (r: Result<(String, String, String, String), SecurityModuleError>)
    ensures
        match slot_fields_spec(data@) {
            Some(f) => r matches Ok(t) && t.0@ == f.0 && t.1@ == f.1 && t.2@ == f.2 && t.3@ == f.3,
            None => r == Err::<(String, String, String, String), SecurityModuleError>(
                SecurityModuleError::MalformedRecord,
            ),
        },
{
    let len = data.len();
    let e0 = find_nul(data, 0);
    if e0 >= len {
        return Err(SecurityModuleError::MalformedRecord);
    }
    let e1 = find_nul(data, e0 + 1);
    if e1 >= len {
        return Err(SecurityModuleError::MalformedRecord);
    }
    let e2 = find_nul(data, e1 + 1);
    if e2 >= len {
        return Err(SecurityModuleError::MalformedRecord);
    }
    let e3 = find_nul(data, e2 + 1);
    let key_name = match utf8_string(copy_range(data, 0, e0)) {
        Some(s) => s,
        None => return Err(SecurityModuleError::MalformedRecord),
    };
    let slot = match utf8_string(copy_range(data, e0 + 1, e1)) {
        Some(s) => s,
        None => return Err(SecurityModuleError::MalformedRecord),
    };
    let usage = match utf8_string(copy_range(data, e1 + 1, e2)) {
        Some(s) => s,
        None => return Err(SecurityModuleError::MalformedRecord),
    };
    let public_key = match utf8_string(copy_range(data, e2 + 1, e3)) {
        Some(s) => s,
        None => return Err(SecurityModuleError::MalformedRecord),
    };
    Ok((key_name, slot, usage, public_key))
}

/// Reads a record back from object data; anything that is not a well-formed record is refused.
pub fn decode(data: &[u8]) -> (r: Result<KeyRecord, SecurityModuleError>)
    ensures
        match decode_spec(data@) {
            Some(m) => r matches Ok(rec) && rec@ == m,
            None => r == Err::<KeyRecord, SecurityModuleError>(SecurityModuleError::MalformedRecord),
        },
{
    let ghost b = data@;
    let ghost e0 = field_end(b, 0);
    let ghost e1 = field_end(b, e0 + 1);
    let ghost e2 = field_end(b, e1 + 1);
    let ghost f1 = b.subrange(e0 + 1, e1);
    let ghost f2 = b.subrange(e1 + 1, e2);
    proof {
        if parse_spec(f1) is Some {
            lemma_digits_ascii(f1);
        }
        if label_of(f2) is Some {
            lemma_label_ascii(f2);
        }
    }
    let (key_name, slot, usage, public_key) = match parse_slot_data(data) {
        Ok(t) => t,
        Err(e) => return Err(e),
    };
    proof {
        decode_utf8_encode_utf8(f1);
        decode_utf8_encode_utf8(f2);
    }
    let slot_id = match parse_decimal(slot.as_str().as_bytes()) {
        Some(n) => n,
        None => return Err(SecurityModuleError::MalformedRecord),
    };
    let label = match parse_label(usage.as_str().as_bytes()) {
        Some(l) => l,
        None => return Err(SecurityModuleError::MalformedRecord),
    };
    Ok(KeyRecord { key_name, slot_id, usage: label, public_key })
}

proof fn lemma_field_end_at(b: Seq<u8>, start: int, stop: int)
    requires
        0 <= start <= stop <= b.len(),
        forall|i: int| start <= i < stop ==> b[i] != 0,
        stop == b.len() || b[stop] == 0,
    ensures
        field_end(b, start) == stop,
    decreases stop - start,
{
    if start < stop {
        lemma_field_end_at(b, start + 1, stop);
    }
}

proof fn lemma_label_of(l: UsageLabel)
    ensures
        label_of(l.bytes_spec()) == Some(l),
        no_nul(l.bytes_spec()),
{
    let s = UsageLabel::Sign.bytes_spec();
    let e = UsageLabel::Encrypt.bytes_spec();
    let d = UsageLabel::Decrypt.bytes_spec();
    assert(s.len() != e.len());
    assert(s.len() != d.len());
    assert(e[0] != d[0]);
}

/// Decoding the serialized form of a record whose fields hold no NUL byte gives the record back.
pub proof fn lemma_round_trip(m: RecordModel)
    requires
        nul_free(m),
    ensures
        decode_spec(encode_spec(m)) == Some(m),
{
    let n = encode_utf8(m.key_name);
    let d = digits_of(m.slot_id as nat);
    let l = m.usage.bytes_spec();
    let k = encode_utf8(m.public_key);
    let b = encode_spec(m);
    lemma_digits_of(m.slot_id as nat);
    lemma_parse_digits(m.slot_id);
    lemma_label_of(m.usage);
    assert(all_digits(d));
    let e0 = n.len() as int;
    let e1 = e0 + 1 + d.len();
    let e2 = e1 + 1 + l.len();
    let e3 = b.len() as int;
    assert(b =~= n + seq![0u8] + d + seq![0u8] + l + seq![0u8] + k);
    assert forall|i: int| 0 <= i < e0 implies b[i] != 0 by {
        assert(b[i] == n[i]);
    }
    lemma_field_end_at(b, 0, e0);
    assert forall|i: int| e0 + 1 <= i < e1 implies b[i] != 0 by {
        assert(b[i] == d[i - e0 - 1]);
    }
    lemma_field_end_at(b, e0 + 1, e1);
    assert forall|i: int| e1 + 1 <= i < e2 implies b[i] != 0 by {
        assert(b[i] == l[i - e1 - 1]);
    }
    lemma_field_end_at(b, e1 + 1, e2);
    assert forall|i: int| e2 + 1 <= i < e3 implies b[i] != 0 by {
        assert(b[i] == k[i - e2 - 1]);
    }
    lemma_field_end_at(b, e2 + 1, e3);
    assert(b.subrange(0, e0) =~= n);
    assert(b.subrange(e0 + 1, e1) =~= d);
    assert(b.subrange(e1 + 1, e2) =~= l);
    assert(b.subrange(e2 + 1, e3) =~= k);
    encode_utf8_valid_utf8(m.key_name);
    encode_utf8_valid_utf8(m.public_key);
    encode_utf8_decode_utf8(m.key_name);
    encode_utf8_decode_utf8(m.public_key);
}

} // verus!
