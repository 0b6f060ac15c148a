//! PEM armor around the base64 text of a DER-encoded public key.
use base64::Engine;
use vstd::prelude::*;
use vstd::utf8::*;

use crate::codec::no_nul;

verus! {

/// The standard base64 text of some bytes, as the `base64` crate produces it.
pub uninterp spec fn base64_of(b: Seq<u8>) -> Seq<char>;

/// A character of the standard base64 alphabet, or the padding sign.
pub open spec fn is_base64_char(c: char) -> bool {
    ('A' <= c <= 'Z') || ('a' <= c <= 'z') || ('0' <= c <= '9') || c == '+' || c == '/' || c
        == '='
}

/// Relies on `base64::engine::general_purpose::STANDARD.encode`: its text is drawn from the
/// standard alphabet with `=` padding. The length bound keeps its size computation from
/// overflowing, which would panic.
#[verifier::external_body]
fn base64_standard(der: &[u8]) -> (r: String)
    requires
        der@.len() <= usize::MAX / 4,
    ensures
        r@ == base64_of(der@),
        forall|i: int| 0 <= i < r@.len() ==> is_base64_char(#[trigger] r@[i]),
{
    base64::engine::general_purpose::STANDARD.encode(der)
}

pub open spec fn pem_header() -> Seq<char> {
    "-----BEGIN PUBLIC KEY-----\n"@
}

pub open spec fn pem_footer() -> Seq<char> {
    "\n-----END PUBLIC KEY-----"@
}

/// The armored form of a base64 body.
pub open spec fn pem_spec(body: Seq<char>) -> Seq<char> {
    pem_header() + body + pem_footer()
}

/// Printable ASCII text, line breaks allowed.
pub open spec fn plain_ascii(s: Seq<char>) -> bool {
    forall|i: int| 0 <= i < s.len() ==> '\0' < #[trigger] s[i] <= '\u{7f}'
}

pub proof fn lemma_plain_ascii_no_nul(s: Seq<char>)
    requires
        plain_ascii(s),
    ensures
        no_nul(encode_utf8(s)),
{
    assert(is_ascii_chars(s));
    is_ascii_chars_encode_utf8(s);
    let b = encode_utf8(s);
    assert forall|i: int| 0 <= i < b.len() implies b[i] != 0 by {
        assert('\0' < s[i] <= '\u{7f}');
        assert(b[i] == s[i] as u8);
    }
}

/// Wraps the base64 text of a DER public key in `PUBLIC KEY` armor.
pub fn pem_public_key(der: &[u8]) -> (r: String)
    requires
        der@.len() <= usize::MAX / 4,
    ensures
        r@ == pem_spec(base64_of(der@)),
        plain_ascii(r@),
{
    let body = base64_standard(der);
    let mut r = String::from_str("-----BEGIN PUBLIC KEY-----\n");
    r.append(body.as_str());
    r.append("\n-----END PUBLIC KEY-----");
    proof {
        reveal_strlit("-----BEGIN PUBLIC KEY-----\n");
        reveal_strlit("\n-----END PUBLIC KEY-----");
        assert(r@ =~= pem_spec(base64_of(der@)));
        let h = pem_header();
        assert forall|i: int| 0 <= i < r@.len() implies '\0' < #[trigger] r@[i] <= '\u{7f}' by {
            if i >= h.len() && i < h.len() + body@.len() {
                assert(r@[i] == body@[i - h.len()]);
                assert(is_base64_char(body@[i - h.len()]));
            }
        }
    }
    r
}

} // verus!
