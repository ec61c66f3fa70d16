//! Ledger signatures: `mac:` followed by the lower-case hexadecimal HMAC-SHA256
//! of `signer:payload` under a secret key.
use vstd::prelude::*;
use hmac::Mac;
use vstd::string::StringSliceAdditionalSpecFns;

verus! {

/// What HMAC-SHA256 (`hmac::Hmac<sha2::Sha256>`) gives for a key and a message.
pub uninterp spec fn hmac_sha256_of(key: Seq<u8>, msg: Seq<u8>) -> Seq<u8>;

/// `hmac::Hmac::<sha2::Sha256>::new_from_slice`, `update`, `finalize`: the
/// HMAC-SHA256 tag of `msg` under `key`. Any key length is accepted (the
/// constructor never fails). Stated: the tag is the named value of key and
/// message, and it is 32 bytes long (the SHA-256 output size).
#[verifier::external_body]
fn hmac_sha256(key: &[u8], msg: &[u8]) -> (r: Vec<u8>)
    ensures
        r@ == hmac_sha256_of(key@, msg@),
        r@.len() == 32,
{
    let mut mac = <hmac::Hmac<sha2::Sha256> as Mac>::new_from_slice(key).unwrap();
    mac.update(msg);
    mac.finalize().into_bytes().to_vec()
}

/// The lower-case hexadecimal digit for `d`.
pub open spec fn hex_digit(d: int) -> char {
    if d < 10 {
        ((d + 48) as u8) as char
    } else {
        ((d + 87) as u8) as char
    }
}

/// Two lower-case hexadecimal digits per byte.
pub open spec fn hex_text(b: Seq<u8>) -> Seq<char>
    decreases b.len(),
{
    if b.len() == 0 {
        seq![]
    } else {
        hex_text(b.drop_last()) + seq![hex_digit(b.last() as int / 16), hex_digit(b.last() as int % 16)]
    }
}

/// The message that is signed: signer, `:`, payload, as UTF-8 bytes.
pub open spec fn signed_message(signer: &str, payload: &str) -> Seq<u8> {
    signer.spec_bytes() + seq![58u8] + payload.spec_bytes()
}

/// The signature of a payload by a signer under a key.
pub open spec fn signature_of(key: &str, signer: &str, payload: &str) -> Seq<char> {
    "mac:"@ + hex_text(hmac_sha256_of(key.spec_bytes(), signed_message(signer, payload)))
}

fn hex_digit_char(d: u8) -> (r: char)
    requires
        d < 16,
    ensures
        r == hex_digit(d as int),
{
    if d < 10 {
        (d + 48) as char
    } else {
        (d + 87) as char
    }
}

/// Two lower-case hexadecimal digits per byte.
pub fn hex_encode(bytes: &[u8]) -> (r: String)
    ensures
        r@ == hex_text(bytes@),
{
    let mut out: Vec<char> = Vec::new();
    let mut i: usize = 0;
    while i < bytes.len()
        invariant
            i <= bytes.len(),
            out@ == hex_text(bytes@.take(i as int)),
        decreases bytes.len() - i,
    {
        let b = bytes[i];
        out.push(hex_digit_char(b / 16));
        out.push(hex_digit_char(b % 16));
        proof {
            assert(bytes@.take(i + 1).drop_last() =~= bytes@.take(i as int));
            assert(bytes@.take(i + 1).last() == b);
        }
        i = i + 1;
        assert(out@ =~= hex_text(bytes@.take(i as int)));
    }
    assert(bytes@.take(bytes.len() as int) =~= bytes@);
    crate::text::string_of(out.as_slice())
}

/// Signs `payload` for `signer_did` with the ledger key.
pub fn sign(key: &str, signer_did: &str, payload: &str) -> (r: String)
    ensures
        r@ == signature_of(key, signer_did, payload),
        r@.len() == 68,
{
    let mut msg: Vec<u8> = Vec::new();
    let s = signer_did.as_bytes();
    let p = payload.as_bytes();
    let mut i: usize = 0;
    while i < s.len()
        invariant
            i <= s.len(),
            msg@ == s@.take(i as int),
        decreases s.len() - i,
    {
        msg.push(s[i]);
        i = i + 1;
        assert(msg@ =~= s@.take(i as int));
    }
    msg.push(58u8);
    let ghost head = msg@;
    let mut j: usize = 0;
    while j < p.len()
        invariant
            j <= p.len(),
            msg@ == head + p@.take(j as int),
        decreases p.len() - j,
    {
        msg.push(p[j]);
        j = j + 1;
        assert(msg@ =~= head + p@.take(j as int));
    }
    assert(s@.take(s.len() as int) =~= s@);
    assert(p@.take(p.len() as int) =~= p@);
    assert(msg@ =~= signed_message(signer_did, payload));
    let tag = hmac_sha256(key.as_bytes(), msg.as_slice());
    let hex = hex_encode(tag.as_slice());
    proof {
        lemma_hex_len(tag@);
        reveal_strlit("mac:");
    }
    let mut out: Vec<char> = Vec::new();
    crate::text::push_str(&mut out, "mac:");
    crate::text::push_str(&mut out, hex.as_str());
    crate::text::string_of(out.as_slice())
}

/// Whether `signature` is the signature of `payload` by `signer_did` under the key.
pub fn verify(key: &str, signer_did: &str, payload: &str, signature: &str) -> (r: bool)
    ensures
        r == (signature@ == signature_of(key, signer_did, payload)),
{
    let expected = sign(key, signer_did, payload);
    crate::strmap::str_eq(expected.as_str(), signature)
}

/// Different bytes have different hexadecimal text, so different tags give
/// different signatures.
pub proof fn law_hex_injective(a: Seq<u8>, b: Seq<u8>)
    requires
        hex_text(a) == hex_text(b),
    ensures
        a == b,
    decreases a.len(),
{
    lemma_hex_len(a);
    lemma_hex_len(b);
    if a.len() > 0 {
        let ha = hex_text(a);
        let n = ha.len();
        assert(ha[n - 2] == hex_digit(a.last() as int / 16));
        assert(ha[n - 1] == hex_digit(a.last() as int % 16));
        assert(hex_text(b)[n - 2] == hex_digit(b.last() as int / 16));
        assert(hex_text(b)[n - 1] == hex_digit(b.last() as int % 16));
        lemma_hex_digit_injective(a.last() as int / 16, b.last() as int / 16);
        lemma_hex_digit_injective(a.last() as int % 16, b.last() as int % 16);
        assert(a.last() == b.last());
        lemma_hex_len(a.drop_last());
        assert(hex_text(a.drop_last()) =~= ha.subrange(0, n - 2));
        assert(hex_text(b.drop_last()) =~= hex_text(b).subrange(0, n - 2));
        law_hex_injective(a.drop_last(), b.drop_last());
        assert(a =~= a.drop_last().push(a.last()));
        assert(b =~= b.drop_last().push(b.last()));
    } else {
        assert(b.len() == 0);
        assert(a =~= b);
    }
}

proof fn lemma_hex_digit_injective(x: int, y: int)
    requires
        0 <= x < 16,
        0 <= y < 16,
        hex_digit(x) == hex_digit(y),
    ensures
        x == y,
{
}

/// Hexadecimal text has two digits per byte.
pub proof fn lemma_hex_len(b: Seq<u8>)
    ensures
        hex_text(b).len() == 2 * b.len(),
    decreases b.len(),
{
    if b.len() > 0 {
        lemma_hex_len(b.drop_last());
    }
}

} // verus!
