use aurora::base64::{base64_decode, base64_decode_bytes, base64_encode};
use aurora::crypto::{hex_encode, sign, verify};

#[test]
fn hex_encodes_bytes_in_lower_case() {
    assert_eq!(hex_encode(&[]), "");
    assert_eq!(hex_encode(&[0x00, 0x0f, 0xa5, 0xff]), "000fa5ff");
}

#[test]
fn signs_with_hmac_sha256() {
    let sig = sign("opus-demo-ledger-secret", "did:opus:alice", "hello");
    assert_eq!(
        sig,
        "mac:61a5c549a67b2b6d73d01befaf785b71849c0b596894d35ed0053cab7b06bc38"
    );
    assert_eq!(
        sign("k", "", ""),
        "mac:fd5b45bf728252b92c56921bc9975e612f29871b99a41760a3b6ffafdab1323c"
    );
}

#[test]
fn verifies_only_the_matching_signature() {
    let sig = sign("secret", "did:opus:bob", "payload");
    assert_eq!(sig.len(), 68);
    assert!(verify("secret", "did:opus:bob", "payload", &sig));
    assert!(!verify("secret", "did:opus:bob", "payload2", &sig));
    assert!(!verify("other", "did:opus:bob", "payload", &sig));
    assert!(!verify("secret", "did:opus:bo", "bpayload", &sig));
    assert!(!verify("secret", "did:opus:bob", "payload", ""));
}

#[test]
fn encodes_base64_with_padding() {
    assert_eq!(base64_encode(b""), "");
    assert_eq!(base64_encode(b"f"), "Zg==");
    assert_eq!(base64_encode(b"fo"), "Zm8=");
    assert_eq!(base64_encode(b"foo"), "Zm9v");
    assert_eq!(base64_encode(b"foobar"), "Zm9vYmFy");
    assert_eq!(base64_encode(&[0xff, 0xfe]), "//4=");
}

#[test]
fn decodes_base64() {
    assert_eq!(base64_decode("Zm9vYmFy"), Some("foobar".to_string()));
    assert_eq!(base64_decode("Zg=="), Some("f".to_string()));
    assert_eq!(base64_decode("Zm8="), Some("fo".to_string()));
    assert_eq!(base64_decode("Zm9v\r\nYmFy "), Some("foobar".to_string()));
    // A trailing group shorter than four characters is ignored.
    assert_eq!(base64_decode("Zm9vYg"), Some("foo".to_string()));
    assert_eq!(base64_decode(""), Some(String::new()));
}

#[test]
fn rejects_bad_base64() {
    assert_eq!(base64_decode("Zm!v"), None);
    assert_eq!(base64_decode("=m9v"), None);
    // Valid base64 of bytes that are not UTF-8.
    assert_eq!(base64_decode("//4="), None);
    assert_eq!(base64_decode_bytes(b"//4="), Some(vec![0xff, 0xfe]));
}

#[test]
fn base64_round_trips() {
    let data: Vec<u8> = (0u8..=255).collect();
    let text = base64_encode(&data);
    assert_eq!(base64_decode_bytes(text.as_bytes()), Some(data));
    let s = "Grüße, 世界!";
    assert_eq!(base64_decode(&base64_encode(s.as_bytes())), Some(s.to_string()));
}

#[test]
fn base64_round_trips_any_text() {
    for s in ["", "a", "héllo wörld", "日本語のテキスト", "emoji 🦀!", "\u{0}\u{7f}\u{80}"] {
        let encoded = base64_encode(s.as_bytes());
        assert_eq!(encoded.len(), 4 * ((s.len() + 2) / 3));
        assert_eq!(base64_decode(&encoded), Some(s.to_string()));
    }
    // Bytes that are not UTF-8 decode to nothing.
    assert_eq!(base64_decode(&base64_encode(&[0xff, 0xfe])), None);
}
