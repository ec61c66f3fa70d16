use aurora::bridge::{
    create_record_url, delivery_headers_at, delivery_headers_now, i64_text, strip_leading_chars,
    ApActivity, AtMessage, ConversationParticipant, RelayError, Resolver, Translator,
};
use aurora::html_lex::replace_str;
use aurora::identity::RemoteDidResolver;
use base64ct::Encoding;
use k256::ecdsa::signature::Verifier;
use k256::pkcs8::{DecodePrivateKey, EncodePrivateKey};

/// A PKCS#8 PEM secp256k1 key made from a fixed scalar, so the tests carry no key text.
fn key_pem() -> String {
    let scalar: Vec<u8> = (1u8..=32).collect();
    let key = k256::ecdsa::SigningKey::from_slice(&scalar).unwrap();
    let pem = key.to_pkcs8_pem(k256::pkcs8::LineEnding::LF).unwrap();
    pem.to_string()
}

fn chars(s: &str) -> Vec<char> {
    s.chars().collect()
}

fn text(v: &[char]) -> String {
    v.iter().collect()
}

#[test]
fn replaces_like_str_replace() {
    for (s, p, r) in [
        ("http://a/b/c", "/", "-"),
        ("aaaa", "aa", "b"),
        ("http://http://x", "http://", ""),
        ("", "x", "y"),
        ("abc", "abcd", "z"),
    ] {
        assert_eq!(text(&replace_str(&chars(s), p, r)), s.replace(p, r));
    }
    for (s, p) in [("did:web:did:web:x", "did:web:"), ("xx", "x"), ("abc", "b")] {
        assert_eq!(
            text(&strip_leading_chars(&chars(s), &chars(p))),
            s.trim_start_matches(p)
        );
    }
}

#[test]
fn writes_integers_in_decimal() {
    for v in [0i64, 7, -7, 42, 1000, -1000, i64::MAX, i64::MIN] {
        assert_eq!(text(&i64_text(v)), v.to_string());
    }
}

#[test]
fn finds_did_documents() {
    assert_eq!(
        Resolver::document_url("did:plc:abc123"),
        Some("https://plc.directory/did:plc:abc123".to_string())
    );
    assert_eq!(
        Resolver::document_url("did:web:example.com"),
        Some("https://example.com/.well-known/did.json".to_string())
    );
    assert_eq!(
        Resolver::document_url("did:web:did:web:x.org"),
        Some("https://x.org/.well-known/did.json".to_string())
    );
    assert_eq!(Resolver::document_url("did:key:z6Mk"), None);
    assert_eq!(
        Resolver::failure_message("did:key:z6Mk"),
        "Unsupported or unresolvable DID: did:key:z6Mk"
    );
}

#[test]
fn translates_atproto_messages_to_activitypub() {
    let msg = AtMessage {
        id: Some(42),
        author_handle: Some("alice.bsky".to_string()),
        content: Some("hello".to_string()),
        created_at: Some("2024-01-01T00:00:00Z".to_string()),
    };
    let a = Translator::atproto_to_activitypub(&msg);
    assert_eq!(a.context, "https://www.w3.org/ns/activitystreams");
    assert_eq!(a.kind, "Create");
    assert_eq!(a.id, "http://localhost:8081/bridge/atproto/42");
    assert_eq!(a.actor, "http://localhost:8080/actor/alice.bsky");
    assert_eq!(a.object.id, "http://localhost:8081/bridge/atproto/42/note");
    assert_eq!(a.object.kind, "Note");
    assert_eq!(a.object.published, "2024-01-01T00:00:00Z");
    assert_eq!(a.object.attributed_to, "http://localhost:8080/actor/alice.bsky");
    assert_eq!(a.object.content, "hello");
    assert_eq!(a.object.to, vec!["https://www.w3.org/ns/activitystreams#Public".to_string()]);
}

#[test]
fn fills_in_missing_message_fields() {
    let msg = AtMessage { id: None, author_handle: None, content: None, created_at: None };
    let a = Translator::atproto_to_activitypub_at(&msg, "2025-05-05T05:05:05+00:00");
    assert_eq!(a.id, "http://localhost:8081/bridge/atproto/0");
    assert_eq!(a.actor, "http://localhost:8080/actor/unknown");
    assert_eq!(a.object.content, "");
    assert_eq!(a.object.published, "2025-05-05T05:05:05+00:00");
    let b = Translator::atproto_to_activitypub(&msg);
    assert!(!b.object.published.is_empty());
    assert!(b.object.published.starts_with("20"));
}

#[test]
fn translates_activitypub_notes_to_atproto() {
    let act = ApActivity {
        kind: Some("Create".to_string()),
        actor: Some("http://mastodon.local/users/bob".to_string()),
        object_kind: Some("Note".to_string()),
        object_content: Some("<p>hi</p>".to_string()),
        object_id: Some("http://mastodon.local/notes/1".to_string()),
    };
    let r = Translator::activitypub_to_atproto(&act).unwrap();
    assert_eq!(r.content, "<p>hi</p>");
    assert_eq!(r.author_did, "did:activitypub:mastodon.local-users-bob");
    assert_eq!(r.author_handle, "http://mastodon.local/users/bob");
    assert_eq!(r.external_id, "http://mastodon.local/notes/1");
    assert_eq!(r.protocol, "activitypub");

    let bare = ApActivity {
        kind: Some("Create".to_string()),
        actor: None,
        object_kind: Some("Note".to_string()),
        object_content: None,
        object_id: None,
    };
    let r = Translator::activitypub_to_atproto(&bare).unwrap();
    assert_eq!(r.author_did, "did:activitypub:unknown");
    assert_eq!(r.content, "");
}

#[test]
fn ignores_other_activities() {
    let like = ApActivity {
        kind: Some("Like".to_string()),
        actor: None,
        object_kind: Some("Note".to_string()),
        object_content: None,
        object_id: None,
    };
    assert_eq!(Translator::activitypub_to_atproto(&like), None);
    let article = ApActivity {
        kind: Some("Create".to_string()),
        actor: None,
        object_kind: Some("Article".to_string()),
        object_content: None,
        object_id: None,
    };
    assert_eq!(Translator::activitypub_to_atproto(&article), None);
    let untyped = ApActivity { kind: None, actor: None, object_kind: None, object_content: None, object_id: None };
    assert_eq!(Translator::activitypub_to_atproto(&untyped), None);
}

#[test]
fn signs_deliveries() {
    let date = "Mon, 01 Jan 2024 00:00:00 +0000";
    let headers = delivery_headers_at(
        "http://localhost:8080/inbox",
        &key_pem(),
        "http://localhost:8081/actor/bridge#main-key",
        date,
    )
    .unwrap();
    assert_eq!(headers.len(), 4);
    assert_eq!(headers[0], ("host".to_string(), "localhost".to_string()));
    assert_eq!(headers[1], ("date".to_string(), date.to_string()));
    assert_eq!(
        headers[3],
        ("Content-Type".to_string(), "application/activity+json".to_string())
    );
    let (name, value) = &headers[2];
    assert_eq!(name, "Signature");
    let prefix = "keyId=\"http://localhost:8081/actor/bridge#main-key\",algorithm=\"hs2019\",headers=\"(request-target) host date\",signature=\"";
    assert!(value.starts_with(prefix));
    assert!(value.ends_with('"'));
    let sig_text = &value[prefix.len()..value.len() - 1];
    assert_eq!(sig_text.len(), 86);
    let sig_bytes = base64ct::Base64UrlUnpadded::decode_vec(sig_text).unwrap();
    let sig = k256::ecdsa::Signature::from_slice(&sig_bytes).unwrap();
    let key = k256::ecdsa::SigningKey::from_pkcs8_pem(&key_pem()).unwrap();
    let signed = format!("(request-target): post /inbox\nhost: localhost\ndate: {date}");
    assert!(key.verifying_key().verify(signed.as_bytes(), &sig).is_ok());
    // Deterministic: the same inputs give the same headers.
    let again = delivery_headers_at(
        "http://localhost:8080/inbox",
        &key_pem(),
        "http://localhost:8081/actor/bridge#main-key",
        date,
    )
    .unwrap();
    assert_eq!(again, headers);
}

#[test]
fn refuses_bad_deliveries() {
    assert_eq!(
        delivery_headers_at("not a url", &key_pem(), "k", "d"),
        Err(RelayError::InvalidUrl("relative URL without a base".to_string()))
    );
    assert_eq!(
        delivery_headers_at("mailto:someone@example.com", &key_pem(), "k", "d"),
        Err(RelayError::MissingHost)
    );
    assert!(matches!(
        delivery_headers_at("http://h/inbox", "not a key", "k", "d"),
        Err(RelayError::InvalidKey(_))
    ));
    assert!(delivery_headers_now("http://h/inbox", &key_pem(), "k").is_ok());
}

#[test]
fn builds_record_creation_addresses() {
    assert_eq!(
        create_record_url("https://pds.example"),
        "https://pds.example/xrpc/com.atproto.repo.createRecord"
    );
}

#[test]
fn builds_resolver_addresses() {
    let r = RemoteDidResolver::new("http://localhost:3000");
    assert_eq!(
        r.resolve_url("did:plc:abc"),
        Ok("http://localhost:3000/api/did/resolve?did=did%3Aplc%3Aabc".to_string())
    );
    assert_eq!(
        r.resolve_url("a b&c"),
        Ok("http://localhost:3000/api/did/resolve?did=a+b%26c".to_string())
    );
    let bad = RemoteDidResolver::new("nowhere");
    assert_eq!(
        bad.resolve_url("did:plc:abc"),
        Err("Invalid resolver base URL: relative URL without a base".to_string())
    );
}

#[test]
fn refuses_header_values_that_http_forbids() {
    assert_eq!(
        delivery_headers_at("http://h/inbox", &key_pem(), "k", "Mon,\n01 Jan"),
        Err(RelayError::InvalidHeaderValue)
    );
    assert_eq!(
        delivery_headers_at("http://h/inbox", &key_pem(), "key\u{7f}", "d"),
        Err(RelayError::InvalidHeaderValue)
    );
    assert!(delivery_headers_at("http://h/inbox", &key_pem(), "k\tü", "Mo 1 Jän").is_ok());
    assert!(matches!(
        delivery_headers_at("http://h/inbox", "not a key", "k", "\n"),
        Err(RelayError::InvalidKey(_))
    ));
}

#[test]
fn conversation_participants_copy_whole() {
    let p = ConversationParticipant {
        id: 7,
        conversation_id: 3,
        did: "did:plc:abc".to_string(),
        handle: "alice.example".to_string(),
    };
    let q = p.clone();
    assert_eq!(q, p);
    assert_eq!(q.handle, "alice.example");
}
