//! The protocol bridge: AT Protocol message records turned into ActivityPub
//! `Create` activities and back, where a DID document is fetched from, and the
//! signed request that relays an activity to an inbox.
use vstd::prelude::*;
use crate::text::{chars_of, string_of, push_str, push_all, occurs_at, occurs_chars_at, starts_with_str};
use crate::fetch::{dec_text, digit_char};
use crate::css::opt_chars;
use crate::html_lex::{replace_all, replace_str};
use crate::base64::b64_encode_spec;
use vstd::utf8::encode_utf8;
use k256::pkcs8::DecodePrivateKey;
use k256::ecdsa::signature::Signer;
use base64ct::Encoding;

verus! {

/// `s` with `pat` taken off its front as many times as it occurs there (as
/// `str::trim_start_matches` does for a non-empty pattern).
pub open spec fn strip_leading(s: Seq<char>, pat: Seq<char>) -> Seq<char>
    decreases s.len(),
{
    if pat.len() > 0 && occurs_at(s, pat, 0) {
        strip_leading(s.skip(pat.len() as int), pat)
    } else {
        s
    }
}

proof fn lemma_occurs_skip(s: Seq<char>, pat: Seq<char>, i: int)
    requires
        0 <= i <= s.len(),
    ensures
        occurs_at(s, pat, i) == occurs_at(s.skip(i), pat, 0),
        occurs_at(s, pat, i) ==> s.skip(i).skip(pat.len() as int) == s.skip(i + pat.len()),
{
    if i + pat.len() <= s.len() {
        assert(s.skip(i).subrange(0, pat.len() as int) =~= s.subrange(i, i + pat.len()));
    }
    if occurs_at(s, pat, i) {
        assert(s.skip(i).skip(pat.len() as int) =~= s.skip(i + pat.len()));
    }
}

/// `s` with `pat` taken off its front as many times as it occurs there.
pub fn strip_leading_chars(s: &[char], pat: &[char]) -> (r: Vec<char>)
    requires
        pat.len() > 0,
    ensures
        r@ == strip_leading(s@, pat@),
{
    let mut i: usize = 0;
    assert(s@.skip(0) =~= s@);
    while i < s.len()
        invariant
            i <= s.len(),
            pat.len() > 0,
            strip_leading(s@.skip(i as int), pat@) == strip_leading(s@, pat@),
        ensures
            i <= s.len(),
            strip_leading(s@.skip(i as int), pat@) == strip_leading(s@, pat@),
            i == s.len() || !occurs_at(s@, pat@, i as int),
        decreases s.len() - i,
    {
        proof {
            lemma_occurs_skip(s@, pat@, i as int);
        }
        if occurs_chars_at(s, pat, i) {
            i = i + pat.len();
        } else {
            break;
        }
    }
    proof {
        if i == s.len() {
            assert(s@.skip(i as int) =~= Seq::<char>::empty());
        }
        lemma_occurs_skip(s@, pat@, i as int);
        assert(s@.subrange(i as int, s@.len() as int) =~= s@.skip(i as int));
    }
    crate::text::slice_of(s, i, s.len())
}


/// The decimal text of an integer, with `-` before a negative one.
pub open spec fn int_text(v: int) -> Seq<char> {
    if v < 0 {
        seq!['-'] + dec_text((-v) as nat)
    } else {
        dec_text(v as nat)
    }
}

fn digit_of(d: u64) -> (r: char)
    requires
        d < 10,
    ensures
        r == digit_char(d as int),
{
    if d == 0 {
        '0'
    } else if d == 1 {
        '1'
    } else if d == 2 {
        '2'
    } else if d == 3 {
        '3'
    } else if d == 4 {
        '4'
    } else if d == 5 {
        '5'
    } else if d == 6 {
        '6'
    } else if d == 7 {
        '7'
    } else if d == 8 {
        '8'
    } else {
        '9'
    }
}

/// The decimal digits of `n`.
fn push_decimal(out: &mut Vec<char>, n: u64)
    ensures
        final(out)@ == old(out)@ + dec_text(n as nat),
    decreases n,
{
    if n < 10 {
        out.push(digit_of(n));
    } else {
        push_decimal(out, n / 10);
        out.push(digit_of(n % 10));
        assert(final(out)@ =~= old(out)@ + dec_text(n as nat));
    }
}

/// The decimal text of `v`, as `format!("{}", v)` writes it.
pub fn i64_text(v: i64) -> (r: Vec<char>)
    ensures
        r@ == int_text(v as int),
{
    let mut out: Vec<char> = Vec::new();
    if v < 0 {
        out.push('-');
        let m: u64 = ((-(v + 1)) as u64) + 1;
        push_decimal(&mut out, m);
    } else {
        push_decimal(&mut out, v as u64);
    }
    assert(out@ =~= int_text(v as int));
    out
}

// ---------------------------------------------------------------------------
// Where DID documents are found.
// ---------------------------------------------------------------------------

/// The address of the document of a `did:plc:` DID (the PLC directory) or of a
/// `did:web:` DID (`/.well-known/did.json` on its host); `None` for other methods.
pub open spec fn did_document_url(did: Seq<char>) -> Option<Seq<char>> {
    if occurs_at(did, "did:plc:"@, 0) {
        Some("https://plc.directory/"@ + did)
    } else if occurs_at(did, "did:web:"@, 0) {
        Some("https://"@ + strip_leading(did, "did:web:"@) + "/.well-known/did.json"@)
    } else {
        None
    }
}

/// Finds where the document of a DID lives.
pub struct Resolver;

impl Resolver {
    /// The address to fetch the document of `did` from; `None` for a DID
    /// method the bridge does not resolve.
    pub fn document_url(did: &str) -> (r: Option<String>)
        ensures
            opt_chars(r) == did_document_url(did@),
    {
        let d = chars_of(did);
        proof {
            reveal_strlit("did:plc:");
            reveal_strlit("did:web:");
            reveal_strlit("https://plc.directory/");
            reveal_strlit("https://");
            reveal_strlit("/.well-known/did.json");
        }
        if starts_with_str(d.as_slice(), "did:plc:") {
            let mut out: Vec<char> = Vec::new();
            push_str(&mut out, "https://plc.directory/");
            push_all(&mut out, d.as_slice());
            Some(string_of(out.as_slice()))
        } else if starts_with_str(d.as_slice(), "did:web:") {
            let prefix = chars_of("did:web:");
            let host = strip_leading_chars(d.as_slice(), prefix.as_slice());
            let mut out: Vec<char> = Vec::new();
            push_str(&mut out, "https://");
            push_all(&mut out, host.as_slice());
            push_str(&mut out, "/.well-known/did.json");
            Some(string_of(out.as_slice()))
        } else {
            None
        }
    }

    /// The error for a DID that could not be resolved: its method is not
    /// supported, or its document could not be had.
    pub fn failure_message(did: &str) -> (r: String)
        ensures
            r@ == "Unsupported or unresolvable DID: "@ + did@,
    {
        let mut out: Vec<char> = Vec::new();
        push_str(&mut out, "Unsupported or unresolvable DID: ");
        push_str(&mut out, did);
        string_of(out.as_slice())
    }
}


// ---------------------------------------------------------------------------
// Translation between the two protocols.
// ---------------------------------------------------------------------------

/// An AT Protocol message record, by the fields that the translation reads;
/// a field is `None` where the record lacks it or holds another JSON type.
#[derive(Debug, PartialEq, Eq)]
pub struct AtMessage {
    pub id: Option<i64>,
    pub author_handle: Option<String>,
    pub content: Option<String>,
    pub created_at: Option<String>,
}

/// The `Note` object of an ActivityPub `Create` activity.
#[derive(Debug, PartialEq, Eq)]
pub struct ApNote {
    pub id: String,
    pub kind: String,
    pub published: String,
    pub attributed_to: String,
    pub content: String,
    pub to: Vec<String>,
}

/// An ActivityPub `Create` activity with its `@context`.
#[derive(Debug, PartialEq, Eq)]
pub struct ApCreate {
    pub context: String,
    pub kind: String,
    pub id: String,
    pub actor: String,
    pub object: ApNote,
}

/// An ActivityPub activity, by the fields that the translation reads: its
/// `type` and `actor`, and its object's `type`, `content` and `id`; a field is
/// `None` where the activity lacks it or holds another JSON type.
#[derive(Debug, PartialEq, Eq)]
pub struct ApActivity {
    pub kind: Option<String>,
    pub actor: Option<String>,
    pub object_kind: Option<String>,
    pub object_content: Option<String>,
    pub object_id: Option<String>,
}

/// An AT Protocol message record made from an ActivityPub note.
#[derive(Debug, PartialEq, Eq)]
pub struct AtRecord {
    pub content: String,
    pub author_did: String,
    pub author_handle: String,
    pub external_id: String,
    pub protocol: String,
}

/// A `Create` activity by its texts: context, type, id, actor, and the note's
/// id, type, publication time, author, content and audience.
pub struct CreateView {
    pub context: Seq<char>,
    pub kind: Seq<char>,
    pub id: Seq<char>,
    pub actor: Seq<char>,
    pub note_id: Seq<char>,
    pub note_kind: Seq<char>,
    pub published: Seq<char>,
    pub attributed_to: Seq<char>,
    pub content: Seq<char>,
    pub to: Seq<Seq<char>>,
}

pub open spec fn create_view(a: ApCreate) -> CreateView {
    CreateView {
        context: a.context@,
        kind: a.kind@,
        id: a.id@,
        actor: a.actor@,
        note_id: a.object.id@,
        note_kind: a.object.kind@,
        published: a.object.published@,
        attributed_to: a.object.attributed_to@,
        content: a.object.content@,
        to: a.object.to@.map_values(|t: String| t@),
    }
}

/// An optional text, or `dflt` when it is absent.
pub open spec fn text_or(t: Option<String>, dflt: Seq<char>) -> Seq<char> {
    match t {
        Some(s) => s@,
        None => dflt,
    }
}

/// When the record was created: its `createdAt`, or empty.
pub open spec fn created_of(m: AtMessage) -> Seq<char> {
    text_or(m.created_at, seq![])
}

/// The ActivityPub address of an AT Protocol author.
pub open spec fn actor_url(handle: Seq<char>) -> Seq<char> {
    "http://localhost:8080/actor/"@ + handle
}

/// The `Create` activity for a message record, published at `published`: its
/// id is the bridge address of the record's `id` (0 when absent), its actor the
/// author's handle (`unknown` when absent), its note public.
pub open spec fn create_for(m: AtMessage, published: Seq<char>) -> CreateView {
    let id = "http://localhost:8081/bridge/atproto/"@ + int_text(
        match m.id {
            Some(v) => v as int,
            None => 0,
        },
    );
    let actor = actor_url(text_or(m.author_handle, "unknown"@));
    CreateView {
        context: "https://www.w3.org/ns/activitystreams"@,
        kind: "Create"@,
        id: id,
        actor: actor,
        note_id: id + "/note"@,
        note_kind: "Note"@,
        published: published,
        attributed_to: actor,
        content: text_or(m.content, seq![]),
        to: seq!["https://www.w3.org/ns/activitystreams#Public"@],
    }
}

/// The DID given to an ActivityPub author: `did:activitypub:` and the actor
/// address with `http://` dropped and each `/` made `-`.
pub open spec fn activitypub_did(actor: Seq<char>) -> Seq<char> {
    "did:activitypub:"@ + replace_all(replace_all(actor, "http://"@, ""@), "/"@, "-"@)
}

/// The record for an activity: a `Create` whose object is a `Note` gives one,
/// with the note's content and id (empty when absent) and the actor
/// (`unknown` when absent); anything else gives none.
pub open spec fn record_for(a: ApActivity) -> Option<(Seq<char>, Seq<char>, Seq<char>, Seq<char>, Seq<char>)> {
    if opt_chars(a.kind) == Some("Create"@) && opt_chars(a.object_kind) == Some("Note"@) {
        let author = text_or(a.actor, "unknown"@);
        Some((
            text_or(a.object_content, seq![]),
            activitypub_did(author),
            author,
            text_or(a.object_id, seq![]),
            "activitypub"@,
        ))
    } else {
        None
    }
}

pub open spec fn record_view(r: AtRecord) -> (Seq<char>, Seq<char>, Seq<char>, Seq<char>, Seq<char>) {
    (r.content@, r.author_did@, r.author_handle@, r.external_id@, r.protocol@)
}

/// `t`, or `dflt` when it is absent.
fn own_or(t: &Option<String>, dflt: &str) -> (r: String)
    ensures
        r@ == text_or(*t, dflt@),
{
    match t {
        Some(s) => s.clone(),
        None => dflt.to_owned(),
    }
}

/// `chrono::Utc::now().to_rfc3339()`: the present time as RFC 3339 text. It
/// depends on the clock, so nothing is stated of it.
#[verifier::external_body]
fn now_rfc3339() -> (r: String) {
    chrono::Utc::now().to_rfc3339()
}

/// Whether an optional text is the literal `lit`.
fn is_text(t: &Option<String>, lit: &str) -> (r: bool)
    ensures
        r == (opt_chars(*t) == Some(lit@)),
{
    match t {
        Some(s) => crate::strmap::str_eq(s.as_str(), lit),
        None => false,
    }
}

/// Translates between AT Protocol records and ActivityPub activities.
pub struct Translator;

impl Translator {
    /// The ActivityPub `Create` activity for an AT Protocol message record;
    /// a record without a creation time is published at `now`.
    pub fn atproto_to_activitypub_at(message: &AtMessage, now: &str) -> (r: ApCreate)
        ensures
            create_view(r) == create_for(
                *message,
                if created_of(*message).len() == 0 {
                    now@
                } else {
                    created_of(*message)
                },
            ),
    {
        proof {
            reveal_strlit("http://localhost:8081/bridge/atproto/");
            reveal_strlit("/note");
            reveal_strlit("http://localhost:8080/actor/");
        }
        let id_num: i64 = match message.id {
            Some(v) => v,
            None => 0,
        };
        let mut id: Vec<char> = Vec::new();
        push_str(&mut id, "http://localhost:8081/bridge/atproto/");
        let digits = i64_text(id_num);
        push_all(&mut id, digits.as_slice());
        let mut note_id = id.clone();
        push_str(&mut note_id, "/note");
        let handle = own_or(&message.author_handle, "unknown");
        let mut actor: Vec<char> = Vec::new();
        push_str(&mut actor, "http://localhost:8080/actor/");
        push_str(&mut actor, handle.as_str());
        let created = own_or(&message.created_at, "");
        proof {
            reveal_strlit("");
        }
        let published = if created.unicode_len() == 0 {
            now.to_owned()
        } else {
            created
        };
        let mut to: Vec<String> = Vec::new();
        to.push("https://www.w3.org/ns/activitystreams#Public".to_owned());
        let r = ApCreate {
            context: "https://www.w3.org/ns/activitystreams".to_owned(),
            kind: "Create".to_owned(),
            id: string_of(id.as_slice()),
            actor: string_of(actor.as_slice()),
            object: ApNote {
                id: string_of(note_id.as_slice()),
                kind: "Note".to_owned(),
                published,
                attributed_to: string_of(actor.as_slice()),
                content: own_or(&message.content, ""),
                to,
            },
        };
        assert(create_view(r).to =~= seq!["https://www.w3.org/ns/activitystreams#Public"@]);
        let ghost want = create_for(
            *message,
            if created_of(*message).len() == 0 {
                now@
            } else {
                created_of(*message)
            },
        );
        assert(create_view(r).context == want.context);
        assert(create_view(r).kind == want.kind);
        assert(create_view(r).id == want.id);
        assert(create_view(r).actor == want.actor);
        assert(create_view(r).note_id == want.note_id);
        assert(create_view(r).note_kind == want.note_kind);
        assert(create_view(r).published == want.published);
        assert(create_view(r).attributed_to == want.attributed_to);
        assert(create_view(r).content == want.content);
        r
    }

    /// The ActivityPub `Create` activity for an AT Protocol message record; a
    /// record without a creation time is published at the present time.
    pub fn atproto_to_activitypub(message: &AtMessage) -> (r: ApCreate)
        ensures
            created_of(*message).len() > 0 ==> create_view(r) == create_for(*message, created_of(*message)),
            exists|t: Seq<char>| create_view(r) == #[trigger] create_for(*message, t),
    {
        let created = own_or(&message.created_at, "");
        proof {
            reveal_strlit("");
        }
        if created.unicode_len() == 0 {
            let now = now_rfc3339();
            let r = Self::atproto_to_activitypub_at(message, now.as_str());
            assert(create_view(r) == create_for(*message, now@));
            r
        } else {
            let r = Self::atproto_to_activitypub_at(message, "");
            assert(create_view(r) == create_for(*message, created_of(*message)));
            r
        }
    }

    /// The AT Protocol record for an ActivityPub `Create` of a `Note`; `None`
    /// for any other activity.
    pub fn activitypub_to_atproto(activity: &ApActivity) -> (r: Option<AtRecord>)
        ensures
            match r {
                Some(rec) => record_for(*activity) == Some(record_view(rec)),
                None => record_for(*activity) is None,
            },
    {
        if !is_text(&activity.kind, "Create") {
            return None;
        }
        if !is_text(&activity.object_kind, "Note") {
            return None;
        }
        proof {
            reveal_strlit("did:activitypub:");
            reveal_strlit("http://");
            reveal_strlit("/");
            reveal_strlit("-");
            reveal_strlit("");
        }
        let author = own_or(&activity.actor, "unknown");
        let a = chars_of(author.as_str());
        let step = replace_str(a.as_slice(), "http://", "");
        let tail = replace_str(step.as_slice(), "/", "-");
        let mut did: Vec<char> = Vec::new();
        push_str(&mut did, "did:activitypub:");
        push_all(&mut did, tail.as_slice());
        Some(AtRecord {
            content: own_or(&activity.object_content, ""),
            author_did: string_of(did.as_slice()),
            author_handle: author,
            external_id: own_or(&activity.object_id, ""),
            protocol: "activitypub".to_owned(),
        })
    }
}


// ---------------------------------------------------------------------------
// Signed delivery of an activity.
// ---------------------------------------------------------------------------

/// What `url::Url::parse` makes of a text: the URL's host (`host_str`, absent
/// for URLs without one) and path, or the parse error's message.
pub uninterp spec fn url_host_path(s: Seq<char>) -> Result<(Option<Seq<char>>, Seq<char>), Seq<char>>;

pub open spec fn host_path_view(r: Result<(Option<String>, String), String>) -> Result<
    (Option<Seq<char>>, Seq<char>),
    Seq<char>,
> {
    match r {
        Ok((h, p)) => Ok((opt_chars(h), p@)),
        Err(e) => Err(e@),
    }
}

/// `url::Url::parse`, then `host_str` and `path` of the URL, or the message of
/// the `ParseError`. Stated: the outcome is the named value of the text.
#[verifier::external_body]
fn parse_host_path(s: &str) -> (r: Result<(Option<String>, String), String>)
    ensures
        host_path_view(r) == url_host_path(s@),
{
    match url::Url::parse(s) {
        Ok(u) => Ok((u.host_str().map(|h| h.to_string()), u.path().to_string())),
        Err(e) => Err(e.to_string()),
    }
}

/// What signing a message with a secp256k1 key in PKCS#8 PEM gives
/// (`k256::ecdsa::SigningKey::from_pkcs8_pem`, then `Signer::try_sign`, which
/// is deterministic, RFC 6979): the signature's bytes, or the error's message.
pub uninterp spec fn ecdsa_signature_of(pem: Seq<char>, msg: Seq<u8>) -> Result<Seq<u8>, Seq<char>>;

pub open spec fn bytes_result_view(r: Result<Vec<u8>, String>) -> Result<Seq<u8>, Seq<char>> {
    match r {
        Ok(b) => Ok(b@),
        Err(e) => Err(e@),
    }
}

/// `k256::ecdsa::SigningKey::from_pkcs8_pem` and `Signer::try_sign`, the
/// signature given as `Signature::to_bytes` (r and s, 32 bytes each).
/// Stated: the outcome is the named value of key and message, and a signature
/// is 64 bytes long.
#[verifier::external_body]
fn ecdsa_sign(pem: &str, msg: &[u8]) -> (r: Result<Vec<u8>, String>)
    ensures
        bytes_result_view(r) == ecdsa_signature_of(pem@, msg@),
        match r {
            Ok(b) => b@.len() == 64,
            Err(_) => true,
        },
{
    match k256::ecdsa::SigningKey::from_pkcs8_pem(pem) {
        Ok(key) => match Signer::<k256::ecdsa::Signature>::try_sign(&key, msg) {
            Ok(sig) => Ok(sig.to_bytes().to_vec()),
            Err(e) => Err(e.to_string()),
        },
        Err(e) => Err(e.to_string()),
    }
}

/// Base64 text in the URL-safe alphabet without padding: `+` becomes `-`,
/// `/` becomes `_`, and `=` is dropped.
pub open spec fn url_safe(t: Seq<char>) -> Seq<char>
    decreases t.len(),
{
    if t.len() == 0 {
        t
    } else {
        let c = t.last();
        let rest = url_safe(t.drop_last());
        if c == '=' {
            rest
        } else if c == '+' {
            rest.push('-')
        } else if c == '/' {
            rest.push('_')
        } else {
            rest.push(c)
        }
    }
}

/// `base64ct::Base64UrlUnpadded::encode_string`: Base64 (RFC 4648) in the
/// URL-safe alphabet, without padding. Stated: the text is the standard
/// Base64 text of the bytes with `-` for `+`, `_` for `/` and no `=`.
#[verifier::external_body]
fn base64_url_unpadded(bytes: &[u8]) -> (r: String)
    requires
        bytes@.len() <= usize::MAX / 4,
    ensures
        r@ == url_safe(b64_encode_spec(bytes@)),
{
    base64ct::Base64UrlUnpadded::encode_string(bytes)
}

/// `chrono::Utc::now().to_rfc2822()`: the present time as RFC 2822 text. It
/// depends on the clock, so nothing is stated of it.
#[verifier::external_body]
fn now_rfc2822() -> (r: String) {
    chrono::Utc::now().to_rfc2822()
}

/// The text that an HTTP signature signs: request target, host and date.
pub open spec fn signing_text(path: Seq<char>, host: Seq<char>, date: Seq<char>) -> Seq<char> {
    "(request-target): post "@ + path + "\nhost: "@ + host + "\ndate: "@ + date
}

/// The `Signature` header for a key id and a signature's text.
pub open spec fn signature_header(key_id: Seq<char>, signature: Seq<char>) -> Seq<char> {
    "keyId=\""@ + key_id + "\",algorithm=\"hs2019\",headers=\"(request-target) host date\",signature=\""@
        + signature + "\""@
}

/// A member of a direct conversation: the row's id, the conversation it
/// belongs to, and the member's DID and handle.
#[derive(Debug, Clone, PartialEq, Eq)]
pub struct ConversationParticipant {
    pub id: i64,
    pub conversation_id: i64,
    pub did: String,
    pub handle: String,
}

/// Why a delivery could not be prepared.
#[derive(Debug, PartialEq, Eq)]
pub enum RelayError {
    /// The inbox address is not a URL (the parser's message).
    InvalidUrl(String),
    /// The inbox URL has no host.
    MissingHost,
    /// The signing key could not be read or could not sign (its message).
    InvalidKey(String),
    /// A header value holds a character that HTTP does not allow there.
    InvalidHeaderValue,
}

/// Why a delivery could not be prepared, by its texts.
pub enum RelayFailure {
    InvalidUrl(Seq<char>),
    MissingHost,
    InvalidKey(Seq<char>),
    InvalidHeaderValue,
}

pub open spec fn relay_error_view(e: RelayError) -> RelayFailure {
    match e {
        RelayError::InvalidUrl(m) => RelayFailure::InvalidUrl(m@),
        RelayError::MissingHost => RelayFailure::MissingHost,
        RelayError::InvalidKey(m) => RelayFailure::InvalidKey(m@),
        RelayError::InvalidHeaderValue => RelayFailure::InvalidHeaderValue,
    }
}

pub open spec fn headers_view(h: Seq<(String, String)>) -> Seq<(Seq<char>, Seq<char>)> {
    h.map_values(|p: (String, String)| (p.0@, p.1@))
}

/// Whether `c` may stand in an HTTP header value: a tab, or any character from
/// the space on but DEL. Characters past ASCII go out as their UTF-8 bytes, all
/// of which are at least 0x80 and so allowed.
pub open spec fn header_char_ok(c: char) -> bool {
    c == '\t' || (' ' <= c && c != '\u{7f}')
}

/// Whether every character of `s` may stand in an HTTP header value.
pub open spec fn header_value_ok(s: Seq<char>) -> bool {
    forall|i: int| 0 <= i < s.len() ==> header_char_ok(#[trigger] s[i])
}

/// Whether `s` may be sent as an HTTP header value.
pub fn is_header_value(s: &str) -> (r: bool)
    ensures
        r == header_value_ok(s@),
{
    let n = s.unicode_len();
    let mut i: usize = 0;
    while i < n
        invariant
            n == s@.len(),
            i <= n,
            forall|j: int| 0 <= j < i ==> header_char_ok(#[trigger] s@[j]),
        decreases n - i,
    {
        let c = s.get_char(i);
        if !(c == '\t' || (' ' <= c && c != '\u{7f}')) {
            assert(!header_char_ok(s@[i as int]));
            return false;
        }
        i = i + 1;
    }
    true
}

/// The headers of a delivery to `inbox` dated `date`: `host`, `date`, an HTTP
/// signature over target, host and date made with the key, and the
/// ActivityPub content type; or why they cannot be made, a header value that
/// HTTP does not allow among the reasons.
pub open spec fn delivery_headers(inbox: Seq<char>, pem: Seq<char>, key_id: Seq<char>, date: Seq<char>) -> Result<
    Seq<(Seq<char>, Seq<char>)>,
    RelayFailure,
> {
    match url_host_path(inbox) {
        Err(m) => Err(RelayFailure::InvalidUrl(m)),
        Ok((None, _)) => Err(RelayFailure::MissingHost),
        Ok((Some(host), path)) => match ecdsa_signature_of(pem, encode_utf8(signing_text(path, host, date))) {
            Err(m) => Err(RelayFailure::InvalidKey(m)),
            Ok(sig) => {
                let signature = signature_header(key_id, url_safe(b64_encode_spec(sig)));
                if header_value_ok(host) && header_value_ok(date) && header_value_ok(signature) {
                    Ok(
                        seq![
                            ("host"@, host),
                            ("date"@, date),
                            ("Signature"@, signature),
                            ("Content-Type"@, "application/activity+json"@),
                        ],
                    )
                } else {
                    Err(RelayFailure::InvalidHeaderValue)
                }
            },
        },
    }
}

pub open spec fn delivery_view(r: Result<Vec<(String, String)>, RelayError>) -> Result<
    Seq<(Seq<char>, Seq<char>)>,
    RelayFailure,
> {
    match r {
        Ok(h) => Ok(headers_view(h@)),
        Err(e) => Err(relay_error_view(e)),
    }
}

fn own_chars(v: &Vec<char>) -> (r: String)
    ensures
        r@ == v@,
{
    string_of(v.as_slice())
}

/// The headers that deliver an activity to `inbox_url` at time `date`, signed
/// with the PKCS#8 PEM key `signing_key_pem` under the id `key_id`.
pub fn delivery_headers_at(inbox_url: &str, signing_key_pem: &str, key_id: &str, date: &str) -> (r: Result<
    Vec<(String, String)>,
    RelayError,
>)
    ensures
        delivery_view(r) == delivery_headers(inbox_url@, signing_key_pem@, key_id@, date@),
{
    let (host_opt, path) = match parse_host_path(inbox_url) {
        Ok(hp) => hp,
        Err(m) => {
            return Err(RelayError::InvalidUrl(m));
        },
    };
    let host = match host_opt {
        Some(h) => h,
        None => {
            return Err(RelayError::MissingHost);
        },
    };
    proof {
        reveal_strlit("(request-target): post ");
        reveal_strlit("\nhost: ");
        reveal_strlit("\ndate: ");
    }
    let mut text: Vec<char> = Vec::new();
    push_str(&mut text, "(request-target): post ");
    push_str(&mut text, path.as_str());
    push_str(&mut text, "\nhost: ");
    push_str(&mut text, host.as_str());
    push_str(&mut text, "\ndate: ");
    push_str(&mut text, date);
    let text = own_chars(&text);
    assert(text@ =~= signing_text(path@, host@, date@));
    let msg = text.as_str().as_bytes();
    let sig = match ecdsa_sign(signing_key_pem, msg) {
        Ok(s) => s,
        Err(m) => {
            return Err(RelayError::InvalidKey(m));
        },
    };
    let encoded = base64_url_unpadded(sig.as_slice());
    proof {
        reveal_strlit("keyId=\"");
        reveal_strlit("\",algorithm=\"hs2019\",headers=\"(request-target) host date\",signature=\"");
        reveal_strlit("\"");
    }
    let mut header: Vec<char> = Vec::new();
    push_str(&mut header, "keyId=\"");
    push_str(&mut header, key_id);
    push_str(&mut header, "\",algorithm=\"hs2019\",headers=\"(request-target) host date\",signature=\"");
    push_str(&mut header, encoded.as_str());
    push_str(&mut header, "\"");
    assert(header@ =~= signature_header(key_id@, url_safe(b64_encode_spec(sig@))));
    let header = own_chars(&header);
    if !(is_header_value(host.as_str()) && is_header_value(date) && is_header_value(header.as_str())) {
        return Err(RelayError::InvalidHeaderValue);
    }
    let mut headers: Vec<(String, String)> = Vec::new();
    headers.push(("host".to_owned(), host));
    headers.push(("date".to_owned(), date.to_owned()));
    headers.push(("Signature".to_owned(), header));
    headers.push(("Content-Type".to_owned(), "application/activity+json".to_owned()));
    assert(headers_view(headers@) =~= seq![
        ("host"@, host@),
        ("date"@, date@),
        ("Signature"@, signature_header(key_id@, url_safe(b64_encode_spec(sig@)))),
        ("Content-Type"@, "application/activity+json"@),
    ]);
    Ok(headers)
}

/// The headers that deliver an activity to `inbox_url` now, signed with the
/// PKCS#8 PEM key under the id `key_id`. Stated for every present time.
pub fn delivery_headers_now(inbox_url: &str, signing_key_pem: &str, key_id: &str) -> (r: Result<
    Vec<(String, String)>,
    RelayError,
>)
    ensures
        exists|date: Seq<char>|
            delivery_view(r) == #[trigger] delivery_headers(inbox_url@, signing_key_pem@, key_id@, date),
{
    let date = now_rfc2822();
    let r = delivery_headers_at(inbox_url, signing_key_pem, key_id, date.as_str());
    assert(delivery_view(r) == delivery_headers(inbox_url@, signing_key_pem@, key_id@, date@));
    r
}

/// The address that creates a record on an AT Protocol data server.
pub fn create_record_url(pds_url: &str) -> (r: String)
    ensures
        r@ == pds_url@ + "/xrpc/com.atproto.repo.createRecord"@,
{
    let mut out = chars_of(pds_url);
    push_str(&mut out, "/xrpc/com.atproto.repo.createRecord");
    string_of(out.as_slice())
}

} // verus!
