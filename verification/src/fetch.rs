//! URLs: reading `http://` and `https://` URLs and resolving references
//! against a base URL, `file://` ones included.
use vstd::prelude::*;
use crate::text::{
    is_ascii_ws, is_ascii_ctrl, occurs_at, find_from, find_char_from, rfind_char_before, split_char,
    chars_of, string_of, slice_of, push_all, push_str, find_char, rfind_char, find_str_from,
    starts_with_str, split_on, eq_str, lemma_find_from_props,
};
use crate::num::{parse_unsigned, parse_radix, all_digits, digits_value, digit_val};

verus! {

/// An I/O error, carried inside [`FetchError::Io`].
#[verifier::external_type_specification]
#[verifier::external_body]
pub struct ExIoError(std::io::Error);

/// A TLS error, carried inside [`FetchError::Tls`].
#[verifier::external_type_specification]
#[verifier::external_body]
pub struct ExTlsError(rustls::Error);

/// The protocol of a URL.
#[derive(Debug, Clone, Copy, PartialEq, Eq, Structural)]
pub enum Scheme {
    Http,
    Https,
}

/// Why a fetch failed.
#[derive(Debug)]
pub enum FetchError {
    UnsupportedScheme(String),
    InvalidUrl(String),
    Io(std::io::Error),
    Tls(rustls::Error),
    InvalidResponse(String),
    HttpStatus(u16, String),
    TooManyRedirects,
}

/// A URL split into the parts a request needs.
#[derive(Debug, Clone, PartialEq, Eq)]
pub struct ParsedUrl {
    pub scheme: Scheme,
    pub host: String,
    pub port: u16,
    pub path_and_query: String,
}

/// The port a scheme uses when none is given.
pub open spec fn default_port(s: Scheme) -> int {
    match s {
        Scheme::Http => 80,
        Scheme::Https => 443,
    }
}

/// The characters of a decimal digit.
pub open spec fn digit_char(d: int) -> char {
    if d == 0 {
        '0'
    } else if d == 1 {
        '1'
    } else if d == 2 {
        '2'
    } else if d == 3 {
        '3'
    } else if d == 4 {
        '4'
    } else if d == 5 {
        '5'
    } else if d == 6 {
        '6'
    } else if d == 7 {
        '7'
    } else if d == 8 {
        '8'
    } else {
        '9'
    }
}

/// The decimal text of `n`.
pub open spec fn dec_text(n: nat) -> Seq<char>
    decreases n,
{
    if n < 10 {
        seq![digit_char(n as int)]
    } else {
        dec_text(n / 10) + seq![digit_char((n % 10) as int)]
    }
}

/// A URL by its parts: scheme, host, port, path and query.
pub type UrlParts = (Scheme, Seq<char>, int, Seq<char>);

/// How reading a URL can fail: an unknown scheme, or a malformed URL (with its text).
pub enum UrlFailure {
    Unsupported(Seq<char>),
    Invalid(Seq<char>),
}

/// `host` or `host:port`, the port left out when it is the scheme's default.
pub open spec fn authority_text(p: UrlParts) -> Seq<char> {
    if p.2 == default_port(p.0) {
        p.1
    } else {
        p.1 + ":"@ + dec_text(p.2 as nat)
    }
}

/// No character is an ASCII control character (nor, when `no_ws`, ASCII white space).
pub open spec fn chars_clean(s: Seq<char>, no_ws: bool) -> bool {
    forall|k: int| 0 <= k < s.len() ==> !is_ascii_ctrl(#[trigger] s[k]) && (no_ws ==> !is_ascii_ws(s[k]))
}

/// The host is non-empty with no ASCII control or white-space character, and
/// the path has no control character.
pub open spec fn url_clean(p: UrlParts) -> bool {
    p.1.len() > 0 && chars_clean(p.1, true) && chars_clean(p.3, false)
}

/// The text before the first `://`, or all of it.
pub open spec fn scheme_text(u: Seq<char>) -> Seq<char> {
    match find_from(u, "://"@, 0) {
        Some(i) => u.subrange(0, i),
        None => u,
    }
}

/// Host and port of an authority, with the default port when none is given.
pub open spec fn host_port(auth: Seq<char>, dflt: int) -> Option<(Seq<char>, int)> {
    match rfind_char_before(auth, ':', auth.len() as int) {
        Some(j) => {
            let host = auth.subrange(0, j);
            match parse_unsigned(auth.subrange(j + 1, auth.len() as int), 10, 65535) {
                Some(port) => if host.len() > 0 {
                    Some((host, port))
                } else {
                    None
                },
                None => None,
            }
        },
        None => Some((auth, dflt)),
    }
}

/// A URL as read from text: `http://` or `https://`, a non-empty authority
/// (host, then `:port` where given), then the path and query (`/` when absent).
pub open spec fn spec_parse_url(u: Seq<char>) -> Result<UrlParts, UrlFailure> {
    let http = occurs_at(u, "http://"@, 0);
    let https = occurs_at(u, "https://"@, 0);
    if !http && !https {
        Err(UrlFailure::Unsupported(scheme_text(u)))
    } else {
        let scheme = if http { Scheme::Http } else { Scheme::Https };
        let rest = if http { u.subrange(7, u.len() as int) } else { u.subrange(8, u.len() as int) };
        if rest.len() == 0 {
            Err(UrlFailure::Invalid(u))
        } else {
            let (auth, paq) = match find_char_from(rest, '/', 0) {
                Some(i) => (rest.subrange(0, i), rest.subrange(i, rest.len() as int)),
                None => (rest, "/"@),
            };
            if auth.len() == 0 {
                Err(UrlFailure::Invalid(u))
            } else {
                match host_port(auth, default_port(scheme)) {
                    None => Err(UrlFailure::Invalid(u)),
                    Some(hp) => {
                        let p = (scheme, hp.0, hp.1, paq);
                        if url_clean(p) {
                            Ok(p)
                        } else {
                            Err(UrlFailure::Invalid(authority_text(p) + paq))
                        }
                    },
                }
            }
        }
    }
}

/// A parsed URL by its parts.
pub open spec fn url_parts(u: ParsedUrl) -> UrlParts {
    (u.scheme, u.host@, u.port as int, u.path_and_query@)
}

/// The result of reading a URL, by its parts.
pub open spec fn url_result(r: Result<ParsedUrl, FetchError>) -> Option<Result<UrlParts, UrlFailure>> {
    match r {
        Ok(u) => Some(Ok(url_parts(u))),
        Err(FetchError::UnsupportedScheme(s)) => Some(Err(UrlFailure::Unsupported(s@))),
        Err(FetchError::InvalidUrl(s)) => Some(Err(UrlFailure::Invalid(s@))),
        _ => None,
    }
}

/// The text without its leading `//` pairs.
pub open spec fn strip_double_slashes(s: Seq<char>) -> Seq<char>
    decreases s.len(),
{
    if s.len() >= 2 && s[0] == '/' && s[1] == '/' {
        strip_double_slashes(s.subrange(2, s.len() as int))
    } else {
        s
    }
}

/// The directory part of a path and query: the text before its last `/`,
/// or nothing when that is empty or there is no `/`.
pub open spec fn base_dir(paq: Seq<char>) -> Seq<char> {
    match rfind_char_before(paq, '/', paq.len() as int) {
        Some(j) => if j > 0 {
            paq.subrange(0, j)
        } else {
            seq![]
        },
        None => seq![],
    }
}

/// A reference resolved against a parsed `http`/`https` base URL.
pub open spec fn resolve_against(base: UrlParts, rel: Seq<char>) -> Seq<char> {
    let prefix: Seq<char> = match base.0 {
        Scheme::Http => "http://"@,
        Scheme::Https => "https://"@,
    };
    if occurs_at(rel, "//"@, 0) {
        prefix + strip_double_slashes(rel)
    } else if occurs_at(rel, "/"@, 0) {
        prefix + authority_text(base) + rel
    } else {
        prefix + authority_text(base) + base_dir(base.3) + "/"@ + rel
    }
}

/// Whether `p` starts at the root.
pub open spec fn has_root(p: Seq<char>) -> bool {
    p.len() > 0 && p[0] == '/'
}

/// The components of a path from piece `i` on: empty pieces and `.` are left
/// out, except a `.` that begins a relative path.
pub open spec fn keep_comps(pieces: Seq<Seq<char>>, i: int, root: bool) -> Seq<Seq<char>>
    decreases pieces.len() - i,
{
    if i < 0 || i >= pieces.len() {
        seq![]
    } else {
        let x = pieces[i];
        let keep = x.len() > 0 && (x != "."@ || (i == 0 && !root));
        (if keep {
            seq![x]
        } else {
            seq![]
        }) + keep_comps(pieces, i + 1, root)
    }
}

/// The components of a path after its root, as `Path::components` gives them.
pub open spec fn path_comps(p: Seq<char>) -> Seq<Seq<char>> {
    keep_comps(split_char(p, '/'), 0, has_root(p))
}

/// Components after resolving `.` and `..` (which removes the previous component, if any).
pub open spec fn normalize_comps(cs: Seq<Seq<char>>, n: int) -> Seq<Seq<char>>
    decreases n,
{
    if n <= 0 || n > cs.len() {
        seq![]
    } else {
        let acc = normalize_comps(cs, n - 1);
        let c = cs[n - 1];
        if c == "."@ {
            acc
        } else if c == ".."@ {
            if acc.len() > 0 {
                acc.drop_last()
            } else {
                acc
            }
        } else {
            acc.push(c)
        }
    }
}

/// Components joined by `/`, from `i` on.
pub open spec fn join_comps(cs: Seq<Seq<char>>, i: int) -> Seq<char>
    decreases cs.len() - i,
{
    if i < 0 || i >= cs.len() {
        seq![]
    } else if i + 1 == cs.len() {
        cs[i]
    } else {
        cs[i] + "/"@ + join_comps(cs, i + 1)
    }
}

/// Whether the resolved path starts at the root, and its components before
/// normalisation: the reference's own when it is absolute, else the base
/// directory's followed by the reference's. The base directory is the base path
/// itself when it names a directory, else its parent (the root when it has none).
pub open spec fn file_comps(base: Seq<char>, rel: Seq<char>, base_is_dir: bool) -> (bool, Seq<Seq<char>>) {
    if has_root(rel) {
        (true, path_comps(rel))
    } else {
        let bc = path_comps(base);
        let parent: (bool, Seq<Seq<char>>) = if base_is_dir {
            (has_root(base), bc)
        } else if bc.len() == 0 {
            (true, seq![])
        } else {
            (has_root(base), bc.drop_last())
        };
        (parent.0, parent.1 + path_comps(rel))
    }
}

/// The path that a `file://` reference names, resolved against `base` and
/// normalised; it is relative only when the base path is.
pub open spec fn file_target(base: Seq<char>, rel: Seq<char>, base_is_dir: bool) -> Seq<char> {
    let fc = file_comps(base, rel, base_is_dir);
    let norm = normalize_comps(fc.1, fc.1.len() as int);
    (if fc.0 {
        "/"@
    } else {
        seq![]
    }) + join_comps(norm, 0)
}

/// A relative path joined onto an absolute directory.
pub open spec fn dir_join(dir: Seq<char>, rel: Seq<char>) -> Seq<char> {
    if dir.len() > 0 && dir.last() == '/' {
        dir + rel
    } else {
        dir + "/"@ + rel
    }
}

fn digit_char_of(d: u16) -> (r: char)
    requires
        d < 10,
    ensures
        r == digit_char(d as int),
{
    if d == 0 {
        '0'
    } else if d == 1 {
        '1'
    } else if d == 2 {
        '2'
    } else if d == 3 {
        '3'
    } else if d == 4 {
        '4'
    } else if d == 5 {
        '5'
    } else if d == 6 {
        '6'
    } else if d == 7 {
        '7'
    } else if d == 8 {
        '8'
    } else {
        '9'
    }
}

/// The decimal digits of `n`.
pub fn dec_chars(n: u16) -> (r: Vec<char>)
    ensures
        r@ == dec_text(n as nat),
    decreases n,
{
    if n < 10 {
        let mut v: Vec<char> = Vec::new();
        v.push(digit_char_of(n));
        assert(v@ =~= seq![digit_char(n as int)]);
        v
    } else {
        let mut v = dec_chars(n / 10);
        v.push(digit_char_of(n % 10));
        v
    }
}

/// Whether no character is an ASCII control character (and, when `no_ws`, none is ASCII white space).
fn clean_chars(s: &[char], no_ws: bool) -> (r: bool)
    ensures
        r == chars_clean(s@, no_ws),
{
    let mut i: usize = 0;
    while i < s.len()
        invariant
            i <= s.len(),
            forall|k: int|
                0 <= k < i ==> !is_ascii_ctrl(#[trigger] s@[k]) && (no_ws ==> !is_ascii_ws(s@[k])),
        decreases s.len() - i,
    {
        let c = s[i];
        if c <= '\u{1f}' || c == '\u{7f}' {
            return false;
        }
        if no_ws && (c == ' ' || c == '\t' || c == '\n' || c == '\u{c}' || c == '\r') {
            return false;
        }
        i = i + 1;
    }
    true
}

/// Character sequences of a list of character vectors.
pub open spec fn seqs_view(v: Seq<Vec<char>>) -> Seq<Seq<char>> {
    v.map_values(|x: Vec<char>| x@)
}

fn strip_slash_pairs(s: &[char]) -> (r: Vec<char>)
    ensures
        r@ == strip_double_slashes(s@),
{
    let mut i: usize = 0;
    assert(s@.subrange(0, s@.len() as int) =~= s@);
    while i < s.len() && s.len() - i >= 2 && s[i] == '/' && s[i + 1] == '/'
        invariant
            i <= s.len(),
            strip_double_slashes(s@) == strip_double_slashes(s@.subrange(i as int, s@.len() as int)),
        decreases s.len() - i,
    {
        assert(s@.subrange(i as int, s@.len() as int).subrange(2, s@.len() - i) =~= s@.subrange(
            i + 2,
            s@.len() as int,
        ));
        i = i + 2;
    }
    slice_of(s, i, s.len())
}

/// The components of a path after its root.
fn comps_of(p: &[char]) -> (r: Vec<Vec<char>>)
    ensures
        seqs_view(r@) == path_comps(p@),
{
    let root = p.len() > 0 && p[0] == '/';
    let pieces = split_on(p, '/');
    let ghost ps = split_char(p@, '/');
    let mut out: Vec<Vec<char>> = Vec::new();
    let mut i: usize = 0;
    while i < pieces.len()
        invariant
            root == has_root(p@),
            ps == split_char(p@, '/'),
            pieces@.len() == ps.len(),
            forall|k: int| 0 <= k < pieces@.len() ==> #[trigger] pieces@[k]@ == ps[k],
            i <= pieces.len(),
            seqs_view(out@) + keep_comps(ps, i as int, root) == keep_comps(ps, 0, root),
        decreases pieces.len() - i,
    {
        let x = &pieces[i];
        let keep = x.len() > 0 && (!eq_str(x.as_slice(), ".") || (i == 0 && !root));
        let ghost before = seqs_view(out@);
        if keep {
            out.push(slice_of(x.as_slice(), 0, x.len()));
        }
        proof {
            assert(x@.subrange(0, x@.len() as int) =~= x@);
            assert(seqs_view(out@) + keep_comps(ps, i + 1, root) =~= keep_comps(ps, 0, root));
        }
        i = i + 1;
    }
    assert(seqs_view(out@) =~= keep_comps(ps, 0, root));
    out
}

/// Resolves `.` and `..` components.
fn normalize_components(cs: &Vec<Vec<char>>) -> (r: Vec<Vec<char>>)
    ensures
        seqs_view(r@) == normalize_comps(seqs_view(cs@), cs@.len() as int),
{
    let ghost v = seqs_view(cs@);
    let mut out: Vec<Vec<char>> = Vec::new();
    let mut i: usize = 0;
    while i < cs.len()
        invariant
            v == seqs_view(cs@),
            i <= cs.len(),
            seqs_view(out@) == normalize_comps(v, i as int),
        decreases cs.len() - i,
    {
        let c = &cs[i];
        assert(v[i as int] == c@);
        if eq_str(c.as_slice(), ".") {
        } else if eq_str(c.as_slice(), "..") {
            if out.len() > 0 {
                out.pop();
                assert(seqs_view(out@) =~= normalize_comps(v, i as int).drop_last());
            }
        } else {
            out.push(slice_of(c.as_slice(), 0, c.len()));
            assert(c@.subrange(0, c@.len() as int) =~= c@);
            assert(seqs_view(out@) =~= normalize_comps(v, i as int).push(c@));
        }
        i = i + 1;
    }
    out
}

/// Components joined by `/`.
fn join_components(cs: &Vec<Vec<char>>, out: &mut Vec<char>)
    ensures
        final(out)@ == old(out)@ + join_comps(seqs_view(cs@), 0),
{
    let ghost v = seqs_view(cs@);
    let mut i: usize = 0;
    while i < cs.len()
        invariant
            v == seqs_view(cs@),
            i <= cs.len(),
            out@ + join_comps(v, i as int) == old(out)@ + join_comps(v, 0),
        decreases cs.len() - i,
    {
        let ghost before = out@;
        assert(v[i as int] == cs@[i as int]@);
        push_all(out, cs[i].as_slice());
        if i + 1 < cs.len() {
            push_str(out, "/");
            assert(out@ + join_comps(v, i + 1) =~= before + join_comps(v, i as int));
        } else {
            assert(out@ + join_comps(v, i + 1) =~= before + join_comps(v, i as int));
        }
        i = i + 1;
    }
    assert(join_comps(v, i as int) =~= seq![]);
}

/// The path that a `file://` reference names, resolved against the base path and
/// normalised; `base_is_dir` says whether the base path names a directory.
pub fn file_target_path(base_path: &str, relative: &str, base_is_dir: bool) -> (r: String)
    ensures
        r@ == file_target(base_path@, relative@, base_is_dir),
{
    let b = chars_of(base_path);
    let rl = chars_of(relative);
    let rel_root = rl.len() > 0 && rl[0] == '/';
    let (root, cs): (bool, Vec<Vec<char>>) = if rel_root {
        (true, comps_of(rl.as_slice()))
    } else {
        let mut bc = comps_of(b.as_slice());
        let base_root = b.len() > 0 && b[0] == '/';
        let proot = if base_is_dir {
            base_root
        } else if bc.len() == 0 {
            true
        } else {
            bc.pop();
            base_root
        };
        let ghost pv = seqs_view(bc@);
        let rc = comps_of(rl.as_slice());
        let ghost rv = seqs_view(rc@);
        let mut k: usize = 0;
        while k < rc.len()
            invariant
                k <= rc.len(),
                rv == seqs_view(rc@),
                seqs_view(bc@) == pv + rv.take(k as int),
            decreases rc.len() - k,
        {
            let ghost before = seqs_view(bc@);
            let piece = slice_of(rc[k].as_slice(), 0, rc[k].len());
            assert(piece@ =~= rv[k as int]);
            bc.push(piece);
            proof {
                assert(seqs_view(bc@) =~= before.push(rv[k as int]));
                assert(rv.take(k + 1) =~= rv.take(k as int).push(rv[k as int]));
            }
            k = k + 1;
        }
        assert(rv.take(rc.len() as int) =~= rv);
        (proot, bc)
    };
    assert((root, seqs_view(cs@)) == file_comps(base_path@, relative@, base_is_dir));
    let norm = normalize_components(&cs);
    let mut out: Vec<char> = Vec::new();
    if root {
        push_str(&mut out, "/");
    }
    join_components(&norm, &mut out);
    proof {
        if !root {
            assert(out@ =~= seq![] + join_comps(seqs_view(norm@), 0));
        }
    }
    string_of(out.as_slice())
}

impl ParsedUrl {
    /// Reads an `http://` or `https://` URL.
    pub fn parse(url: &str) -> (r: Result<ParsedUrl, FetchError>)
        ensures
            url_result(r) == Some(spec_parse_url(url@)),
    {
        let u = chars_of(url);
        proof {
            reveal_strlit("http://");
            reveal_strlit("https://");
            reveal_strlit("/");
        }
        let http = starts_with_str(u.as_slice(), "http://");
        let https = starts_with_str(u.as_slice(), "https://");
        if !http && !https {
            let name = match find_str_from(u.as_slice(), "://", 0) {
                Some(i) => {
                    proof {
                        lemma_find_from_props(u@, "://"@, 0);
                    }
                    slice_of(u.as_slice(), 0, i)
                },
                None => u.clone(),
            };
            return Err(FetchError::UnsupportedScheme(string_of(name.as_slice())));
        }
        let scheme = if http { Scheme::Http } else { Scheme::Https };
        let skip: usize = if http { 7 } else { 8 };
        let rest = slice_of(u.as_slice(), skip, u.len());
        if rest.len() == 0 {
            return Err(FetchError::InvalidUrl(url.to_owned()));
        }
        let (auth, paq): (Vec<char>, Vec<char>) = match find_char(rest.as_slice(), '/', 0) {
            Some(i) => (slice_of(rest.as_slice(), 0, i), slice_of(rest.as_slice(), i, rest.len())),
            None => {
                let mut p: Vec<char> = Vec::new();
                p.push('/');
                assert(p@ =~= "/"@);
                (rest.clone(), p)
            },
        };
        if auth.len() == 0 {
            return Err(FetchError::InvalidUrl(url.to_owned()));
        }
        let dflt: u16 = if http { 80 } else { 443 };
        let (host, port): (Vec<char>, u16) = match rfind_char(auth.as_slice(), ':', auth.len()) {
            Some(j) => {
                let host = slice_of(auth.as_slice(), 0, j);
                let digits = slice_of(auth.as_slice(), j + 1, auth.len());
                match parse_radix(digits.as_slice(), 10, 65535) {
                    Some(p) => {
                        if host.len() == 0 {
                            return Err(FetchError::InvalidUrl(url.to_owned()));
                        }
                        (host, p as u16)
                    },
                    None => {
                        return Err(FetchError::InvalidUrl(url.to_owned()));
                    },
                }
            },
            None => (auth.clone(), dflt),
        };
        let parsed = ParsedUrl {
            scheme,
            host: string_of(host.as_slice()),
            port,
            path_and_query: string_of(paq.as_slice()),
        };
        match parsed.validate() {
            Ok(()) => Ok(parsed),
            Err(e) => Err(e),
        }
    }

    /// `host`, or `host:port` when the port is not the scheme's default.
    pub fn authority(&self) -> (r: String)
        ensures
            r@ == authority_text(url_parts(*self)),
    {
        let dflt: u16 = match self.scheme {
            Scheme::Http => 80,
            Scheme::Https => 443,
        };
        if self.port == dflt {
            self.host.clone()
        } else {
            let mut out = chars_of(self.host.as_str());
            push_str(&mut out, ":");
            let d = dec_chars(self.port);
            push_all(&mut out, d.as_slice());
            string_of(out.as_slice())
        }
    }

    /// `host:port`, as a socket address.
    pub fn socket_addr(&self) -> (r: String)
        ensures
            r@ == self.host@ + ":"@ + dec_text(self.port as nat),
    {
        let mut out = chars_of(self.host.as_str());
        push_str(&mut out, ":");
        let d = dec_chars(self.port);
        push_all(&mut out, d.as_slice());
        string_of(out.as_slice())
    }

    /// `http://` or `https://`.
    pub fn scheme_prefix(&self) -> (r: &'static str)
        ensures
            r@ == (match self.scheme {
                Scheme::Http => "http://"@,
                Scheme::Https => "https://"@,
            }),
    {
        match self.scheme {
            Scheme::Http => "http://",
            Scheme::Https => "https://",
        }
    }

    /// Checks that the host is non-empty and free of control and white-space
    /// characters and the path free of control characters.
    pub fn validate(&self) -> (r: Result<(), FetchError>)
        ensures
            match r {
                Ok(()) => url_clean(url_parts(*self)),
                Err(FetchError::InvalidUrl(s)) => !url_clean(url_parts(*self)) && s@
                    == authority_text(url_parts(*self)) + self.path_and_query@,
                Err(_) => false,
            },
    {
        let h = chars_of(self.host.as_str());
        let p = chars_of(self.path_and_query.as_str());
        if h.len() == 0 || !clean_chars(h.as_slice(), true) || !clean_chars(p.as_slice(), false) {
            let mut out = chars_of(self.authority().as_str());
            push_all(&mut out, p.as_slice());
            return Err(FetchError::InvalidUrl(string_of(out.as_slice())));
        }
        Ok(())
    }
}

/// `std::path::Path::is_dir`: whether the path names a directory on disk.
/// Nothing is stated of the result, which depends on the file system.
#[verifier::external_body]
fn path_is_dir(path: &str) -> bool {
    std::path::Path::new(path).is_dir()
}

/// `std::path::absolute(".")`, shown as text: the current working directory.
/// Stated: on success the path starts at the root. Which directory it is
/// depends on the process and is left unsaid.
#[verifier::external_body]
fn working_dir() -> (r: Result<String, std::io::Error>)
    ensures
        r matches Ok(d) ==> d@.len() > 0 && d@[0] == '/',
{
    match std::path::absolute(".") {
        Ok(p) => Ok(p.display().to_string()),
        Err(e) => Err(e),
    }
}

/// The `file://` URL of reference `rel` against a base path `bp`: the target
/// path (for the base taken as a directory or not), made absolute against the
/// working directory `wd` when it does not start at the root.
pub open spec fn file_resolution(bp: Seq<char>, rel: Seq<char>, is_dir: bool, wd: Seq<char>) -> Seq<char> {
    let t = file_target(bp, rel, is_dir);
    if has_root(t) {
        "file://"@ + t
    } else {
        "file://"@ + dir_join(wd, t)
    }
}

/// `s` is what resolving `rel` against a `file://` base with path `bp` gives:
/// a `file://` reference kept as it is; else the resolution of the target for
/// whether the base is a directory and for some absolute working directory,
/// both of which the file system and the process decide.
pub open spec fn file_resolved(bp: Seq<char>, rel: Seq<char>, s: Seq<char>) -> bool {
    if occurs_at(rel, "file://"@, 0) {
        s == rel
    } else {
        exists|is_dir: bool, wd: Seq<char>| has_root(wd) && s == #[trigger] file_resolution(bp, rel, is_dir, wd)
    }
}

/// Resolving `rel` against a `file://` base with path `bp` may fail, on reading
/// the working directory: only when the target path does not start at the
/// root for one of the two readings of the base.
pub open spec fn file_may_fail(bp: Seq<char>, rel: Seq<char>) -> bool {
    !occurs_at(rel, "file://"@, 0) && exists|is_dir: bool| !has_root(#[trigger] file_target(bp, rel, is_dir))
}

/// The relative path joined onto an absolute directory.
fn join_onto_dir(dir: &str, rel: &[char]) -> (r: Vec<char>)
    ensures
        r@ == dir_join(dir@, rel@),
{
    let mut out = chars_of(dir);
    let n = out.len();
    if !(n > 0 && out[n - 1] == '/') {
        push_str(&mut out, "/");
    }
    push_all(&mut out, rel);
    out
}

/// `file://` followed by the given characters.
fn file_url(path: &[char]) -> (r: String)
    ensures
        r@ == "file://"@ + path@,
{
    let mut out: Vec<char> = Vec::new();
    push_str(&mut out, "file://");
    push_all(&mut out, path);
    string_of(out.as_slice())
}

/// Resolves a reference against a `file://` base whose path is `base_path`.
fn resolve_relative_file_url(base_path: &str, relative: &str) -> (r: Result<String, FetchError>)
    ensures
        match r {
            Ok(s) => file_resolved(base_path@, relative@, s@),
            Err(e) => e is Io && file_may_fail(base_path@, relative@),
        },
        !occurs_at(relative@, "file://"@, 0) && has_root(file_target(base_path@, relative@, true))
            && has_root(file_target(base_path@, relative@, false)) ==> (r matches Ok(s) && (s@
            == "file://"@ + file_target(base_path@, relative@, true) || s@ == "file://"@
            + file_target(base_path@, relative@, false))),
{
    let rl = chars_of(relative);
    if starts_with_str(rl.as_slice(), "file://") {
        return Ok(relative.to_owned());
    }
    let is_dir = path_is_dir(base_path);
    let target = file_target_path(base_path, relative, is_dir);
    let t = chars_of(target.as_str());
    if t.len() > 0 && t[0] == '/' {
        let r = file_url(t.as_slice());
        proof {
            reveal_strlit("/");
            assert(has_root("/"@));
            assert(r@ == file_resolution(base_path@, relative@, is_dir, "/"@));
        }
        return Ok(r);
    }
    match working_dir() {
        Ok(dir) => {
            let joined = join_onto_dir(dir.as_str(), t.as_slice());
            let r = file_url(joined.as_slice());
            proof {
                assert(r@ == file_resolution(base_path@, relative@, is_dir, dir@));
            }
            Ok(r)
        },
        Err(e) => Err(FetchError::Io(e)),
    }
}

/// The error of a failed URL read, by its parts.
pub open spec fn url_failure(e: FetchError) -> Option<UrlFailure> {
    match e {
        FetchError::UnsupportedScheme(s) => Some(UrlFailure::Unsupported(s@)),
        FetchError::InvalidUrl(s) => Some(UrlFailure::Invalid(s@)),
        _ => None,
    }
}

/// Resolves `relative` against `base`. Absolute `http(s)://` references are
/// kept; `//host/...` takes the base's scheme; `/path` the base's scheme and
/// authority; other references replace the last segment of the base's path.
/// `file://` bases resolve paths on the local file system.
pub fn resolve_relative_url(base: &str, relative: &str) -> (r: Result<String, FetchError>)
    ensures
        occurs_at(base@, "file://"@, 0) ==> {
            let bp = base@.subrange(7, base@.len() as int);
            &&& match r {
                Ok(s) => file_resolved(bp, relative@, s@),
                Err(e) => e is Io && file_may_fail(bp, relative@),
            }
            &&& !occurs_at(relative@, "file://"@, 0) && has_root(file_target(bp, relative@, true))
                && has_root(file_target(bp, relative@, false)) ==> (r matches Ok(s) && (s@
                == "file://"@ + file_target(bp, relative@, true) || s@ == "file://"@ + file_target(
                bp,
                relative@,
                false,
            )))
        },
        !occurs_at(base@, "file://"@, 0) ==> {
            if occurs_at(relative@, "http://"@, 0) || occurs_at(relative@, "https://"@, 0) {
                r matches Ok(s) && s@ == relative@
            } else {
                match spec_parse_url(base@) {
                    Ok(p) => r matches Ok(s) && s@ == resolve_against(p, relative@),
                    Err(f) => r matches Err(e) && url_failure(e) == Some(f),
                }
            }
        },
{
    let b = chars_of(base);
    proof {
        reveal_strlit("file://");
    }
    if starts_with_str(b.as_slice(), "file://") {
        let bp = string_of(slice_of(b.as_slice(), 7, b.len()).as_slice());
        return resolve_relative_file_url(bp.as_str(), relative);
    }
    let rl = chars_of(relative);
    if starts_with_str(rl.as_slice(), "http://") || starts_with_str(rl.as_slice(), "https://") {
        return Ok(relative.to_owned());
    }
    let parsed = match ParsedUrl::parse(base) {
        Ok(p) => p,
        Err(e) => {
            return Err(e);
        },
    };
    let prefix = parsed.scheme_prefix();
    let mut out = chars_of(prefix);
    if starts_with_str(rl.as_slice(), "//") {
        let rest = strip_slash_pairs(rl.as_slice());
        push_all(&mut out, rest.as_slice());
        return Ok(string_of(out.as_slice()));
    }
    let auth = parsed.authority();
    push_str(&mut out, auth.as_str());
    if starts_with_str(rl.as_slice(), "/") {
        push_all(&mut out, rl.as_slice());
        return Ok(string_of(out.as_slice()));
    }
    let paq = chars_of(parsed.path_and_query.as_str());
    match rfind_char(paq.as_slice(), '/', paq.len()) {
        Some(j) => {
            if j > 0 {
                let dir = slice_of(paq.as_slice(), 0, j);
                push_all(&mut out, dir.as_slice());
            }
        },
        None => {},
    }
    push_str(&mut out, "/");
    push_all(&mut out, rl.as_slice());
    Ok(string_of(out.as_slice()))
}


/// `Display` of an I/O error (`ToString::to_string`). Its text comes from the
/// operating system, so nothing is stated of it.
#[verifier::external_body]
fn io_error_text(e: &std::io::Error) -> (r: String) {
    e.to_string()
}

/// `Display` of a TLS error (`ToString::to_string`). Nothing is stated of the text.
#[verifier::external_body]
fn tls_error_text(e: &rustls::Error) -> (r: String) {
    e.to_string()
}

/// What a fetch error says, for the variants whose text is the library's own.
pub open spec fn fetch_error_text(e: &FetchError) -> Option<Seq<char>> {
    match e {
        FetchError::UnsupportedScheme(s) => Some(
            "unsupported URL scheme: "@ + s@ + " (only http:// and https:// are supported)"@,
        ),
        FetchError::InvalidUrl(u) => Some("invalid URL: "@ + u@),
        FetchError::InvalidResponse(m) => Some("invalid HTTP response: "@ + m@),
        FetchError::HttpStatus(code, reason) => Some("HTTP "@ + dec_text(*code as nat) + " "@ + reason@),
        FetchError::TooManyRedirects => Some("too many redirects"@),
        _ => None,
    }
}

impl FetchError {
    /// The error as a message: what went wrong and with what; an I/O or TLS
    /// error's own text follows `network error: ` or `TLS error: `.
    pub fn to_string(&self) -> (r: String)
        ensures
            fetch_error_text(self) matches Some(t) ==> r@ == t,
            self matches FetchError::Io(_) ==> exists|t: Seq<char>| r@ == "network error: "@ + t,
            self matches FetchError::Tls(_) ==> exists|t: Seq<char>| r@ == "TLS error: "@ + t,
    {
        let mut out: Vec<char> = Vec::new();
        match self {
            FetchError::UnsupportedScheme(s) => {
                push_str(&mut out, "unsupported URL scheme: ");
                push_str(&mut out, s.as_str());
                push_str(&mut out, " (only http:// and https:// are supported)");
            },
            FetchError::InvalidUrl(u) => {
                push_str(&mut out, "invalid URL: ");
                push_str(&mut out, u.as_str());
            },
            FetchError::Io(e) => {
                push_str(&mut out, "network error: ");
                let t = io_error_text(e);
                push_str(&mut out, t.as_str());
                assert(out@ == "network error: "@ + t@);
            },
            FetchError::Tls(e) => {
                push_str(&mut out, "TLS error: ");
                let t = tls_error_text(e);
                push_str(&mut out, t.as_str());
                assert(out@ == "TLS error: "@ + t@);
            },
            FetchError::InvalidResponse(m) => {
                push_str(&mut out, "invalid HTTP response: ");
                push_str(&mut out, m.as_str());
            },
            FetchError::HttpStatus(code, reason) => {
                push_str(&mut out, "HTTP ");
                let d = dec_chars(*code);
                push_all(&mut out, d.as_slice());
                push_str(&mut out, " ");
                push_str(&mut out, reason.as_str());
            },
            FetchError::TooManyRedirects => {
                push_str(&mut out, "too many redirects");
            },
        }
        string_of(out.as_slice())
    }
}

/// The text of a URL by its parts: the scheme's prefix, the authority (the
/// port left out when it is the scheme's default), then path and query.
pub open spec fn url_text(p: UrlParts) -> Seq<char> {
    (match p.0 {
        Scheme::Http => "http://"@,
        Scheme::Https => "https://"@,
    }) + authority_text(p) + p.3
}

/// Printing a URL that was read and reading the text again gives the same
/// parts, provided its host holds no `:`; a default port is left out and
/// restored.
pub proof fn law_url_reprint(u: Seq<char>, p: UrlParts)
    requires
        spec_parse_url(u) == Ok::<UrlParts, UrlFailure>(p),
        !p.1.contains(':'),
    ensures
        spec_parse_url(url_text(p)) == Ok::<UrlParts, UrlFailure>(p),
{
    reveal_strlit("http://");
    reveal_strlit("https://");
    reveal_strlit("/");
    reveal_strlit(":");
    lemma_read_url_shape(u, p);
    let dflt = default_port(p.0);
    let auth = authority_text(p);
    lemma_dec_text(p.2 as nat);
    // The authority holds no `/`, and a `:` only before the port.
    assert forall|k: int| 0 <= k < auth.len() implies #[trigger] auth[k] != '/' by {
        if k >= p.1.len() && p.2 != dflt {
            if k > p.1.len() {
                assert(auth[k] == dec_text(p.2 as nat)[k - p.1.len() - 1]);
            }
        }
    }
    let s = url_text(p);
    let http = p.0 == Scheme::Http;
    let pre: Seq<char> = if http { "http://"@ } else { "https://"@ };
    assert(s == pre + auth + p.3);
    assert(occurs_at(s, pre, 0)) by {
        assert(s.subrange(0, pre.len() as int) =~= pre);
    }
    if !http {
        assert(s[4] == 's');
        assert(!occurs_at(s, "http://"@, 0)) by {
            if occurs_at(s, "http://"@, 0) {
                assert(s.subrange(0, 7)[4] == s[4]);
            }
        }
    }
    let rest = s.subrange(pre.len() as int, s.len() as int);
    assert(rest =~= auth + p.3);
    assert(rest[auth.len() as int] == '/');
    lemma_find_char_from(rest, '/', 0);
    match find_char_from(rest, '/', 0) {
        Some(i) => {
            if i < auth.len() {
                assert(rest[i] == auth[i]);
            }
            assert(i == auth.len());
            assert(rest.subrange(0, i) =~= auth);
            assert(rest.subrange(i, rest.len() as int) =~= p.3);
        },
        None => {
            assert(false);
        },
    }
    lemma_rfind_char_before(auth, ':', auth.len() as int);
    if p.2 == dflt {
        match rfind_char_before(auth, ':', auth.len() as int) {
            Some(j) => {
                assert(p.1.contains(':')) by {
                    assert(p.1[j] == ':');
                }
            },
            None => {},
        }
    } else {
        let d = dec_text(p.2 as nat);
        assert(auth[p.1.len() as int] == ':');
        match rfind_char_before(auth, ':', auth.len() as int) {
            Some(j) => {
                if j > p.1.len() {
                    assert(auth[j] == d[j - p.1.len() - 1]);
                }
                assert(j == p.1.len());
                assert(auth.subrange(0, j) =~= p.1);
                assert(auth.subrange(j + 1, auth.len() as int) =~= d);
            },
            None => {
                assert(false);
            },
        }
    }
}

/// What a URL that was read looks like: a non-empty host without `/`, a
/// port in range, and a path that starts with `/`.
proof fn lemma_read_url_shape(u: Seq<char>, p: UrlParts)
    requires
        spec_parse_url(u) == Ok::<UrlParts, UrlFailure>(p),
    ensures
        url_clean(p),
        p.1.len() > 0,
        forall|k: int| 0 <= k < p.1.len() ==> #[trigger] p.1[k] != '/',
        0 <= p.2 <= 65535,
        p.3.len() > 0,
        p.3[0] == '/',
{
    reveal_strlit("http://");
    reveal_strlit("https://");
    reveal_strlit("/");
    let http = occurs_at(u, "http://"@, 0);
    let rest = if http { u.subrange(7, u.len() as int) } else { u.subrange(8, u.len() as int) };
    lemma_find_char_from(rest, '/', 0);
    let auth = match find_char_from(rest, '/', 0) {
        Some(i) => rest.subrange(0, i),
        None => rest,
    };
    assert forall|k: int| 0 <= k < auth.len() implies #[trigger] auth[k] != '/' by {
        match find_char_from(rest, '/', 0) {
            Some(i) => {
                assert(auth[k] == rest[k]);
            },
            None => {},
        }
    }
    let dflt = if http { 80int } else { 443int };
    match rfind_char_before(auth, ':', auth.len() as int) {
        Some(j) => {
            lemma_rfind_char_before(auth, ':', auth.len() as int);
            assert forall|k: int| 0 <= k < p.1.len() implies #[trigger] p.1[k] != '/' by {
                assert(p.1[k] == auth[k]);
            }
            let digits = auth.subrange(j + 1, auth.len() as int);
            lemma_digits_value_nonneg_of(digits);
        },
        None => {},
    }
}

/// A parsed number is not negative.
proof fn lemma_digits_value_nonneg_of(s: Seq<char>)
    ensures
        parse_unsigned(s, 10, 65535) matches Some(n) ==> 0 <= n <= 65535,
{
    let t = if s.len() > 0 && s[0] == '+' {
        s.drop_first()
    } else {
        s
    };
    if t.len() > 0 && all_digits(t, 10) {
        lemma_digits_nonneg(t);
    }
}

proof fn lemma_digits_nonneg(s: Seq<char>)
    requires
        all_digits(s, 10),
    ensures
        digits_value(s, 10) >= 0,
    decreases s.len(),
{
    if s.len() > 0 {
        assert(all_digits(s.drop_last(), 10)) by {
            assert forall|k: int| 0 <= k < s.drop_last().len() implies digit_val(
                #[trigger] s.drop_last()[k],
                10,
            ) >= 0 by {
                assert(s.drop_last()[k] == s[k]);
            }
        }
        lemma_digits_nonneg(s.drop_last());
        assert(digit_val(s.last(), 10) >= 0);
    }
}

/// The decimal text of a number is a non-empty run of digits that reads back as the number.
proof fn lemma_dec_text(n: nat)
    ensures
        dec_text(n).len() > 0,
        forall|k: int| 0 <= k < dec_text(n).len() ==> '0' <= #[trigger] dec_text(n)[k] <= '9',
        n <= 65535 ==> parse_unsigned(dec_text(n), 10, 65535) == Some(n as int),
    decreases n,
{
    let d = dec_text(n);
    if n >= 10 {
        lemma_dec_text(n / 10);
        let h = dec_text(n / 10);
        assert(d.drop_last() =~= h);
        assert forall|k: int| 0 <= k < d.len() implies '0' <= #[trigger] d[k] <= '9' by {
            if k < h.len() {
                assert(d[k] == h[k]);
            }
        }
        assert(digit_val(d.last(), 10) == n % 10);
        assert(all_digits(d, 10));
        assert(digits_value(d, 10) == digits_value(h, 10) * 10 + n % 10);
        if n <= 65535 {
            assert(parse_unsigned(h, 10, 65535) == Some((n / 10) as int));
            assert(h[0] != '+');
            assert(digits_value(h, 10) == n / 10);
            assert((n / 10) * 10 + n % 10 == n);
            assert(d[0] == h[0]);
        }
    } else {
        assert(digits_value(d.drop_last(), 10) == 0);
        assert(all_digits(d, 10));
    }
}

/// The first `c` at or after `from`: none before it, and none at all when
/// there is no result.
proof fn lemma_find_char_from(t: Seq<char>, c: char, from: int)
    requires
        0 <= from,
    ensures
        match find_char_from(t, c, from) {
            Some(i) => from <= i < t.len() && t[i] == c && forall|k: int| from <= k < i ==> #[trigger] t[k] != c,
            None => forall|k: int| from <= k < t.len() ==> #[trigger] t[k] != c,
        },
    decreases t.len() - from,
{
    if from < t.len() && t[from] != c {
        lemma_find_char_from(t, c, from + 1);
    }
}

/// The last `c` before `to`: none after it up to `to`, and none at all when
/// there is no result.
proof fn lemma_rfind_char_before(t: Seq<char>, c: char, to: int)
    requires
        0 <= to <= t.len(),
    ensures
        match rfind_char_before(t, c, to) {
            Some(j) => 0 <= j < to && t[j] == c && forall|k: int| j < k < to ==> #[trigger] t[k] != c,
            None => forall|k: int| 0 <= k < to ==> #[trigger] t[k] != c,
        },
    decreases to,
{
    if to > 0 && t[to - 1] != c {
        lemma_rfind_char_before(t, c, to - 1);
    }
}

} // verus!
