//! HTTP/1.1 responses: framing, status line, headers and body (chunked or
//! sized), the request text, and what to do with a response.
use vstd::prelude::*;
use vstd::utf8::{valid_utf8, decode_utf8};
use crate::text::{
    trim, trim_chars, split_char, find_char_from, chars_of, string_of, slice_of, push_str, push_all,
    find_char, split_on, lemma_find_char_shift, occurs_at,
};
use crate::num::{parse_unsigned, parse_radix};
use crate::fetch::{
    FetchError, ParsedUrl, url_parts, authority_text, dec_text, dec_chars, resolve_relative_url,
    spec_parse_url, resolve_against, url_failure, file_resolved, file_may_fail,
};
use crate::css::opt_chars;

verus! {

/// What `String::from_utf8_lossy` makes of the bytes.
pub uninterp spec fn utf8_lossy(b: Seq<u8>) -> Seq<char>;

/// What `std::str::from_utf8` makes of the bytes: their text when they are
/// well-formed UTF-8, else nothing.
pub open spec fn utf8_text(b: Seq<u8>) -> Option<Seq<char>> {
    if valid_utf8(b) {
        Some(decode_utf8(b))
    } else {
        None
    }
}

/// What `flate2`'s gzip reader makes of the bytes: the data they decompress
/// to, or `None` when reading fails.
pub uninterp spec fn gunzip_data(b: Seq<u8>) -> Option<Seq<u8>>;

/// ASCII bytes as characters.
pub open spec fn ascii_chars(b: Seq<u8>) -> Seq<char> {
    b.map_values(|x: u8| x as char)
}

pub open spec fn all_ascii(b: Seq<u8>) -> bool {
    forall|k: int| 0 <= k < b.len() ==> #[trigger] b[k] < 128
}

/// `String::from_utf8_lossy`: decodes UTF-8, replacing invalid sequences by
/// U+FFFD. Stated: the result is the named value of the bytes, and ASCII bytes
/// decode to the same characters.
#[verifier::external_body]
fn lossy_text(b: &[u8]) -> (r: String)
    ensures
        r@ == utf8_lossy(b@),
        all_ascii(b@) ==> r@ == ascii_chars(b@),
{
    String::from_utf8_lossy(b).to_string()
}

/// `std::str::from_utf8`: the text of the bytes when they are well-formed
/// UTF-8 (no overlong forms, no surrogates, nothing past U+10FFFF), `None`
/// otherwise. Stated: exactly that, by vstd's UTF-8 reading of the bytes.
#[verifier::external_body]
pub(crate) fn strict_text(b: &[u8]) -> (r: Option<String>)
    ensures
        opt_chars(r) == utf8_text(b@),
{
    match std::str::from_utf8(b) {
        Ok(s) => Some(s.to_string()),
        Err(_) => None,
    }
}

/// `flate2::read::GzDecoder` read to the end: the decompressed data, or `None`
/// when reading fails. Stated: the result is the named value of the bytes.
#[verifier::external_body]
fn gunzip(b: &[u8]) -> (r: Option<Vec<u8>>)
    ensures
        opt_bytes(r) == gunzip_data(b@),
{
    let mut decoder = flate2::read::GzDecoder::new(b);
    let mut out = Vec::new();
    match std::io::Read::read_to_end(&mut decoder, &mut out) {
        Ok(_) => Some(out),
        Err(_) => None,
    }
}

/// Optional bytes by their values.
pub open spec fn opt_bytes(r: Option<Vec<u8>>) -> Option<Seq<u8>> {
    match r {
        Some(v) => Some(v@),
        None => None,
    }
}

/// `pat` occurs in `b` at `i`.
pub open spec fn bytes_at(b: Seq<u8>, pat: Seq<u8>, i: int) -> bool {
    0 <= i && i + pat.len() <= b.len() && b.subrange(i, i + pat.len()) == pat
}

/// First position at or after `from` where `pat` occurs in `b`.
pub open spec fn find_bytes(b: Seq<u8>, pat: Seq<u8>, from: int) -> Option<int>
    decreases b.len() + 1 - from,
{
    if from < 0 || from + pat.len() > b.len() {
        None
    } else if bytes_at(b, pat, from) {
        Some(from)
    } else {
        find_bytes(b, pat, from + 1)
    }
}

pub open spec fn crlf() -> Seq<u8> {
    seq![13u8, 10u8]
}

pub open spec fn crlf2() -> Seq<u8> {
    seq![13u8, 10u8, 13u8, 10u8]
}

pub open spec fn lf2() -> Seq<u8> {
    seq![10u8, 10u8]
}

proof fn lemma_find_bytes(b: Seq<u8>, pat: Seq<u8>, from: int)
    requires
        0 <= from,
    ensures
        find_bytes(b, pat, from) matches Some(i) ==> from <= i && bytes_at(b, pat, i),
    decreases b.len() + 1 - from,
{
    if from + pat.len() <= b.len() && !bytes_at(b, pat, from) {
        lemma_find_bytes(b, pat, from + 1);
    }
}

/// Whether `pat` occurs in `b` at `i`.
fn bytes_match(b: &[u8], pat: &[u8], i: usize) -> (r: bool)
    ensures
        r == bytes_at(b@, pat@, i as int),
{
    if i > b.len() || pat.len() > b.len() - i {
        return false;
    }
    let mut k: usize = 0;
    while k < pat.len()
        invariant
            i + pat.len() <= b.len(),
            k <= pat.len(),
            forall|q: int| 0 <= q < k ==> b@[i + q] == pat@[q],
        decreases pat.len() - k,
    {
        if b[i + k] != pat[k] {
            assert(b@.subrange(i as int, i + pat.len())[k as int] != pat@[k as int]);
            return false;
        }
        k = k + 1;
    }
    assert(b@.subrange(i as int, i + pat.len()) =~= pat@);
    true
}

/// First position at or after `from` where `pat` occurs in `b`.
fn find_pattern(b: &[u8], pat: &[u8], from: usize) -> (r: Option<usize>)
    ensures
        match r {
            Some(i) => find_bytes(b@, pat@, from as int) == Some(i as int) && from <= i && i + pat.len()
                <= b.len(),
            None => find_bytes(b@, pat@, from as int) is None,
        },
{
    if pat.len() > b.len() || from > b.len() - pat.len() {
        return None;
    }
    let last = b.len() - pat.len();
    let mut i = from;
    while i <= last
        invariant
            from <= i <= last + 1,
            last == b@.len() - pat@.len(),
            find_bytes(b@, pat@, from as int) == find_bytes(b@, pat@, i as int),
        decreases last + 1 - i,
    {
        if bytes_match(b, pat, i) {
            return Some(i);
        }
        if i == last {
            assert(find_bytes(b@, pat@, i + 1) is None);
            return None;
        }
        i = i + 1;
    }
    None
}

/// Where the headers end: the first blank line (`\r\n\r\n`, else `\n\n`).
pub open spec fn header_end(b: Seq<u8>) -> Option<int> {
    match find_bytes(b, crlf2(), 0) {
        Some(i) => Some(i),
        None => find_bytes(b, lf2(), 0),
    }
}

/// The bytes after the blank line that ends the headers.
pub open spec fn strip_separator(b: Seq<u8>) -> Seq<u8> {
    if bytes_at(b, crlf2(), 0) {
        b.subrange(4, b.len() as int)
    } else if bytes_at(b, lf2(), 0) {
        b.subrange(2, b.len() as int)
    } else {
        b
    }
}

/// Position of the blank line that ends the headers.
pub fn find_header_end(bytes: &[u8]) -> (r: Option<usize>)
    ensures
        match r {
            Some(i) => header_end(bytes@) == Some(i as int) && i <= bytes.len(),
            None => header_end(bytes@) is None,
        },
{
    let p4: Vec<u8> = vec![13u8, 10u8, 13u8, 10u8];
    assert(p4@ =~= crlf2());
    match find_pattern(bytes, p4.as_slice(), 0) {
        Some(i) => Some(i),
        None => {
            let p2: Vec<u8> = vec![10u8, 10u8];
            assert(p2@ =~= lf2());
            find_pattern(bytes, p2.as_slice(), 0)
        },
    }
}

/// The bytes after a leading `\r\n\r\n` or `\n\n`.
pub fn strip_header_separator(bytes: &[u8]) -> (r: Vec<u8>)
    ensures
        r@ == strip_separator(bytes@),
{
    let p4: Vec<u8> = vec![13u8, 10u8, 13u8, 10u8];
    let p2: Vec<u8> = vec![10u8, 10u8];
    assert(p4@ =~= crlf2());
    assert(p2@ =~= lf2());
    if bytes_match(bytes, p4.as_slice(), 0) {
        copy_bytes(bytes, 4, bytes.len())
    } else if bytes_match(bytes, p2.as_slice(), 0) {
        copy_bytes(bytes, 2, bytes.len())
    } else {
        copy_bytes(bytes, 0, bytes.len())
    }
}

/// A copy of `b[lo..hi]`.
fn copy_bytes(b: &[u8], lo: usize, hi: usize) -> (r: Vec<u8>)
    requires
        lo <= hi <= b.len(),
    ensures
        r@ == b@.subrange(lo as int, hi as int),
{
    let mut v: Vec<u8> = Vec::new();
    let mut i = lo;
    while i < hi
        invariant
            lo <= i <= hi <= b.len(),
            v@ == b@.subrange(lo as int, i as int),
        decreases hi - i,
    {
        v.push(b[i]);
        i = i + 1;
        assert(v@ =~= b@.subrange(lo as int, i as int));
    }
    v
}

/// Position of the first `\r\n` at or after `start`.
pub fn find_crlf(bytes: &[u8], start: usize) -> (r: Option<usize>)
    requires
        start <= bytes.len(),
    ensures
        match r {
            Some(i) => find_bytes(bytes@, crlf(), start as int) == Some(i as int) && start <= i
                && i + 2 <= bytes.len(),
            None => find_bytes(bytes@, crlf(), start as int) is None,
        },
{
    let p: Vec<u8> = vec![13u8, 10u8];
    assert(p@ =~= crlf());
    find_pattern(bytes, p.as_slice(), start)
}

/// The text before the first `;`.
pub open spec fn before_semicolon(line: Seq<char>) -> Seq<char> {
    match find_char_from(line, ';', 0) {
        Some(i) => line.subrange(0, i),
        None => line,
    }
}

/// `d` put before the data of a successful result.
pub open spec fn prepend(d: Seq<u8>, r: Result<Seq<u8>, Seq<char>>) -> Result<Seq<u8>, Seq<char>> {
    match r {
        Ok(x) => Ok(d + x),
        Err(e) => Err(e),
    }
}

/// The data of a chunked body read from position `c`: chunks of a hexadecimal
/// size line (extensions after `;` ignored), `\r\n`, data, `\r\n`, up to a
/// chunk of size 0; or the message that says what is malformed.
pub open spec fn chunked_from(b: Seq<u8>, c: int) -> Result<Seq<u8>, Seq<char>>
    decreases b.len() - c,
{
    if c < 0 || c > b.len() {
        Err(seq![])
    } else {
        match find_bytes(b, crlf(), c) {
            None => Err("unterminated chunk size"@),
            Some(se) => {
                if se < c || se + 2 > b.len() {
                    Err(seq![])
                } else {
                    match utf8_text(b.subrange(c, se)) {
                        None => Err("non-utf8 chunk size"@),
                        Some(line) => {
                            match parse_unsigned(trim(before_semicolon(line)), 16, usize::MAX as int) {
                                None => Err("invalid chunk size"@),
                                Some(size) => {
                                    let c2 = se + 2;
                                    if size <= 0 {
                                        Ok(seq![])
                                    } else if c2 + size > b.len() {
                                        Err("truncated chunk body"@)
                                    } else if !bytes_at(b, crlf(), c2 + size) {
                                        Err("missing chunk terminator"@)
                                    } else {
                                        prepend(b.subrange(c2, c2 + size), chunked_from(b, c2 + size + 2))
                                    }
                                },
                            }
                        },
                    }
                }
            },
        }
    }
}

/// A failed read, by its message.
pub open spec fn response_error(r: FetchError) -> Option<Seq<char>> {
    match r {
        FetchError::InvalidResponse(m) => Some(m@),
        _ => None,
    }
}

/// The data of a chunked body.
pub fn decode_chunked_body(body: &[u8]) -> (r: Result<Vec<u8>, FetchError>)
    ensures
        match r {
            Ok(v) => chunked_from(body@, 0) == Ok::<Seq<u8>, Seq<char>>(v@),
            Err(e) => response_error(e) is Some && chunked_from(body@, 0) == Err::<Seq<u8>, Seq<char>>(
                response_error(e).unwrap(),
            ),
        },
{
    let mut cursor: usize = 0;
    let mut decoded: Vec<u8> = Vec::new();
    assert(decoded@ + seq![] =~= seq![]);
    loop
        invariant_except_break
            cursor <= body.len(),
            chunked_from(body@, 0) == prepend(decoded@, chunked_from(body@, cursor as int)),
        ensures
            chunked_from(body@, 0) == Ok::<Seq<u8>, Seq<char>>(decoded@),
        decreases body.len() - cursor,
    {
        let ghost d0 = decoded@;
        let size_end = match find_crlf(body, cursor) {
            Some(e) => e,
            None => {
                return Err(FetchError::InvalidResponse("unterminated chunk size".to_owned()));
            },
        };
        let line_bytes = copy_bytes(body, cursor, size_end);
        let line = match strict_text(line_bytes.as_slice()) {
            Some(t) => t,
            None => {
                return Err(FetchError::InvalidResponse("non-utf8 chunk size".to_owned()));
            },
        };
        let lc = chars_of(line.as_str());
        let head = match find_char(lc.as_slice(), ';', 0) {
            Some(i) => slice_of(lc.as_slice(), 0, i),
            None => lc.clone(),
        };
        let hex = trim_chars(head.as_slice());
        let size = match parse_radix(hex.as_slice(), 16, usize::MAX) {
            Some(v) => v,
            None => {
                return Err(FetchError::InvalidResponse("invalid chunk size".to_owned()));
            },
        };
        cursor = size_end + 2;
        if size == 0 {
            proof {
                assert(d0 + seq![] =~= d0);
            }
            break;
        }
        if size > body.len() - cursor {
            return Err(FetchError::InvalidResponse("truncated chunk body".to_owned()));
        }
        let chunk_end = cursor + size;
        let piece = copy_bytes(body, cursor, chunk_end);
        let mut k: usize = 0;
        while k < piece.len()
            invariant
                k <= piece.len(),
                decoded@ == d0 + piece@.take(k as int),
            decreases piece.len() - k,
        {
            decoded.push(piece[k]);
            k = k + 1;
            assert(decoded@ =~= d0 + piece@.take(k as int));
        }
        assert(piece@.take(piece.len() as int) =~= piece@);
        let term: Vec<u8> = vec![13u8, 10u8];
        assert(term@ =~= crlf());
        if !bytes_match(body, term.as_slice(), chunk_end) {
            return Err(FetchError::InvalidResponse("missing chunk terminator".to_owned()));
        }
        cursor = chunk_end + 2;
        proof {
            assert(decoded@ + match chunked_from(body@, cursor as int) {
                Ok(x) => x,
                Err(_) => seq![],
            } =~= d0 + (piece@ + match chunked_from(body@, cursor as int) {
                Ok(x) => x,
                Err(_) => seq![],
            }));
        }
    }
    Ok(decoded)
}

/// A received response.
#[derive(Debug)]
pub struct HttpResponse {
    pub status_code: u16,
    pub reason_phrase: String,
    /// Header names in lower case, with their values, in the order received.
    pub headers: Vec<(String, String)>,
    pub body: Vec<u8>,
}

/// A response by its parts: status, reason, headers, body.
pub type ResponseView = (int, Seq<char>, Seq<(Seq<char>, Seq<char>)>, Seq<u8>);

pub open spec fn headers_view(hs: Seq<(String, String)>) -> Seq<(Seq<char>, Seq<char>)> {
    hs.map_values(|h: (String, String)| (h.0@, h.1@))
}

pub open spec fn response_view(r: HttpResponse) -> ResponseView {
    (r.status_code as int, r.reason_phrase@, headers_view(r.headers@), r.body@)
}

/// The line without a final carriage return.
pub open spec fn strip_cr(l: Seq<char>) -> Seq<char> {
    if l.len() > 0 && l.last() == '\r' {
        l.drop_last()
    } else {
        l
    }
}

/// The lines of a text as `str::lines` yields them: split at `\n` or `\r\n`,
/// the final line ending optional.
pub open spec fn lines_of(t: Seq<char>) -> Seq<Seq<char>> {
    if t.len() == 0 {
        seq![]
    } else {
        let pieces = split_char(t, '\n');
        let ended = pieces.take(pieces.len() - 1).map_values(|l: Seq<char>| strip_cr(l));
        if t.last() == '\n' {
            ended
        } else {
            ended.push(pieces.last())
        }
    }
}

/// ASCII upper-case letters in lower case; other characters unchanged.
pub open spec fn ascii_lower(c: char) -> char {
    if 'A' <= c && c <= 'Z' {
        ((c as u32) + 32) as char
    } else {
        c
    }
}

pub open spec fn lower_text(t: Seq<char>) -> Seq<char> {
    t.map_values(|c: char| ascii_lower(c))
}

/// Equal ignoring ASCII case.
pub open spec fn eq_nocase_text(a: Seq<char>, b: Seq<char>) -> bool {
    a.len() == b.len() && forall|k: int| 0 <= k < a.len() ==> ascii_lower(#[trigger] a[k]) == ascii_lower(b[k])
}

/// A header read from `name: value`: the name trimmed and in lower case, the value trimmed.
pub open spec fn header_of(line: Seq<char>) -> Option<(Seq<char>, Seq<char>)> {
    match find_char_from(line, ':', 0) {
        Some(c) => Some(
            (lower_text(trim(line.subrange(0, c))), trim(line.subrange(c + 1, line.len() as int))),
        ),
        None => None,
    }
}

/// The headers among the lines before `n`, from line 1 on.
pub open spec fn headers_upto(lines: Seq<Seq<char>>, n: int) -> Seq<(Seq<char>, Seq<char>)>
    decreases n,
{
    if n <= 1 || n > lines.len() {
        seq![]
    } else {
        headers_upto(lines, n - 1) + match header_of(lines[n - 1]) {
            Some(h) => seq![h],
            None => seq![],
        }
    }
}

/// The value of the first header whose name equals `name` ignoring ASCII case.
pub open spec fn lookup_header(hs: Seq<(Seq<char>, Seq<char>)>, name: Seq<char>) -> Option<Seq<char>>
    decreases hs.len(),
{
    if hs.len() == 0 {
        None
    } else if eq_nocase_text(hs[0].0, name) {
        Some(hs[0].1)
    } else {
        lookup_header(hs.drop_first(), name)
    }
}

/// Status code text and reason phrase of a status line `VERSION CODE REASON`.
pub open spec fn status_parts(line: Seq<char>) -> Option<(Seq<char>, Seq<char>)> {
    match find_char_from(line, ' ', 0) {
        None => None,
        Some(i) => match find_char_from(line, ' ', i + 1) {
            None => Some((line.subrange(i + 1, line.len() as int), seq![])),
            Some(j) => Some((line.subrange(i + 1, j), trim(line.subrange(j + 1, line.len() as int)))),
        },
    }
}

/// The body of a response with the given headers and the bytes after them:
/// decoded when chunked, cut to `Content-Length` when that is a number.
pub open spec fn body_of(hs: Seq<(Seq<char>, Seq<char>)>, rest: Seq<u8>) -> Result<Seq<u8>, Seq<char>> {
    let te = lookup_header(hs, "transfer-encoding"@);
    if te is Some && eq_nocase_text(te.unwrap(), "chunked"@) {
        chunked_from(rest, 0)
    } else {
        match lookup_header(hs, "content-length"@) {
            Some(v) => match parse_unsigned(v, 10, usize::MAX as int) {
                Some(n) => Ok(rest.take(if n < rest.len() { n } else { rest.len() as int })),
                None => Ok(rest),
            },
            None => Ok(rest),
        }
    }
}

/// A response read from bytes, or the message that says what is malformed.
pub open spec fn spec_parse_response(b: Seq<u8>) -> Result<ResponseView, Seq<char>> {
    match header_end(b) {
        None => Err("missing header terminator"@),
        Some(he) => {
            let rest = strip_separator(b.subrange(he, b.len() as int));
            let lines = lines_of(utf8_lossy(b.subrange(0, he)));
            if lines.len() == 0 {
                Err("missing status line"@)
            } else {
                match status_parts(lines[0]) {
                    None => Err("missing status code"@),
                    Some(sp) => match parse_unsigned(sp.0, 10, 65535) {
                        None => Err("invalid status code"@),
                        Some(code) => {
                            let hs = headers_upto(lines, lines.len() as int);
                            match body_of(hs, rest) {
                                Ok(body) => Ok((code, sp.1, hs, body)),
                                Err(m) => Err(m),
                            }
                        },
                    },
                }
            }
        },
    }
}

/// The character in lower case when it is an ASCII upper-case letter.
fn lower_char(c: char) -> (r: char)
    ensures
        r == ascii_lower(c),
{
    if 'A' <= c && c <= 'Z' {
        let b = (c as u32) as u8;
        ((b + 32) as char)
    } else {
        c
    }
}

fn lower_chars(t: &[char]) -> (r: Vec<char>)
    ensures
        r@ == lower_text(t@),
{
    let mut out: Vec<char> = Vec::new();
    let mut i: usize = 0;
    while i < t.len()
        invariant
            i <= t.len(),
            out@ == lower_text(t@.take(i as int)),
        decreases t.len() - i,
    {
        out.push(lower_char(t[i]));
        i = i + 1;
        assert(out@ =~= lower_text(t@.take(i as int)));
    }
    assert(t@.take(t.len() as int) =~= t@);
    out
}

/// Whether `a` equals `b` ignoring ASCII case.
pub fn eq_ignore_case(a: &[char], b: &[char]) -> (r: bool)
    ensures
        r == eq_nocase_text(a@, b@),
{
    if a.len() != b.len() {
        return false;
    }
    let mut i: usize = 0;
    while i < a.len()
        invariant
            a.len() == b.len(),
            i <= a.len(),
            forall|k: int| 0 <= k < i ==> ascii_lower(#[trigger] a@[k]) == ascii_lower(b@[k]),
        decreases a.len() - i,
    {
        if lower_char(a[i]) != lower_char(b[i]) {
            return false;
        }
        i = i + 1;
    }
    true
}

/// The lines of a text, as `str::lines` yields them.
fn text_lines(t: &[char]) -> (r: Vec<Vec<char>>)
    ensures
        r@.map_values(|l: Vec<char>| l@) == lines_of(t@),
{
    let mut out: Vec<Vec<char>> = Vec::new();
    if t.len() == 0 {
        assert(out@.map_values(|l: Vec<char>| l@) =~= lines_of(t@));
        return out;
    }
    let pieces = split_on(t, '\n');
    let ghost ps = split_char(t@, '\n');
    let n = pieces.len();
    assert(n > 0) by {
        crate::text::lemma_split_char_nonempty(t@, '\n');
    }
    let mut i: usize = 0;
    while i + 1 < n
        invariant
            n == pieces@.len(),
            n == ps.len(),
            n > 0,
            forall|k: int| 0 <= k < pieces@.len() ==> #[trigger] pieces@[k]@ == ps[k],
            i < n,
            out@.len() == i,
            forall|k: int| 0 <= k < i ==> (#[trigger] out@[k])@ == strip_cr(ps[k]),
        decreases n - i,
    {
        let p = &pieces[i];
        let m = p.len();
        let line = if m > 0 && p[m - 1] == '\r' {
            slice_of(p.as_slice(), 0, m - 1)
        } else {
            slice_of(p.as_slice(), 0, m)
        };
        proof {
            assert(p@.subrange(0, m as int) =~= p@);
            assert(p@.subrange(0, m - 1) =~= p@.drop_last());
        }
        out.push(line);
        i = i + 1;
    }
    if t[t.len() - 1] != '\n' {
        let last = slice_of(pieces[n - 1].as_slice(), 0, pieces[n - 1].len());
        assert(last@ =~= ps.last());
        out.push(last);
    }
    assert(out@.map_values(|l: Vec<char>| l@) =~= lines_of(t@));
    out
}

/// The value of the first header whose name equals `name` ignoring ASCII case.
pub fn header_value<'a>(headers: &'a [(String, String)], name: &str) -> (r: Option<&'a str>)
    ensures
        match r {
            Some(v) => lookup_header(headers_view(headers@), name@) == Some(v@),
            None => lookup_header(headers_view(headers@), name@) is None,
        },
{
    let ghost hs = headers_view(headers@);
    let nc = chars_of(name);
    let mut i: usize = 0;
    assert(hs.skip(0) =~= hs);
    while i < headers.len()
        invariant
            hs == headers_view(headers@),
            nc@ == name@,
            i <= headers.len(),
            lookup_header(hs, name@) == lookup_header(hs.skip(i as int), name@),
        decreases headers.len() - i,
    {
        let hn = chars_of(headers[i].0.as_str());
        assert(hs.skip(i as int)[0] == hs[i as int]);
        if eq_ignore_case(hn.as_slice(), nc.as_slice()) {
            return Some(headers[i].1.as_str());
        }
        assert(hs.skip(i as int).drop_first() =~= hs.skip(i + 1));
        i = i + 1;
    }
    None
}

/// The failure `InvalidResponse(message)`.
fn invalid_response(message: &str) -> (r: FetchError)
    ensures
        response_error(r) == Some(message@),
{
    FetchError::InvalidResponse(message.to_owned())
}

impl HttpResponse {
    /// Reads a response: status line, headers up to the first blank line, then
    /// the body (decoded when chunked, cut to `Content-Length` when given).
    pub fn parse(bytes: &[u8]) -> (r: Result<HttpResponse, FetchError>)
        ensures
            match r {
                Ok(resp) => spec_parse_response(bytes@) == Ok::<ResponseView, Seq<char>>(response_view(resp)),
                Err(e) => response_error(e) is Some && spec_parse_response(bytes@) == Err::<
                    ResponseView,
                    Seq<char>,
                >(response_error(e).unwrap()),
            },
    {
        let he = match find_header_end(bytes) {
            Some(i) => i,
            None => {
                return Err(invalid_response("missing header terminator"));
            },
        };
        let after = copy_bytes(bytes, he, bytes.len());
        let rest = strip_header_separator(after.as_slice());
        let head = copy_bytes(bytes, 0, he);
        let head_text = lossy_text(head.as_slice());
        let hc = chars_of(head_text.as_str());
        let lines = text_lines(hc.as_slice());
        let ghost ls = lines@.map_values(|l: Vec<char>| l@);
        if lines.len() == 0 {
            return Err(invalid_response("missing status line"));
        }
        let status_line = &lines[0];
        assert(ls[0] == status_line@);
        let (code_text, reason): (Vec<char>, Vec<char>) = match find_char(status_line.as_slice(), ' ', 0) {
            None => {
                return Err(invalid_response("missing status code"));
            },
            Some(i) => match find_char(status_line.as_slice(), ' ', i + 1) {
                None => (slice_of(status_line.as_slice(), i + 1, status_line.len()), Vec::new()),
                Some(j) => (
                    slice_of(status_line.as_slice(), i + 1, j),
                    trim_chars(slice_of(status_line.as_slice(), j + 1, status_line.len()).as_slice()),
                ),
            },
        };
        assert(status_parts(ls[0]) == Some((code_text@, reason@)));
        let code = match parse_radix(code_text.as_slice(), 10, 65535) {
            Some(c) => c as u16,
            None => {
                return Err(invalid_response("invalid status code"));
            },
        };
        let mut headers: Vec<(String, String)> = Vec::new();
        let mut k: usize = 1;
        while k < lines.len()
            invariant
                ls == lines@.map_values(|l: Vec<char>| l@),
                1 <= k <= lines.len(),
                headers_view(headers@) == headers_upto(ls, k as int),
            decreases lines.len() - k,
        {
            let line = &lines[k];
            assert(ls[k as int] == line@);
            let ghost before = headers_view(headers@);
            match find_char(line.as_slice(), ':', 0) {
                Some(c) => {
                    let name = lower_chars(trim_chars(slice_of(line.as_slice(), 0, c).as_slice()).as_slice());
                    let value = trim_chars(slice_of(line.as_slice(), c + 1, line.len()).as_slice());
                    headers.push((string_of(name.as_slice()), string_of(value.as_slice())));
                    proof {
                        assert(headers_view(headers@) =~= before + seq![(name@, value@)]);
                    }
                },
                None => {},
            }
            proof {
                assert(headers_view(headers@) =~= headers_upto(ls, k + 1));
            }
            k = k + 1;
        }
        let ghost hs = headers_view(headers@);
        let chunked = match header_value(headers.as_slice(), "transfer-encoding") {
            Some(v) => {
                let vc = chars_of(v);
                let target = chars_of("chunked");
                eq_ignore_case(vc.as_slice(), target.as_slice())
            },
            None => false,
        };
        let body: Vec<u8> = if chunked {
            match decode_chunked_body(rest.as_slice()) {
                Ok(b) => b,
                Err(e) => {
                    return Err(e);
                },
            }
        } else {
            let limit = match header_value(headers.as_slice(), "content-length") {
                Some(v) => {
                    let vc = chars_of(v);
                    parse_radix(vc.as_slice(), 10, usize::MAX)
                },
                None => None,
            };
            match limit {
                Some(n) => {
                    let m = if n < rest.len() { n } else { rest.len() };
                    let b = copy_bytes(rest.as_slice(), 0, m);
                    assert(b@ =~= rest@.take(m as int));
                    b
                },
                None => rest,
            }
        };
        let resp = HttpResponse {
            status_code: code,
            reason_phrase: string_of(reason.as_slice()),
            headers,
            body,
        };
        Ok(resp)
    }

    /// The value of the first header named `name`, ignoring ASCII case.
    pub fn header(&self, name: &str) -> (r: Option<&str>)
        ensures
            match r {
                Some(v) => lookup_header(headers_view(self.headers@), name@) == Some(v@),
                None => lookup_header(headers_view(self.headers@), name@) is None,
            },
    {
        header_value(self.headers.as_slice(), name)
    }
}

/// The request line and headers sent for a URL.
pub open spec fn request_text(u: ParsedUrl) -> Seq<char> {
    "GET "@ + u.path_and_query@ + " HTTP/1.1\r\nHost: "@ + authority_text(url_parts(u)) + REQUEST_TAIL@
}

/// The headers that follow `Host` in every request.
pub const REQUEST_TAIL: &'static str = "\r\nUser-Agent: Mozilla/5.0 (X11; Linux x86_64) AppleWebKit/537.36 (KHTML, like Gecko) Chrome/120.0.0.0 Safari/537.36 Aurora/0.1\r\nAccept: text/html, text/css, */*\r\nAccept-Encoding: gzip, identity\r\nConnection: close\r\n\r\n";

/// How many redirects a fetch follows before it gives up.
pub const MAX_REDIRECTS: usize = 5;

/// The response read from a connection: an error for an empty one, else the
/// bytes read as a response.
pub fn read_response(bytes: &[u8]) -> (r: Result<HttpResponse, FetchError>)
    ensures
        bytes@.len() == 0 ==> (r matches Err(e) && response_error(e) == Some("empty response"@)),
        bytes@.len() > 0 ==> match r {
            Ok(resp) => spec_parse_response(bytes@) == Ok::<ResponseView, Seq<char>>(response_view(resp)),
            Err(e) => response_error(e) is Some && spec_parse_response(bytes@) == Err::<ResponseView, Seq<char>>(
                response_error(e).unwrap(),
            ),
        },
{
    if bytes.len() == 0 {
        return Err(invalid_response("empty response"));
    }
    HttpResponse::parse(bytes)
}

/// The `GET` request for a URL.
pub fn build_request(url: &ParsedUrl) -> (r: String)
    ensures
        r@ == request_text(*url),
{
    let mut out: Vec<char> = Vec::new();
    push_str(&mut out, "GET ");
    push_str(&mut out, url.path_and_query.as_str());
    push_str(&mut out, " HTTP/1.1\r\nHost: ");
    let auth = url.authority();
    push_str(&mut out, auth.as_str());
    push_str(&mut out, REQUEST_TAIL);
    string_of(out.as_slice())
}

/// The text of a body, invalid UTF-8 replaced by U+FFFD.
pub fn body_text(body: &[u8]) -> (r: String)
    ensures
        r@ == utf8_lossy(body@),
        all_ascii(body@) ==> r@ == ascii_chars(body@),
{
    lossy_text(body)
}

/// The body as delivered: decompressed when `Content-Encoding` is `gzip` and
/// decompression succeeds, else as received.
pub open spec fn delivered_body(hs: Seq<(Seq<char>, Seq<char>)>, body: Seq<u8>) -> Seq<u8> {
    match lookup_header(hs, "content-encoding"@) {
        Some(enc) => if eq_nocase_text(enc, "gzip"@) {
            match gunzip_data(body) {
                Some(d) => d,
                None => body,
            }
        } else {
            body
        },
        None => body,
    }
}

/// What a response means for a fetch.
pub enum Outcome {
    /// Follow the redirect to this location.
    Redirect(Seq<char>),
    /// A redirect when no more may be followed.
    TooManyRedirects,
    /// A redirect without a `Location` header.
    MissingLocation,
    /// A status other than 200 that is not a redirect.
    BadStatus(int),
    /// The page, with its delivered body.
    Page(Seq<u8>),
}

/// What a response means, given how many more redirects may be followed.
pub open spec fn outcome(resp: ResponseView, remaining: int) -> Outcome {
    let code = resp.0;
    if code == 301 || code == 302 || code == 303 || code == 307 || code == 308 {
        if remaining == 0 {
            Outcome::TooManyRedirects
        } else {
            match lookup_header(resp.2, "location"@) {
                Some(loc) => Outcome::Redirect(loc),
                None => Outcome::MissingLocation,
            }
        }
    } else if code != 200 {
        Outcome::BadStatus(code)
    } else {
        Outcome::Page(delivered_body(resp.2, resp.3))
    }
}

/// The next step of a fetch.
#[derive(Debug)]
pub enum FetchStep {
    /// Request this URL next.
    Follow(String),
    /// The fetch is done: the body.
    Done(Vec<u8>),
    /// The fetch failed.
    Fail(FetchError),
}

/// Decides what to do with the response to a request for `url`, when
/// `remaining_redirects` more redirects may be followed: follow a redirect
/// (its location resolved against `url`), finish with the body (decompressed
/// when gzip-encoded), or fail.
pub fn next_step(url: &str, response: HttpResponse, remaining_redirects: usize) -> (r: FetchStep)
    ensures
        match outcome(response_view(response), remaining_redirects as int) {
            Outcome::TooManyRedirects => r matches FetchStep::Fail(e) && response_error(e) == Some(
                "too many redirects"@,
            ),
            Outcome::MissingLocation => r matches FetchStep::Fail(e) && response_error(e) == Some(
                "missing location header"@,
            ),
            Outcome::BadStatus(code) => r matches FetchStep::Fail(e) && response_error(e) == Some(
                "HTTP "@ + dec_text(code as nat),
            ),
            Outcome::Page(body) => r matches FetchStep::Done(b) && b@ == body,
            Outcome::Redirect(loc) => {
                &&& (r is Follow || r is Fail)
                &&& occurs_at(url@, "file://"@, 0) ==> {
                    let bp = url@.subrange(7, url@.len() as int);
                    match r {
                        FetchStep::Follow(n) => file_resolved(bp, loc, n@),
                        FetchStep::Fail(e) => e is Io && file_may_fail(bp, loc),
                        FetchStep::Done(_) => false,
                    }
                }
                &&& !occurs_at(url@, "file://"@, 0) ==> {
                    if occurs_at(loc, "http://"@, 0) || occurs_at(loc, "https://"@, 0) {
                        r matches FetchStep::Follow(n) && n@ == loc
                    } else {
                        match spec_parse_url(url@) {
                            Ok(p) => r matches FetchStep::Follow(n) && n@ == resolve_against(p, loc),
                            Err(f) => r matches FetchStep::Fail(e) && url_failure(e) == Some(f),
                        }
                    }
                }
            },
        },
{
    let code = response.status_code;
    if is_redirect(code) {
        if remaining_redirects == 0 {
            return FetchStep::Fail(invalid_response("too many redirects"));
        }
        let location = match response.header("location") {
            Some(l) => l,
            None => {
                return FetchStep::Fail(invalid_response("missing location header"));
            },
        };
        return match resolve_relative_url(url, location) {
            Ok(next) => FetchStep::Follow(next),
            Err(e) => FetchStep::Fail(e),
        };
    }
    if code != 200 {
        let mut msg: Vec<char> = Vec::new();
        push_str(&mut msg, "HTTP ");
        let d = dec_chars(code);
        push_all(&mut msg, d.as_slice());
        return FetchStep::Fail(FetchError::InvalidResponse(string_of(msg.as_slice())));
    }
    let gz = match response.header("content-encoding") {
        Some(enc) => {
            let ec = chars_of(enc);
            let target = chars_of("gzip");
            eq_ignore_case(ec.as_slice(), target.as_slice())
        },
        None => false,
    };
    if gz {
        match gunzip(response.body.as_slice()) {
            Some(d) => {
                return FetchStep::Done(d);
            },
            None => {},
        }
    }
    FetchStep::Done(response.body)
}

/// Whether the status code asks the client to look elsewhere.
pub fn is_redirect(status_code: u16) -> (r: bool)
    ensures
        r == (status_code == 301 || status_code == 302 || status_code == 303 || status_code == 307
            || status_code == 308),
{
    status_code == 301 || status_code == 302 || status_code == 303 || status_code == 307
        || status_code == 308
}

} // verus!
