//! The exchange of an HTTP probe: what is sent, and which answers count as good.

use crate::text::{
    chars_of, find_char, find_last_char, first_at, has_prefix, last_at, lemma_first_at,
    read_unsigned, split_words, text_of, texts, unsigned_number, words,
};
use vstd::prelude::*;

verus! {

/// What `String::from_utf8_lossy` makes of bytes.
pub uninterp spec fn lossily_decoded(bytes: Seq<u8>) -> Seq<char>;

/// `String::from_utf8_lossy`: the text that the bytes hold in UTF-8, with replacement characters
/// for what is no UTF-8. Where all of it is UTF-8, it is the text itself; how many replacement
/// characters stand for what is not is left to the function.
#[verifier::external_body]
pub(crate) fn lossy_text(bytes: &[u8]) -> (r: String)
    ensures
        r@ == lossily_decoded(bytes@),
        vstd::utf8::valid_utf8(bytes@) ==> r@ == vstd::utf8::decode_utf8(bytes@),
{
    String::from_utf8_lossy(bytes).into_owned()
}

/// Where a line ends: at the first carriage return or line feed from `from` on, or with the bytes.
pub open spec fn line_end(bytes: Seq<u8>, from: int) -> int
    decreases bytes.len() - from,
{
    if from < 0 || from >= bytes.len() {
        bytes.len() as int
    } else if bytes[from] == 13 || bytes[from] == 10 {
        from
    } else {
        line_end(bytes, from + 1)
    }
}

/// The first line.
pub open spec fn first_line(bytes: Seq<u8>) -> Seq<u8> {
    bytes.take(line_end(bytes, 0))
}

/// Whether a status line says that all is well: `HTTP/` and a version, then a code from 200 to
/// 399.
pub open spec fn good_status(line: Seq<char>) -> bool {
    let w = words(line);
    &&& w.len() >= 2
    &&& "HTTP/"@.is_prefix_of(w[0])
    &&& unsigned_number(w[1], 65535) matches Some(code)
    &&& 200 <= code < 400
}

/// Whether a status line says that all is well.
pub fn status_line_ok(line: &str) -> (r: bool)
    ensures
        r == good_status(line@),
{
    let parts = split_words(line);
    assert(texts(parts@).len() == parts@.len());
    if parts.len() < 2 {
        return false;
    }
    assert(texts(parts@)[0] == parts@[0]@);
    assert(texts(parts@)[1] == parts@[1]@);
    if !has_prefix(parts[0].as_str(), "HTTP/") {
        return false;
    }
    match read_unsigned(parts[1].as_str(), 65535) {
        Some(code) => 200 <= code && code < 400,
        None => false,
    }
}

/// Whether the first bytes of a response say that all is well.
pub fn status_ok(head: &[u8]) -> (r: bool)
    ensures
        r == good_status(lossily_decoded(first_line(head@))),
        vstd::utf8::valid_utf8(first_line(head@)) ==> r == good_status(
            vstd::utf8::decode_utf8(first_line(head@)),
        ),
{
    let mut line: Vec<u8> = Vec::new();
    let mut i: usize = 0;
    while i < head.len() && head[i] != 13 && head[i] != 10
        invariant
            i <= head@.len(),
            line@ == head@.take(i as int),
            line_end(head@, 0) == line_end(head@, i as int),
        decreases head@.len() - i,
    {
        line.push(head[i]);
        i += 1;
        assert(head@.take(i as int) =~= head@.take(i - 1).push(head@[i - 1]));
    }
    assert(line@ =~= first_line(head@));
    let text = lossy_text(line.as_slice());
    status_line_ok(text.as_str())
}

/// The host in a `host:port`.
pub open spec fn host_of(addr: Seq<char>) -> Seq<char> {
    match last_at(addr, ':') {
        Some(i) => addr.take(i),
        None => addr,
    }
}

/// What is sent to ask for a path.
pub open spec fn request(addr: Seq<char>, path: Seq<char>) -> Seq<char> {
    "GET "@ + path + " HTTP/1.1\r\nHost: "@ + host_of(addr)
        + "\r\nUser-Agent: artzain\r\nConnection: close\r\n\r\n"@
}

/// The request that asks the server at `addr` for `path`.
pub fn request_text(addr: &str, path: &str) -> (r: String)
    ensures
        r@ == request(addr@, path@),
{
    let chars = chars_of(addr);
    assert(chars@.take(chars@.len() as int) =~= chars@);
    let host = match find_last_char(&chars, ':', chars.len()) {
        Some(i) => {
            let h = text_of(&chars, 0, i);
            assert(h@ =~= addr@.take(i as int));
            h
        },
        None => addr.to_owned(),
    };
    let mut r = "GET ".to_owned();
    r.append(path);
    r.append(" HTTP/1.1\r\nHost: ");
    r.append(host.as_str());
    r.append("\r\nUser-Agent: artzain\r\nConnection: close\r\n\r\n");
    r
}

/// The host and port, and the path, that a `host:port/path` holds; the path is `/` where it holds
/// none.
pub open spec fn host_and_path(s: Seq<char>) -> (Seq<char>, Seq<char>) {
    match first_at(s, '/', 0) {
        Some(i) => (s.take(i), s.skip(i)),
        None => (s, "/"@),
    }
}

/// Splits a `host:port/path` at the first slash.
pub fn split_host_path(s: &str) -> (r: (String, String))
    ensures
        (r.0@, r.1@) == host_and_path(s@),
{
    let chars = chars_of(s);
    match find_char(&chars, '/', 0) {
        Some(i) => {
            let host = text_of(&chars, 0, i);
            let path = text_of(&chars, i, chars.len());
            assert(host@ =~= s@.take(i as int));
            assert(path@ =~= s@.skip(i as int));
            (host, path)
        },
        None => (s.to_owned(), "/".to_owned()),
    }
}

/// A `host:port/path` is put together again from what it is split into, the host and port hold no
/// slash, and the path begins with one.
pub proof fn law_split_host_path(s: Seq<char>)
    ensures
        s.contains('/') ==> host_and_path(s).0 + host_and_path(s).1 == s,
        !s.contains('/') ==> host_and_path(s).0 == s,
        !host_and_path(s).0.contains('/'),
        host_and_path(s).1.len() > 0 && host_and_path(s).1[0] == '/',
{
    lemma_first_at(s, '/', 0);
    reveal_strlit("/");
    match first_at(s, '/', 0) {
        Some(i) => {
            assert(s[i] == '/');
            assert(s.take(i) + s.skip(i) =~= s);
            assert forall|k: int| 0 <= k < s.take(i).len() implies s.take(i)[k] != '/' by {
                assert(s.take(i)[k] == s[k]);
            }
        },
        None => {
            assert forall|k: int| 0 <= k < s.len() implies s[k] != '/' by {}
        },
    }
}

} // verus!
