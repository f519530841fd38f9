//! A small server to try a cluster with: it answers the probes and can be told to fail them. This
//! is what it answers.

use crate::probe::{lossily_decoded, lossy_text};
use crate::text::{
    decimal, decimal_text, has_prefix, join3, lines, read_unsigned, split_lines, split_words,
    str_eq, texts, unsigned_number, words,
};
use crate::vars::pairs;
use vstd::prelude::*;

verus! {

/// What a reply holds.
#[derive(Debug, Clone, Copy, PartialEq, Eq, Structural)]
pub enum Content {
    Ready,
    NotReady,
    Healthy,
    Unhealthy,
    Metrics,
    /// The server's environment.
    Environment,
    /// The user and the group that it runs as.
    Identity,
    /// The limits that it runs under.
    Limits,
    NotFound,
}

/// What a server that has been up for `uptime` milliseconds answers to a request for `path`. It is
/// ready from `ready_after` on, and unhealthy from `live_fail_after` on.
pub open spec fn answer(
    path: Seq<char>,
    uptime: u64,
    ready_after: Option<u64>,
    live_fail_after: Option<u64>,
) -> Content {
    if path == "/__ready"@ {
        if ready_after matches Some(t) && uptime < t {
            Content::NotReady
        } else {
            Content::Ready
        }
    } else if path == "/__health"@ {
        if live_fail_after matches Some(t) && uptime >= t {
            Content::Unhealthy
        } else {
            Content::Healthy
        }
    } else if path == "/__metrics"@ {
        Content::Metrics
    } else if path == "/__env"@ {
        Content::Environment
    } else if path == "/__id"@ {
        Content::Identity
    } else if path == "/__limits"@ {
        Content::Limits
    } else {
        Content::NotFound
    }
}

/// What to answer to a request for `path`.
pub fn route(path: &str, uptime: u64, ready_after: Option<u64>, live_fail_after: Option<u64>) -> (r:
    Content)
    ensures
        r == answer(path@, uptime, ready_after, live_fail_after),
{
    if str_eq(path, "/__ready") {
        match ready_after {
            Some(t) => if uptime < t {
                Content::NotReady
            } else {
                Content::Ready
            },
            None => Content::Ready,
        }
    } else if str_eq(path, "/__health") {
        match live_fail_after {
            Some(t) => if uptime >= t {
                Content::Unhealthy
            } else {
                Content::Healthy
            },
            None => Content::Healthy,
        }
    } else if str_eq(path, "/__metrics") {
        Content::Metrics
    } else if str_eq(path, "/__env") {
        Content::Environment
    } else if str_eq(path, "/__id") {
        Content::Identity
    } else if str_eq(path, "/__limits") {
        Content::Limits
    } else {
        Content::NotFound
    }
}

impl Content {
    /// The status that goes with it.
    pub open spec fn status_text(&self) -> Seq<char> {
        match self {
            Content::NotReady => "503 Not Ready"@,
            Content::Unhealthy => "500 Internal Server Error"@,
            Content::NotFound => "404 Not Found"@,
            _ => "200 OK"@,
        }
    }

    pub fn status(&self) -> (r: &'static str)
        ensures
            r@ == self.status_text(),
    {
        match self {
            Content::NotReady => "503 Not Ready",
            Content::Unhealthy => "500 Internal Server Error",
            Content::NotFound => "404 Not Found",
            _ => "200 OK",
        }
    }

    /// The text that it always has; none where that depends on the server.
    pub open spec fn fixed_text(&self) -> Option<Seq<char>> {
        match self {
            Content::Ready => Some("ready"@),
            Content::NotReady => Some("not ready"@),
            Content::Healthy => Some("healthy"@),
            Content::Unhealthy => Some("unhealthy"@),
            Content::Metrics => Some("ok"@),
            Content::NotFound => Some("not found"@),
            _ => None,
        }
    }

    pub fn fixed(&self) -> (r: Option<&'static str>)
        ensures
            match self.fixed_text() {
                Some(t) => r matches Some(s) && s@ == t,
                None => r is None,
            },
    {
        match self {
            Content::Ready => Some("ready"),
            Content::NotReady => Some("not ready"),
            Content::Healthy => Some("healthy"),
            Content::Unhealthy => Some("unhealthy"),
            Content::Metrics => Some("ok"),
            Content::NotFound => Some("not found"),
            _ => None,
        }
    }
}

/// The path that the first line of a request asks for; `/` where it asks for none.
pub open spec fn requested_path(text: Seq<char>) -> Seq<char> {
    let all = lines(text);
    let first = if all.len() > 0 {
        all[0]
    } else {
        seq![]
    };
    if words(first).len() > 1 {
        words(first)[1]
    } else {
        "/"@
    }
}

/// The path that a request asks for.
pub fn path_in(text: &str) -> (r: String)
    ensures
        r@ == requested_path(text@),
{
    let list = split_lines(text);
    assert(texts(list@).len() == list@.len());
    let first = if list.len() > 0 {
        assert(texts(list@)[0] == list@[0]@);
        list[0].clone()
    } else {
        String::new()
    };
    let w = split_words(first.as_str());
    assert(texts(w@).len() == w@.len());
    proof {
        if list@.len() == 0 {
            assert(first@ =~= seq![]);
        }
    }
    if w.len() > 1 {
        assert(texts(w@)[1] == w@[1]@);
        w[1].clone()
    } else {
        "/".to_owned()
    }
}

/// The path that the bytes of a request ask for.
pub fn request_path(head: &[u8]) -> (r: String)
    ensures
        r@ == requested_path(lossily_decoded(head@)),
        vstd::utf8::valid_utf8(head@) ==> r@ == requested_path(vstd::utf8::decode_utf8(head@)),
{
    let text = lossy_text(head);
    path_in(text.as_str())
}

/// A whole response.
pub open spec fn response_text(status: Seq<char>, body: Seq<char>) -> Seq<char> {
    "HTTP/1.1 "@ + status + "\r\nContent-Length: "@ + decimal_text(
        vstd::utf8::encode_utf8(body).len(),
    ) + "\r\nConnection: close\r\n\r\n"@ + body
}

/// The response with a status and a body.
pub fn response(status: &str, body: &str) -> (r: String)
    ensures
        r@ == response_text(status@, body@),
{
    let mut r = join3("HTTP/1.1 ", status, "\r\nContent-Length: ");
    r.append(decimal(body.as_bytes().len() as u64).as_str());
    r.append("\r\nConnection: close\r\n\r\n");
    r.append(body);
    r
}

/// The milliseconds that a variable's value stands for.
pub fn parse_ms(value: Option<&str>) -> (r: Option<u64>)
    ensures
        match value {
            None => r is None,
            Some(s) => match unsigned_number(s@, u64::MAX as nat) {
                Some(n) => r == Some(n as u64),
                None => r is None,
            },
        },
{
    match value {
        None => None,
        Some(s) => read_unsigned(s, u64::MAX),
    }
}

/// One entry of an object.
pub open spec fn object_entry(key: Seq<char>, value: Seq<char>) -> Seq<char> {
    "\""@ + key + "\": \""@ + value + "\""@
}

/// The first `n` entries of an object.
pub open spec fn object_entries(items: Seq<(Seq<char>, Seq<char>)>, n: int) -> Seq<char>
    decreases n,
{
    if n <= 0 {
        seq![]
    } else if n == 1 {
        object_entry(items[0].0, items[0].1)
    } else {
        object_entries(items, n - 1) + ", "@ + object_entry(items[n - 1].0, items[n - 1].1)
    }
}

/// A list of named values, written as an object. Quotes in them are left as they are.
pub fn json_object(items: &Vec<(String, String)>) -> (r: String)
    ensures
        r@ == "{"@ + object_entries(pairs(items@), items@.len() as int) + "}"@,
{
    let ghost all = pairs(items@);
    let mut out = "{".to_owned();
    let mut i: usize = 0;
    assert(out@ =~= "{"@ + object_entries(all, 0));
    while i < items.len()
        invariant
            i <= items@.len(),
            all == pairs(items@),
            out@ == "{"@ + object_entries(all, i as int),
        decreases items@.len() - i,
    {
        let ghost before = out@;
        if i > 0 {
            out.append(", ");
        }
        out.append("\"");
        out.append(items[i].0.as_str());
        out.append("\": \"");
        out.append(items[i].1.as_str());
        out.append("\"");
        i += 1;
        assert(out@ =~= "{"@ + object_entries(all, i as int));
    }
    out.append("}");
    out
}

/// The fourth column of the first line that begins with a label and has one, from line `from` on.
pub open spec fn labelled_value(list: Seq<Seq<char>>, label: Seq<char>, from: int) -> Seq<char>
    decreases list.len() - from,
{
    if from < 0 || from >= list.len() {
        seq![]
    } else if label.is_prefix_of(list[from]) && words(list[from]).len() > 3 {
        words(list[from])[3]
    } else {
        labelled_value(list, label, from + 1)
    }
}

/// The value of a limit in a listing like that of `/proc/self/limits`; empty where it is not
/// listed.
pub fn read_proc_limit(text: &str, label: &str) -> (r: String)
    ensures
        r@ == labelled_value(lines(text@), label@, 0),
{
    let list = split_lines(text);
    let ghost all = lines(text@);
    assert(texts(list@).len() == list@.len());
    let mut i: usize = 0;
    while i < list.len()
        invariant
            i <= list@.len(),
            all == texts(list@),
            all == lines(text@),
            labelled_value(all, label@, 0) == labelled_value(all, label@, i as int),
        decreases list@.len() - i,
    {
        assert(all[i as int] == list@[i as int]@);
        if has_prefix(list[i].as_str(), label) {
            let cols = split_words(list[i].as_str());
            assert(texts(cols@).len() == cols@.len());
            if cols.len() > 3 {
                assert(texts(cols@)[3] == cols@[3]@);
                return cols[3].clone();
            }
        }
        i += 1;
    }
    let r = String::new();
    assert(r@ =~= seq![]);
    r
}

/// The text on the limits that the server runs under.
pub fn limits_text(open_files: &str, address_space: &str) -> (r: String)
    ensures
        r@ == "open_files="@ + open_files@ + "\naddress_space="@ + address_space@,
{
    let mut r = join3("open_files=", open_files, "\naddress_space=");
    r.append(address_space);
    r
}

/// The text on the user and the group that the server runs as.
pub fn id_text(uid: u32, gid: u32) -> (r: String)
    ensures
        r@ == "uid="@ + decimal_text(uid as nat) + "\ngid="@ + decimal_text(gid as nat),
{
    let u = decimal(uid as u64);
    let g = decimal(gid as u64);
    let mut r = join3("uid=", u.as_str(), "\ngid=");
    r.append(g.as_str());
    r
}

} // verus!
