//! A minimal responder for `/metrics` and `/healthz`: one request per
//! connection, read and answered as text.

use vstd::prelude::*;
#[allow(unused_imports)]
use vstd::utf8::encode_utf8;
use crate::metrics::Metrics;
#[allow(unused_imports)]
use crate::metrics::{exposition, MetricsState};
use crate::text::push_decimal;
#[allow(unused_imports)]
use crate::text::decimal;

verus! {

/// A character that separates the words of a request.
pub open spec fn is_space(c: char) -> bool {
    let u = c as u32;
    ||| 0x09 <= u <= 0x0D
    ||| u == 0x20
    ||| u == 0x85
    ||| u == 0xA0
    ||| u == 0x1680
    ||| 0x2000 <= u <= 0x200A
    ||| u == 0x2028
    ||| u == 0x2029
    ||| u == 0x202F
    ||| u == 0x205F
    ||| u == 0x3000
}

/// Where the next word of `s` starts, at or after `from`.
pub open spec fn word_start(s: Seq<char>, from: int) -> int
    decreases s.len() - from,
{
    if 0 <= from < s.len() && is_space(s[from]) {
        word_start(s, from + 1)
    } else {
        from
    }
}

/// Where the word of `s` that goes on at `from` ends.
pub open spec fn word_end(s: Seq<char>, from: int) -> int
    decreases s.len() - from,
{
    if 0 <= from < s.len() && !is_space(s[from]) {
        word_end(s, from + 1)
    } else {
        from
    }
}

/// The second word of a request, or `/` where it has none.
pub open spec fn path_of(request: Seq<char>) -> Seq<char> {
    let start = word_start(request, word_end(request, word_start(request, 0)));
    if start < request.len() {
        request.subrange(start, word_end(request, start))
    } else {
        "/"@
    }
}

/// Whether `c` separates words.
fn separates(c: char) -> (r: bool)
    ensures
        r == is_space(c),
{
    let u: u32 = c as u32;
    (0x09 <= u && u <= 0x0D) || u == 0x20 || u == 0x85 || u == 0xA0 || u == 0x1680 || (0x2000 <= u && u
        <= 0x200A) || u == 0x2028 || u == 0x2029 || u == 0x202F || u == 0x205F || u == 0x3000
}

/// Skip to where the next word starts.
fn skip_spaces(s: &str, len: usize, from: usize) -> (r: usize)
    requires
        len == s@.len(),
        from <= len,
    ensures
        r == word_start(s@, from as int),
        from <= r <= len,
{
    let mut k: usize = from;
    while k < len && separates(s.get_char(k))
        invariant
            len == s@.len(),
            from <= k <= len,
            word_start(s@, k as int) == word_start(s@, from as int),
        decreases len - k,
    {
        k = k + 1;
    }
    k
}

/// Skip to where the current word ends.
fn skip_word(s: &str, len: usize, from: usize) -> (r: usize)
    requires
        len == s@.len(),
        from <= len,
    ensures
        r == word_end(s@, from as int),
        from <= r <= len,
{
    let mut k: usize = from;
    while k < len && !separates(s.get_char(k))
        invariant
            len == s@.len(),
            from <= k <= len,
            word_end(s@, k as int) == word_end(s@, from as int),
        decreases len - k,
    {
        k = k + 1;
    }
    k
}

/// The path that a request asks for.
pub fn request_path<'a>(request: &'a str) -> (path: &'a str)
    ensures
        path@ == path_of(request@),
{
    let len: usize = request.unicode_len();
    let first: usize = skip_spaces(request, len, 0);
    let first_end: usize = skip_word(request, len, first);
    let start: usize = skip_spaces(request, len, first_end);
    if start < len {
        let end: usize = skip_word(request, len, start);
        request.substring_char(start, end)
    } else {
        "/"
    }
}

/// What is answered: status, content type and body.
pub struct AnswerText {
    /// Status line after the protocol.
    pub status: Seq<char>,
    /// Content type.
    pub content_type: Seq<char>,
    /// Body.
    pub body: Seq<char>,
}

/// The answer to a request for `path`.
pub open spec fn answer_to(path: Seq<char>, prefix: Seq<char>, m: MetricsState) -> AnswerText {
    if path == "/metrics"@ {
        AnswerText {
            status: "200 OK"@,
            content_type: "text/plain; version=0.0.4; charset=utf-8"@,
            body: exposition(m, prefix),
        }
    } else if path == "/healthz"@ {
        AnswerText {
            status: "200 OK"@,
            content_type: "text/plain; charset=utf-8"@,
            body: "ok\n"@,
        }
    } else {
        AnswerText {
            status: "404 Not Found"@,
            content_type: "text/plain; charset=utf-8"@,
            body: "not found\n"@,
        }
    }
}

/// An answer as it goes over the wire: its length is that of the encoded body.
pub open spec fn wire_text(a: AnswerText) -> Seq<char> {
    "HTTP/1.1 "@ + a.status + "\r\nContent-Type: "@ + a.content_type + "\r\nContent-Length: "@ + decimal(
        encode_utf8(a.body).len(),
    ) + "\r\nConnection: close\r\n\r\n"@ + a.body
}

/// Put an answer together.
fn compose(status: &str, content_type: &str, body: &str) -> (s: String)
    ensures
        s@ == wire_text(
            (AnswerText { status: status@, content_type: content_type@, body: body@ }),
        ),
{
    let mut s = String::new();
    s.append("HTTP/1.1 ");
    s.append(status);
    s.append("\r\nContent-Type: ");
    s.append(content_type);
    s.append("\r\nContent-Length: ");
    let len: usize = body.as_bytes().len();
    push_decimal(&mut s, len as u64);
    s.append("\r\nConnection: close\r\n\r\n");
    s.append(body);
    assert(s@ =~= wire_text(
        (AnswerText { status: status@, content_type: content_type@, body: body@ }),
    ));
    s
}

/// Answer one request.
pub fn respond(request: &str, prefix: &str, metrics: &Metrics) -> (s: String)
    ensures
        s@ == wire_text(answer_to(path_of(request@), prefix@, metrics.state())),
{
    let path = request_path(request).to_owned();
    if path == "/metrics".to_owned() {
        let body = metrics.render(prefix);
        compose("200 OK", "text/plain; version=0.0.4; charset=utf-8", body.as_str())
    } else if path == "/healthz".to_owned() {
        compose("200 OK", "text/plain; charset=utf-8", "ok\n")
    } else {
        compose("404 Not Found", "text/plain; charset=utf-8", "not found\n")
    }
}

proof fn lemma_word_end(s: Seq<char>, from: int, to: int)
    requires
        0 <= from <= to <= s.len(),
        forall|i: int| from <= i < to ==> !is_space(#[trigger] s[i]),
        to < s.len() ==> is_space(s[to]),
    ensures
        word_end(s, from) == to,
    decreases to - from,
{
    if from < to {
        assert(!is_space(s[from]));
        lemma_word_end(s, from + 1, to);
    }
}

/// The path of a request is its second word: what stands between the first space
/// and the next.
pub proof fn the_path_is_the_second_word(method: Seq<char>, path: Seq<char>, rest: Seq<char>)
    requires
        method.len() > 0,
        path.len() > 0,
        forall|i: int| 0 <= i < method.len() ==> (#[trigger] method[i]) as u32 > 0x20 && (method[i] as u32)
            < 0x7F,
        forall|i: int| 0 <= i < path.len() ==> (#[trigger] path[i]) as u32 > 0x20 && (path[i] as u32)
            < 0x7F,
    ensures
        path_of(method + seq![' '] + path + seq![' '] + rest) == path,
        path_of(method + seq![' '] + path) == path,
{
    let a = method.len() as int;
    let b = path.len() as int;
    let long = method + seq![' '] + path + seq![' '] + rest;
    assert(long[a] == ' ' && long[a + 1 + b] == ' ');
    assert forall|i: int| 0 <= i < a implies !is_space(#[trigger] long[i]) by {
        assert(long[i] == method[i]);
    }
    assert forall|i: int| a + 1 <= i < a + 1 + b implies !is_space(#[trigger] long[i]) by {
        assert(long[i] == path[i - a - 1]);
    }
    lemma_word_end(long, 0, a);
    lemma_word_end(long, a + 1, a + 1 + b);
    assert(!is_space(long[0]));
    assert(word_start(long, 0) == 0);
    assert(!is_space(long[a + 1]));
    assert(word_start(long, a + 1) == a + 1);
    assert(word_start(long, a) == a + 1);
    assert(long.subrange(a + 1, a + 1 + b) =~= path);
    let short = method + seq![' '] + path;
    assert(short[a] == ' ');
    assert forall|i: int| 0 <= i < a implies !is_space(#[trigger] short[i]) by {
        assert(short[i] == method[i]);
    }
    assert forall|i: int| a + 1 <= i < a + 1 + b implies !is_space(#[trigger] short[i]) by {
        assert(short[i] == path[i - a - 1]);
    }
    lemma_word_end(short, 0, a);
    lemma_word_end(short, a + 1, a + 1 + b);
    assert(!is_space(short[0]));
    assert(word_start(short, 0) == 0);
    assert(!is_space(short[a + 1]));
    assert(word_start(short, a + 1) == a + 1);
    assert(word_start(short, a) == a + 1);
    assert(short.subrange(a + 1, a + 1 + b) =~= path);
}

/// `/metrics` is answered with the exposition, `/healthz` with a plain yes, and
/// anything else with a refusal; the body is the last thing on the wire.
pub proof fn answers_follow_the_path(path: Seq<char>, prefix: Seq<char>, m: MetricsState)
    ensures
        ({
            let a = answer_to(path, prefix, m);
            &&& path == "/metrics"@ ==> a.status == "200 OK"@ && a.body == exposition(m, prefix)
            &&& path == "/healthz"@ && path != "/metrics"@ ==> a.status == "200 OK"@ && a.body
                == "ok\n"@
            &&& path != "/metrics"@ && path != "/healthz"@ ==> a.status == "404 Not Found"@ && a.body
                == "not found\n"@
            &&& wire_text(a).len() >= a.body.len()
            &&& wire_text(a).skip(wire_text(a).len() - a.body.len()) == a.body
            &&& ("HTTP/1.1 "@ + a.status).is_prefix_of(wire_text(a))
        }),
{
    let a = answer_to(path, prefix, m);
    let w = wire_text(a);
    let head = "HTTP/1.1 "@ + a.status + "\r\nContent-Type: "@ + a.content_type
        + "\r\nContent-Length: "@ + decimal(encode_utf8(a.body).len())
        + "\r\nConnection: close\r\n\r\n"@;
    assert(w =~= head + a.body);
    assert(w.skip(w.len() - a.body.len()) =~= a.body);
    assert(("HTTP/1.1 "@ + a.status).is_prefix_of(w)) by {
        let p = "HTTP/1.1 "@ + a.status;
        assert(w.subrange(0, p.len() as int) =~= p);
    }
}

/// Blanks, tabs and line ends separate words; printable characters do not.
pub proof fn blanks_separate_words(c: char)
    ensures
        c == ' ' || c == '\t' || c == '\n' || c == '\r' ==> is_space(c),
        0x21 <= (c as u32) <= 0x7E ==> !is_space(c),
{
}

} // verus!
