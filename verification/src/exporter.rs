//! What a server of `GET /metrics` decides: how a request line is read, how it is answered,
//! and what the answer looks like.

use crate::text;
use vstd::prelude::*;

verus! {

/// At most so many header lines of a request are read.
pub const MAX_HEADERS: usize = 64;

/// White space that separates the words of a request line.
pub open spec fn is_space(c: char) -> bool {
    let n = c as u32;
    ||| 0x09 <= n <= 0x0D
    ||| n == 0x20
    ||| n == 0x85
    ||| n == 0xA0
    ||| n == 0x1680
    ||| 0x2000 <= n <= 0x200A
    ||| n == 0x2028
    ||| n == 0x2029
    ||| n == 0x202F
    ||| n == 0x205F
    ||| n == 0x3000
}

/// Whether `c` is white space.
fn space(c: char) -> (b: bool)
    ensures
        b == is_space(c),
{
    let n: u32 = c as u32;
    (0x09 <= n && n <= 0x0D) || n == 0x20 || n == 0x85 || n == 0xA0 || n == 0x1680 || (0x2000 <= n
        && n <= 0x200A) || n == 0x2028 || n == 0x2029 || n == 0x202F || n == 0x205F || n == 0x3000
}

/// The first place from `i` on that is not white space.
pub open spec fn after_spaces(s: Seq<char>, i: int) -> int
    decreases s.len() - i,
{
    if 0 <= i < s.len() && is_space(s[i]) {
        after_spaces(s, i + 1)
    } else {
        i
    }
}

/// The first place from `i` on that is white space, or the end.
pub open spec fn after_word(s: Seq<char>, i: int) -> int
    decreases s.len() - i,
{
    if 0 <= i < s.len() && !is_space(s[i]) {
        after_word(s, i + 1)
    } else {
        i
    }
}

/// Where the next word from `i` on starts and ends.
pub open spec fn word_from(s: Seq<char>, i: int) -> (int, int) {
    let b = after_spaces(s, i);
    (b, after_word(s, b))
}

/// The first word of a request line: empty if there is none.
pub open spec fn verb_of(line: Seq<char>) -> Seq<char> {
    let w = word_from(line, 0);
    line.subrange(w.0, w.1)
}

/// The second word of a request line: empty if there is none.
pub open spec fn path_of(line: Seq<char>) -> Seq<char> {
    let w = word_from(line, word_from(line, 0).1);
    line.subrange(w.0, w.1)
}

/// How a request is answered.
#[derive(Debug, Clone, Copy, PartialEq, Eq, Structural)]
pub enum Route {
    /// The request is not a `GET`.
    MethodNotAllowed,
    /// The request is for another path.
    NotFound,
    /// The request is for the metrics.
    Metrics,
}

/// How a request line is answered.
pub open spec fn routed(line: Seq<char>) -> Route {
    if verb_of(line) != "GET"@ {
        Route::MethodNotAllowed
    } else if path_of(line) != "/metrics"@ {
        Route::NotFound
    } else {
        Route::Metrics
    }
}

/// The next word of `s` from `i` on.
fn next_word(s: &Vec<char>, i: usize) -> (w: (usize, usize))
    requires
        i <= s@.len(),
    ensures
        (w.0 as int, w.1 as int) == word_from(s@, i as int),
        i <= w.0 <= w.1 <= s@.len(),
{
    let mut b: usize = i;
    while b < s.len() && space(s[b])
        invariant
            i <= b <= s@.len(),
            after_spaces(s@, i as int) == after_spaces(s@, b as int),
        decreases s@.len() - b,
    {
        b = b + 1;
    }
    let mut e: usize = b;
    while e < s.len() && !space(s[e])
        invariant
            b <= e <= s@.len(),
            after_word(s@, b as int) == after_word(s@, e as int),
        decreases s@.len() - e,
    {
        e = e + 1;
    }
    (b, e)
}

/// Whether `s[b..e]` reads `word`.
fn reads(s: &Vec<char>, b: usize, e: usize, word: &str) -> (r: bool)
    requires
        b <= e <= s@.len(),
    ensures
        r == (s@.subrange(b as int, e as int) == word@),
{
    let w: Vec<char> = text::chars_of(word);
    if w.len() != e - b {
        assert(s@.subrange(b as int, e as int).len() != word@.len());
        return false;
    }
    let mut i: usize = 0;
    while i < w.len()
        invariant
            i <= w@.len(),
            w@ == word@,
            w@.len() == e - b,
            b <= e <= s@.len(),
            forall|j: int| 0 <= j < i ==> #[trigger] w@[j] == s@[b + j],
        decreases w@.len() - i,
    {
        if s[b + i] != w[i] {
            assert(s@.subrange(b as int, e as int)[i as int] != word@[i as int]);
            return false;
        }
        i = i + 1;
    }
    assert(s@.subrange(b as int, e as int) =~= word@);
    true
}

/// Decides how a request is answered from its first line: anything but `GET` is not
/// allowed, any path but `/metrics` is not found.
pub fn route(request_line: &str) -> (r: Route)
    ensures
        r == routed(request_line@),
{
    let line: Vec<char> = text::chars_of(request_line);
    let (vb, ve): (usize, usize) = next_word(&line, 0);
    if !reads(&line, vb, ve, "GET") {
        return Route::MethodNotAllowed;
    }
    let (pb, pe): (usize, usize) = next_word(&line, ve);
    if !reads(&line, pb, pe, "/metrics") {
        return Route::NotFound;
    }
    Route::Metrics
}

/// Whether a line read from a request is the one behind its headers: an empty one, or
/// nothing at all at the end of the stream.
pub fn ends_headers(line: &str) -> (r: bool)
    ensures
        r == (line@.len() == 0 || line@ == "\r\n"@ || line@ == "\n"@),
{
    let chars: Vec<char> = text::chars_of(line);
    let n: usize = chars.len();
    assert(chars@.subrange(0, n as int) =~= line@);
    n == 0 || reads(&chars, 0, n, "\r\n") || reads(&chars, 0, n, "\n")
}

/// The status line of an answer.
pub open spec fn status_of(route: Route) -> Seq<char> {
    match route {
        Route::MethodNotAllowed => "405 Method Not Allowed"@,
        Route::NotFound => "404 Not Found"@,
        Route::Metrics => "200 OK"@,
    }
}

/// An answer with this body.
pub open spec fn answer(route: Route, body: Seq<char>) -> Seq<char> {
    "HTTP/1.1 "@ + status_of(route)
        + "\r\nContent-Type: text/plain; version=0.0.4\r\nContent-Length: "@ + text::decimal(
        vstd::utf8::encode_utf8(body).len(),
    ) + "\r\nConnection: close\r\n\r\n"@ + body
}

/// Writes the answer to a request. The body is that of the scrape for the metrics, and
/// empty for any other answer.
pub fn response(route: Route, scraped: &str) -> (out: String)
    ensures
        out@ == answer(
            route,
            match route {
                Route::Metrics => scraped@,
                _ => ""@,
            },
        ),
{
    let body: &str = match route {
        Route::Metrics => scraped,
        _ => "",
    };
    let status: &str = match route {
        Route::MethodNotAllowed => "405 Method Not Allowed",
        Route::NotFound => "404 Not Found",
        Route::Metrics => "200 OK",
    };
    let mut out: String = "HTTP/1.1 ".to_owned();
    out.append(status);
    out.append("\r\nContent-Type: text/plain; version=0.0.4\r\nContent-Length: ");
    let bytes: &[u8] = body.as_bytes();
    text::push_decimal(&mut out, bytes.len() as u64);
    out.append("\r\nConnection: close\r\n\r\n");
    out.append(body);
    assert(out@ =~= answer(route, body@));
    out
}

/// Only a `GET` of `/metrics` is answered with the metrics.
pub proof fn law_only_metrics_are_served(line: Seq<char>)
    ensures
        routed(line) == Route::Metrics <==> verb_of(line) == "GET"@ && path_of(line)
            == "/metrics"@,
        verb_of(line) != "GET"@ ==> routed(line) == Route::MethodNotAllowed,
{
}

/// A space of a request line is a tab, a line break of any kind, a blank, or one of the blanks
/// of Unicode; no letter, digit or sign of the ASCII range is one.
pub proof fn law_spaces_are_white(c: char)
    ensures
        c == ' ' || c == '\t' || c == '\n' || c == '\r' || c as u32 == 0x0B || c as u32 == 0x0C
            ==> is_space(c),
        is_space(c) && (c as u32) < 0x80 ==> c == ' ' || 9 <= c as u32 <= 13,
        is_space(c) && 0x80 <= c as u32 ==> c as u32 == 0x85 || c as u32 == 0xA0 || c as u32
            == 0x1680 || 0x2000 <= c as u32 <= 0x200A || c as u32 == 0x2028 || c as u32 == 0x2029
            || c as u32 == 0x202F || c as u32 == 0x205F || c as u32 == 0x3000,
        c as u32 == 0x85 || c as u32 == 0xA0 || c as u32 == 0x1680 || 0x2000 <= c as u32 <= 0x200A
            || c as u32 == 0x2028 || c as u32 == 0x2029 || c as u32 == 0x202F || c as u32 == 0x205F
            || c as u32 == 0x3000 ==> is_space(c),
{
}

/// A word starts at the first character from `i` on that is no space, and ends right before the
/// next space or with the line.
pub proof fn law_word_stands_between_spaces(s: Seq<char>, i: int)
    requires
        0 <= i <= s.len(),
    ensures
        ({
            let (b, e) = word_from(s, i);
            &&& i <= b <= e <= s.len()
            &&& forall|k: int| i <= k < b ==> is_space(#[trigger] s[k])
            &&& forall|k: int| b <= k < e ==> !is_space(#[trigger] s[k])
            &&& b < s.len() ==> b < e
            &&& e < s.len() ==> is_space(s[e])
        }),
{
    lemma_after_spaces(s, i);
    lemma_after_word(s, after_spaces(s, i));
}

proof fn lemma_after_spaces(s: Seq<char>, i: int)
    requires
        0 <= i <= s.len(),
    ensures
        i <= after_spaces(s, i) <= s.len(),
        forall|k: int| i <= k < after_spaces(s, i) ==> is_space(#[trigger] s[k]),
        after_spaces(s, i) < s.len() ==> !is_space(s[after_spaces(s, i)]),
    decreases s.len() - i,
{
    if i < s.len() && is_space(s[i]) {
        lemma_after_spaces(s, i + 1);
    }
}

proof fn lemma_after_word(s: Seq<char>, i: int)
    requires
        0 <= i <= s.len(),
    ensures
        i <= after_word(s, i) <= s.len(),
        forall|k: int| i <= k < after_word(s, i) ==> !is_space(#[trigger] s[k]),
        after_word(s, i) < s.len() ==> is_space(s[after_word(s, i)]),
        i < s.len() && !is_space(s[i]) ==> i < after_word(s, i),
    decreases s.len() - i,
{
    if i < s.len() && !is_space(s[i]) {
        lemma_after_word(s, i + 1);
    }
}

/// The verb is the first word of a request line and the path the second one, wherever they
/// stand. The metrics are served exactly for a `GET` of their path; another verb is answered
/// as such, whatever its path.
pub proof fn law_request_is_routed_by_its_words(line: Seq<char>)
    ensures
        ({
            let (a, b) = word_from(line, 0);
            let (c, d) = word_from(line, b);
            &&& verb_of(line) == line.subrange(a, b)
            &&& path_of(line) == line.subrange(c, d)
            &&& routed(line) is Metrics <==> line.subrange(a, b) == "GET"@ && line.subrange(c, d)
                == "/metrics"@
            &&& routed(line) is NotFound <==> line.subrange(a, b) == "GET"@ && line.subrange(c, d)
                != "/metrics"@
            &&& routed(line) is MethodNotAllowed <==> line.subrange(a, b) != "GET"@
        }),
{
}

/// An answer has the status of its route, says that it is text and how many bytes follow, and
/// ends in its body behind an empty line.
pub proof fn law_answer_carries_its_body(route: Route, body: Seq<char>)
    ensures
        ({
            let a = answer(route, body);
            let status = match route {
                Route::Metrics => "200 OK"@,
                Route::NotFound => "404 Not Found"@,
                Route::MethodNotAllowed => "405 Method Not Allowed"@,
            };
            let bytes = vstd::utf8::encode_utf8(body).len();
            a == "HTTP/1.1 "@ + status
                + "\r\nContent-Type: text/plain; version=0.0.4\r\nContent-Length: "@
                + text::decimal(bytes) + "\r\nConnection: close\r\n\r\n"@ + body
        }),
{
}

/// A request may have sixty-four header lines.
pub proof fn law_headers_are_limited()
    ensures
        MAX_HEADERS == 64,
{
}

} // verus!
