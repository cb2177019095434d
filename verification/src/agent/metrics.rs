use crate::output::{self, Rendered};
use crate::text;
use vstd::prelude::*;
use vstd::slice::slice_subrange;
use vstd::string::*;

verus! {

/// Cap on the request head that is read. Nothing in a scrape needs more, and
/// the limit is what keeps a client from making the agent buffer without end.
pub const MAX_REQUEST_BYTES: u64 = 8192;

/// The whole exchange, from the first byte of the request to the last of the
/// response, in seconds. Bounds a client that connects and then says nothing.
pub const EXCHANGE_TIMEOUT_SECONDS: u64 = 10;

/// Namespace for the exposed metrics. Fixed rather than configurable: telling
/// two agents apart is what a scrape target's own labels are for.
pub open spec fn metric_prefix() -> Seq<char> {
    "btwattch2"@
}

/// The exposition format's content type, as scrapers expect it.
pub open spec fn exposition_type() -> Seq<char> {
    "text/plain; version=0.0.4; charset=utf-8"@
}

/// The content type of every other reply: the index and the error bodies.
pub open spec fn text_type() -> Seq<char> {
    "text/plain; charset=utf-8"@
}

/// What a request line asks for, once it is understood.
#[derive(Clone, Copy, Debug, PartialEq, Eq, Structural)]
pub enum Route {
    Metrics,
    Index,
    NotFound,
    MethodNotAllowed,
}

/// How many characters `s` starts with that are not white space.
pub open spec fn word_length(s: Seq<char>) -> nat
    decreases s.len(),
{
    if s.len() == 0 || text::is_space(s[0]) {
        0
    } else {
        1 + word_length(s.drop_first())
    }
}

/// The first word of `s` and what follows it, where there is one.
pub open spec fn next_word(s: Seq<char>) -> Option<(Seq<char>, Seq<char>)> {
    let t = text::trim_start(s);
    if t.len() == 0 {
        None
    } else {
        let n = word_length(t) as int;
        Some((t.take(n), t.skip(n)))
    }
}

/// The path of a request's target: what precedes a query string or a fragment.
pub open spec fn path_of(target: Seq<char>) -> Seq<char> {
    let (q, f) = (text::find(target, '?'), text::find(target, '#'));
    target.take(
        if q < f {
            q as int
        } else {
            f as int
        },
    )
}

/// What a request line asks for; nothing where it is not a request line at all.
pub open spec fn route_of(line: Seq<char>) -> Option<Route> {
    match next_word(line) {
        None => None,
        Some((method, rest)) => match next_word(rest) {
            None => None,
            Some((target, _)) => Some(
                if method != "GET"@ {
                    Route::MethodNotAllowed
                } else if path_of(target) == "/metrics"@ {
                    Route::Metrics
                } else if path_of(target) == "/"@ {
                    Route::Index
                } else {
                    Route::NotFound
                },
            ),
        },
    }
}

fn word_end(s: &[char]) -> (n: usize)
    ensures
        n == word_length(s@),
        n <= s@.len(),
{
    let mut i: usize = 0;
    proof {
        assert(s@.skip(0) =~= s@);
    }
    while i < s.len() && !text::space(s[i])
        invariant
            i <= s@.len(),
            word_length(s@) == i + word_length(s@.skip(i as int)),
        decreases s@.len() - i,
    {
        proof {
            assert(s@.skip(i as int).drop_first() =~= s@.skip(i + 1));
        }
        i = i + 1;
    }
    i
}

fn read_word(s: &[char]) -> (r: Option<(&[char], &[char])>)
    ensures
        r is Some <==> next_word(s@) is Some,
        r matches Some((word, rest)) ==> next_word(s@) == Some((word@, rest@)),
{
    let t = text::trimmed_start(s);
    if t.len() == 0 {
        return None;
    }
    let n: usize = word_end(t);
    proof {
        assert(t@.take(n as int) =~= t@.subrange(0, n as int));
        assert(t@.skip(n as int) =~= t@.subrange(n as int, t@.len() as int));
    }
    Some((slice_subrange(t, 0, n), slice_subrange(t, n, t.len())))
}

/// Route a request line such as `GET /metrics?x=1 HTTP/1.1`. `None` means it was
/// not a request line at all.
pub fn route(line: &str) -> (r: Option<Route>)
    ensures
        r == route_of(line@),
{
    let cs = text::chars(line);
    let (method, rest) = match read_word(cs.as_slice()) {
        Some(pair) => pair,
        None => return None,
    };
    let target = match read_word(rest) {
        Some((target, _)) => target,
        None => return None,
    };
    if !text::is_word(method, "GET") {
        return Some(Route::MethodNotAllowed);
    }
    // A scraper may append a query string; the path is what selects the route.
    let (q, f): (usize, usize) = (text::position(target, '?'), text::position(target, '#'));
    let n: usize = if q < f {
        q
    } else {
        f
    };
    proof {
        assert(target@.take(n as int) =~= target@.subrange(0, n as int));
    }
    let path = slice_subrange(target, 0, n);
    Some(
        if text::is_word(path, "/metrics") {
            Route::Metrics
        } else if text::is_word(path, "/") {
            Route::Index
        } else {
            Route::NotFound
        },
    )
}

/// A complete HTTP/1.1 response.
pub open spec fn response_text(
    status: Seq<char>,
    content_type: Seq<char>,
    extra_headers: Seq<char>,
    body: Seq<char>,
) -> Seq<char> {
    "HTTP/1.1 "@ + status + "\r\nContent-Type: "@ + content_type + "\r\nContent-Length: "@
        + text::decimal(text::utf8_length(body)) + "\r\nConnection: close\r\n"@ + extra_headers
        + "\r\n"@ + body
}

/// Build a complete HTTP/1.1 response. Every reply closes the connection:
/// keeping it alive would buy nothing for a scrape that arrives once an
/// interval, and costs the state machine that goes with it.
pub fn response(status: &str, content_type: &str, extra_headers: &str, body: &str) -> (s: String)
    ensures
        s@ == response_text(status@, content_type@, extra_headers@, body@),
{
    let length: usize = text::count_utf8(body);
    let mut s = "HTTP/1.1 ".to_owned();
    s.append(status);
    s.append("\r\nContent-Type: ");
    s.append(content_type);
    s.append("\r\nContent-Length: ");
    s.append(text::decimal_string(length as u64).as_str());
    s.append("\r\nConnection: close\r\n");
    s.append(extra_headers);
    s.append("\r\n");
    s.append(body);
    s
}

/// What a request is answered with, given what a scrape would read.
pub open spec fn answer_text(line: Seq<char>, scrape: Seq<char>) -> Seq<char> {
    match route_of(line) {
        Some(Route::Metrics) => response_text(
            "200 OK"@,
            exposition_type(),
            Seq::empty(),
            scrape,
        ),
        Some(Route::Index) => response_text(
            "200 OK"@,
            text_type(),
            Seq::empty(),
            "btwattch2 agent\nmetrics: /metrics\n"@,
        ),
        Some(Route::MethodNotAllowed) => response_text(
            "405 Method Not Allowed"@,
            text_type(),
            "Allow: GET\r\n"@,
            Seq::empty(),
        ),
        Some(Route::NotFound) | None => response_text(
            "404 Not Found"@,
            text_type(),
            Seq::empty(),
            Seq::empty(),
        ),
    }
}

/// What a scrape reads of the latest measurement, where there is one.
pub open spec fn scrape_text(m: Option<&Rendered>, fresh: bool) -> Seq<char> {
    output::exposition(
        metric_prefix(),
        match m {
            Some(m) => Some(*m),
            None => None,
        },
        fresh,
    )
}

/// Answer a request line, given the latest measurement and whether it still
/// describes the device.
pub fn answer(line: &str, m: Option<&Rendered>, fresh: bool) -> (s: String)
    ensures
        s@ == answer_text(line@, scrape_text(m, fresh)),
{
    proof {
        reveal_strlit("");
        assert(""@ =~= Seq::<char>::empty());
    }
    match route(line) {
        Some(Route::Metrics) => {
            let body = output::metrics_exposition("btwattch2", m, fresh);
            response("200 OK", "text/plain; version=0.0.4; charset=utf-8", "", body.as_str())
        },
        Some(Route::Index) => response(
            "200 OK",
            "text/plain; charset=utf-8",
            "",
            "btwattch2 agent\nmetrics: /metrics\n",
        ),
        Some(Route::MethodNotAllowed) => response(
            "405 Method Not Allowed",
            "text/plain; charset=utf-8",
            "Allow: GET\r\n",
            "",
        ),
        Some(Route::NotFound) | None => response(
            "404 Not Found",
            "text/plain; charset=utf-8",
            "",
            "",
        ),
    }
}

/// Whether the head of a request ends with the `n` bytes that make up `line`.
pub open spec fn head_ends(n: nat, line: Seq<char>) -> bool {
    n == 0 || text::trim_end(line).len() == 0
}

/// Whether reading `n` bytes that make up `line` ends the head of a request: an
/// empty line does, and so does the end of what was sent. The rest of the head
/// is read before replying, because a client still writing when its socket is
/// closed sees the reset rather than the response.
pub fn ends_head(n: usize, line: &str) -> (b: bool)
    ensures
        b == (n == 0 || text::trim_end(line@).len() == 0),
        b == head_ends(n as nat, line@),
{
    let cs = text::chars(line);
    n == 0 || text::trimmed_end(cs.as_slice()).len() == 0
}

/// The declared length of a response is that of its body, so a scraper never
/// reads a truncated one: whatever follows the empty line is the body.
pub proof fn declared_length_is_the_body(
    status: Seq<char>,
    content_type: Seq<char>,
    extra_headers: Seq<char>,
    body: Seq<char>,
)
    ensures
        ({
            let head = "HTTP/1.1 "@ + status + "\r\nContent-Type: "@ + content_type
                + "\r\nContent-Length: "@ + text::decimal(text::utf8_length(body))
                + "\r\nConnection: close\r\n"@ + extra_headers + "\r\n"@;
            response_text(status, content_type, extra_headers, body) == head + body
        }),
{
}

/// Whatever is asked for, it is answered; only a `GET` gets anything but a
/// refusal, and what is asked for after the path makes no difference.
pub proof fn query_makes_no_difference(path: Seq<char>, query: Seq<char>)
    requires
        text::find(path, '?') == path.len(),
        text::find(path, '#') == path.len(),
    ensures
        path_of(path + seq!['?'] + query) == path,
        path_of(path) == path,
{
    let target = path + seq!['?'] + query;
    text::lemma_find(target, '?');
    text::lemma_find(target, '#');
    text::lemma_find(path, '?');
    text::lemma_find(path, '#');
    assert(target[path.len() as int] == '?');
    assert(text::find(target, '?') == path.len()) by {
        let i = text::find(target, '?') as int;
        if i < path.len() {
            assert(target[i] == path[i]);
        }
    }
    assert(text::find(target, '#') >= path.len()) by {
        let i = text::find(target, '#') as int;
        if i < path.len() {
            assert(target[i] == path[i]);
        }
    }
    assert(text::find(target, '#') != path.len()) by {
        if text::find(target, '#') == path.len() {
            assert(target[path.len() as int] == '#');
        }
    }
    assert(target.take(path.len() as int) =~= path);
    assert(path.take(path.len() as int) =~= path);
}

/// The head of a request goes on as long as there is anything but white space on
/// a line, and ends with the first line that is blank.
pub proof fn a_blank_line_ends_the_head(n: nat, margin: Seq<char>, word: Seq<char>, end: Seq<char>)
    requires
        text::blank(margin),
        text::blank(end),
        text::bare(word),
    ensures
        n > 0 ==> (head_ends(n, margin + word + end) <==> word.len() == 0),
        head_ends(0, margin + word + end),
{
    let line = margin + word + end;
    if word.len() == 0 {
        assert(line =~= Seq::<char>::empty() + (margin + end));
        assert forall|i: int| 0 <= i < (margin + end).len() implies text::is_space(
            #[trigger] (margin + end)[i],
        ) by {
            if i < margin.len() {
                assert(text::is_space(margin[i]));
            } else {
                assert(text::is_space(end[i - margin.len()]));
            }
        }
        text::white_space_around_makes_no_difference(
            Seq::empty(),
            Seq::empty(),
            margin + end,
        );
    } else {
        let w = margin + word;
        lemma_trim_end_behind(w, end);
    }
}

proof fn lemma_trim_end_behind(w: Seq<char>, end: Seq<char>)
    requires
        text::blank(end),
        w.len() > 0,
        !text::is_space(w.last()),
    ensures
        text::trim_end(w + end) == w,
    decreases end.len(),
{
    if end.len() == 0 {
        assert(w + end =~= w);
    } else {
        let s = w + end;
        assert(text::is_space(end[end.len() - 1]));
        assert(s.last() == end.last());
        assert(s.drop_last() =~= w + end.drop_last());
        lemma_trim_end_behind(w, end.drop_last());
    }
}

/// Whether `s` is a word: it is there, and holds no white space.
pub open spec fn is_word(s: Seq<char>) -> bool {
    s.len() > 0 && forall|i: int| 0 <= i < s.len() ==> !text::is_space(#[trigger] s[i])
}

proof fn lemma_word_length(word: Seq<char>, rest: Seq<char>)
    requires
        forall|i: int| 0 <= i < word.len() ==> !text::is_space(#[trigger] word[i]),
        rest.len() > 0 ==> text::is_space(rest[0]),
    ensures
        word_length(word + rest) == word.len(),
    decreases word.len(),
{
    let s = word + rest;
    if word.len() > 0 {
        assert(!text::is_space(word[0]));
        assert(s.drop_first() =~= word.drop_first() + rest);
        assert forall|i: int| 0 <= i < word.drop_first().len() implies !text::is_space(
            #[trigger] word.drop_first()[i],
        ) by {
            assert(!text::is_space(word[i + 1]));
        }
        lemma_word_length(word.drop_first(), rest);
    } else {
        assert(s =~= rest);
    }
}

proof fn lemma_next_word(margin: Seq<char>, word: Seq<char>, rest: Seq<char>)
    requires
        text::blank(margin),
        is_word(word),
        rest.len() > 0 ==> text::is_space(rest[0]),
    ensures
        next_word(margin + word + rest) == Some((word, rest)),
    decreases margin.len(),
{
    let s = margin + word + rest;
    assert(!text::is_space(word[0]));
    if margin.len() > 0 {
        assert(text::is_space(margin[0]));
        assert(s.drop_first() =~= margin.drop_first() + word + rest);
        assert forall|i: int| 0 <= i < margin.drop_first().len() implies text::is_space(
            #[trigger] margin.drop_first()[i],
        ) by {
            assert(text::is_space(margin[i + 1]));
        }
        lemma_next_word(margin.drop_first(), word, rest);
    } else {
        assert(s =~= word + rest);
        lemma_word_length(word, rest);
        assert(s.take(word.len() as int) =~= word);
        assert(s.skip(word.len() as int) =~= rest);
    }
}

proof fn lemma_no_word(margin: Seq<char>)
    requires
        text::blank(margin),
    ensures
        next_word(margin) is None,
    decreases margin.len(),
{
    if margin.len() > 0 {
        assert(text::is_space(margin[0]));
        assert forall|i: int| 0 <= i < margin.drop_first().len() implies text::is_space(
            #[trigger] margin.drop_first()[i],
        ) by {
            assert(text::is_space(margin[i + 1]));
        }
        lemma_no_word(margin.drop_first());
    }
}

/// A request line is a method and a target between white space, whatever follows.
/// Anything but a `GET` is refused as a method; of the paths, `/metrics` is a
/// scrape, `/` is the index, and no other is found. A line with less than two
/// words asks for nothing.
#[verifier::rlimit(40)]
pub proof fn a_request_is_routed_by_its_path(
    method: Seq<char>,
    gap: Seq<char>,
    path: Seq<char>,
    query: Seq<char>,
    rest: Seq<char>,
)
    requires
        is_word(method),
        gap.len() > 0,
        text::blank(gap),
        is_word(path),
        text::lacks(path, '?'),
        text::lacks(path, '#'),
        query.len() > 0 ==> is_word(query) && (query[0] == '?' || query[0] == '#'),
        rest.len() > 0 ==> text::is_space(rest[0]),
    ensures
        ({
            let r = route_of(method + gap + path + query + rest);
            &&& r is Some
            &&& r->0 is MethodNotAllowed <==> method != "GET"@
            &&& r->0 is Metrics <==> method == "GET"@ && path == "/metrics"@
            &&& r->0 is Index <==> method == "GET"@ && path == "/"@
        }),
        route_of(gap) is None,
        route_of(method + gap) is None,
        route_of(Seq::empty()) is None,
{
    reveal_strlit("/metrics");
    reveal_strlit("/");
    let target = path + query;
    let line = method + gap + path + query + rest;
    assert(line =~= Seq::<char>::empty() + method + (gap + target + rest));
    assert(text::is_space(gap[0]));
    lemma_next_word(Seq::empty(), method, gap + target + rest);
    assert forall|i: int| 0 <= i < target.len() implies !text::is_space(#[trigger] target[i]) by {
        if i < path.len() {
            assert(!text::is_space(path[i]));
        } else {
            assert(!text::is_space(query[i - path.len()]));
        }
    }
    lemma_next_word(gap, target, rest);
    lemma_path_before(path, query);
    lemma_no_word(gap);
    assert(method + gap =~= Seq::<char>::empty() + method + gap);
    lemma_next_word(Seq::empty(), method, gap);
    lemma_no_word(Seq::empty());
    assert("/metrics"@.len() != "/"@.len());
}

proof fn lemma_path_before(path: Seq<char>, query: Seq<char>)
    requires
        text::lacks(path, '?'),
        text::lacks(path, '#'),
        query.len() > 0 ==> query[0] == '?' || query[0] == '#',
    ensures
        path_of(path + query) == path,
{
    let target = path + query;
    let n = path.len() as int;
    text::lemma_find(target, '?');
    text::lemma_find(target, '#');
    let (q, f) = (text::find(target, '?') as int, text::find(target, '#') as int);
    if q < n {
        assert(target[q] == path[q]);
    }
    if f < n {
        assert(target[f] == path[f]);
    }
    if query.len() > 0 {
        assert(target[n] == query[0]);
        if q > n && f > n {
            assert(target[n] != '?' && target[n] != '#');
        }
    }
    assert(target.take(n) =~= path);
}

/// Only a scrape is answered with the measurement: its body is what is scraped,
/// in the exposition's own type. A refused method is told which one is allowed,
/// and what is not found gets no body. The status line says which it is.
#[verifier::rlimit(40)]
pub proof fn an_answer_says_how_it_went(line: Seq<char>, scrape: Seq<char>, other: Seq<char>)
    ensures
        ({
            let (ok, missing, refused) = (
                "HTTP/1.1 200 OK\r\n"@,
                "HTTP/1.1 404 Not Found\r\n"@,
                "HTTP/1.1 405 Method Not Allowed\r\n"@,
            );
            let a = answer_text(line, scrape);
            &&& route_of(line) == Some(Route::Metrics) ==> ok.is_prefix_of(a) && a.len()
                >= scrape.len() && a.skip(a.len() - scrape.len()) == scrape
            &&& route_of(line) == Some(Route::Index) ==> ok.is_prefix_of(a)
            &&& route_of(line) == Some(Route::NotFound) ==> missing.is_prefix_of(a)
            &&& route_of(line) is None ==> missing.is_prefix_of(a)
            &&& route_of(line) == Some(Route::MethodNotAllowed) ==> refused.is_prefix_of(a)
            &&& route_of(line) != Some(Route::Metrics) ==> a == answer_text(line, other)
        }),
{
    reveal_strlit("HTTP/1.1 ");
    reveal_strlit("200 OK");
    reveal_strlit("404 Not Found");
    reveal_strlit("405 Method Not Allowed");
    reveal_strlit("\r\nContent-Type: ");
    reveal_strlit("HTTP/1.1 200 OK\r\n");
    reveal_strlit("HTTP/1.1 404 Not Found\r\n");
    reveal_strlit("HTTP/1.1 405 Method Not Allowed\r\n");
    let a = answer_text(line, scrape);
    if route_of(line) == Some(Route::Metrics) {
        assert(a.skip(a.len() - scrape.len()) =~= scrape);
    }
}

/// The head of a response is a status line and header lines, each ended by a
/// carriage return and a line feed, and an empty line; it declares how many bytes
/// the body takes and that the connection is closed, and the body follows it as
/// it is.
#[verifier::rlimit(40)]
pub proof fn a_response_has_a_head_and_a_body(
    status: Seq<char>,
    content_type: Seq<char>,
    body: Seq<char>,
)
    ensures
        ({
            let head = seq![
                "HTTP/1.1 "@ + status,
                "Content-Type: "@ + content_type,
                "Content-Length: "@ + text::decimal(text::utf8_length(body)),
                "Connection: close"@,
            ];
            &&& response_text(status, content_type, Seq::empty(), body) == text::ended(
                head + seq![Seq::empty()],
                seq!['\r', '\n'],
            ) + body
            &&& response_text(status, content_type, "Allow: GET\r\n"@, body) == text::ended(
                head + seq!["Allow: GET"@, Seq::empty()],
                seq!['\r', '\n'],
            ) + body
        }),
{
    let end = seq!['\r', '\n'];
    let n = text::decimal(text::utf8_length(body));
    let none = Seq::<char>::empty();
    let (a, b, c, d) = (
        "HTTP/1.1 "@ + status,
        "Content-Type: "@ + content_type,
        "Content-Length: "@ + n,
        "Connection: close"@,
    );
    let head = seq![a, b, c, d];
    reveal_strlit("\r\nContent-Type: ");
    reveal_strlit("Content-Type: ");
    reveal_strlit("\r\nContent-Length: ");
    reveal_strlit("Content-Length: ");
    reveal_strlit("\r\nConnection: close\r\n");
    reveal_strlit("Connection: close");
    reveal_strlit("\r\n");
    reveal_strlit("Allow: GET\r\n");
    reveal_strlit("Allow: GET");
    assert("\r\nContent-Type: "@ =~= end + "Content-Type: "@);
    assert("\r\nContent-Length: "@ =~= end + "Content-Length: "@);
    assert("\r\nConnection: close\r\n"@ =~= end + "Connection: close"@ + end);
    assert("\r\n"@ =~= end);
    assert("Allow: GET\r\n"@ =~= "Allow: GET"@ + end);
    lemma_head(a, b, c, d, end);
    let top = (a + end) + (b + end) + (c + end) + (d + end);
    text::lemma_ended_sum(head, seq![none], end);
    text::lemma_ended_one(none, end);
    assert(response_text(status, content_type, none, body) =~= top + (none + end) + body);
    let two = seq!["Allow: GET"@, none];
    text::lemma_ended_sum(head, two, end);
    assert(two =~= seq!["Allow: GET"@] + seq![none]);
    text::lemma_ended_sum(seq!["Allow: GET"@], seq![none], end);
    text::lemma_ended_one("Allow: GET"@, end);
    assert(response_text(status, content_type, "Allow: GET\r\n"@, body) =~= top + (("Allow: GET"@
        + end) + (none + end)) + body);
}

proof fn lemma_head(a: Seq<char>, b: Seq<char>, c: Seq<char>, d: Seq<char>, end: Seq<char>)
    ensures
        text::ended(seq![a, b, c, d], end) == (a + end) + (b + end) + (c + end) + (d + end),
{
    assert(seq![a, b, c, d] =~= seq![a] + seq![b] + seq![c] + seq![d]);
    text::lemma_ended_sum(seq![a] + seq![b] + seq![c], seq![d], end);
    text::lemma_ended_sum(seq![a] + seq![b], seq![c], end);
    text::lemma_ended_sum(seq![a], seq![b], end);
    text::lemma_ended_one(a, end);
    text::lemma_ended_one(b, end);
    text::lemma_ended_one(c, end);
    text::lemma_ended_one(d, end);
}

} // verus!
