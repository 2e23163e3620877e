//! The HTTP requests that are made, and what is made of their answers.

use vstd::prelude::*;

use crate::failure::Failure;
use crate::json::{
    law_field_is_the_first_of_its_name, Json, JsonTree, Member, MemberTree,
};
use crate::stream::{is_success, success};
use crate::text::{decimal, optional_text, starts_with};

verus! {

/// What a request carries.
#[derive(Debug, PartialEq, Eq)]
pub enum Body {
    Empty,
    Text(String),
    /// A document, sent as JSON.
    Document(Json),
}

/// A `Body` as a mathematical value.
pub enum BodyModel {
    Empty,
    Text(Seq<char>),
    Document(JsonTree),
}

impl View for Body {
    type V = BodyModel;

    open spec fn view(&self) -> BodyModel {
        match self {
            Body::Empty => BodyModel::Empty,
            Body::Text(s) => BodyModel::Text(s@),
            Body::Document(doc) => BodyModel::Document(doc@),
        }
    }
}

/// A header of a request.
#[derive(Debug, PartialEq, Eq)]
pub struct Header {
    pub name: String,
    pub value: String,
}

/// An HTTP request.
#[derive(Debug, PartialEq, Eq)]
pub struct HttpRequest {
    pub method: String,
    pub url: String,
    /// The one header that the request sets for itself, if any.
    pub header: Option<Header>,
    pub body: Body,
    /// How long the request may take in all; without it there is no limit.
    pub timeout_ms: Option<u64>,
    pub user_agent: Option<String>,
}

/// An `HttpRequest` as a mathematical value.
pub struct RequestModel {
    pub method: Seq<char>,
    pub url: Seq<char>,
    pub header: Option<(Seq<char>, Seq<char>)>,
    pub body: BodyModel,
    pub timeout_ms: Option<u64>,
    pub user_agent: Option<Seq<char>>,
}

impl View for HttpRequest {
    type V = RequestModel;

    open spec fn view(&self) -> RequestModel {
        RequestModel {
            method: self.method@,
            url: self.url@,
            header: match self.header {
                Some(h) => Some((h.name@, h.value@)),
                None => None,
            },
            body: self.body@,
            timeout_ms: self.timeout_ms,
            user_agent: match self.user_agent {
                Some(s) => Some(s@),
                None => None,
            },
        }
    }
}

/// The header that says a request carries JSON.
pub open spec fn json_header() -> (Seq<char>, Seq<char>) {
    ("Content-Type"@, "application/json"@)
}

fn json_content() -> (header: Header)
    ensures
        (header.name@, header.value@) == json_header(),
{
    Header { name: "Content-Type".to_owned(), value: "application/json".to_owned() }
}

/// Tells whether a page may be asked for: only those of ollama.com and its registry.
pub open spec fn may_fetch(url: Seq<char>) -> bool {
    "https://ollama.com/"@.is_prefix_of(url) || "https://registry.ollama.ai/"@.is_prefix_of(url)
}

/// The request for a page.
pub open spec fn page_request(url: Seq<char>, hx: bool) -> RequestModel {
    RequestModel {
        method: "GET"@,
        url,
        header: if hx {
            Some(("HX-Request"@, "true"@))
        } else {
            None
        },
        body: BodyModel::Empty,
        timeout_ms: Some(20000),
        user_agent: Some("DeskOllama"@),
    }
}

/// The request for a page, where it may be asked for. With `hx` the request says
/// that it comes from a part of a page, without which results come unpaginated.
pub fn fetch_page(url: String, hx: Option<bool>) -> (request: Result<HttpRequest, Failure>)
    ensures
        match request {
            Ok(r) => may_fetch(url@) && r@ == page_request(url@, hx == Some(true)) && r.url == url
                && (r.header is Some <==> hx == Some(true)),
            Err(e) => !may_fetch(url@) && e is HostRefused,
        },
{
    if !(starts_with(&url, "https://ollama.com/") || starts_with(
        &url,
        "https://registry.ollama.ai/",
    )) {
        return Err(Failure::HostRefused);
    }
    let header = match hx {
        Some(true) => Some(
            Header { name: "HX-Request".to_owned(), value: "true".to_owned() },
        ),
        _ => None,
    };
    Ok(
        HttpRequest {
            method: "GET".to_owned(),
            url,
            header,
            body: Body::Empty,
            timeout_ms: Some(20000),
            user_agent: Some("DeskOllama".to_owned()),
        },
    )
}

/// Judges the answer to the request for a page: its body counts only where the
/// status is one of success.
pub fn page_reply(status: u16) -> (reply: Result<(), Failure>)
    ensures
        match reply {
            Ok(_) => is_success(status),
            Err(e) => !is_success(status) && e == Failure::PageStatus(status),
        },
        reply is Ok <==> status / 100 == 2,
{
    if success(status) {
        Ok(())
    } else {
        Err(Failure::PageStatus(status))
    }
}

/// The characters that may occur in the name of a request method.
pub open spec fn is_token_char(c: char) -> bool {
    ||| 'a' <= c <= 'z'
    ||| 'A' <= c <= 'Z'
    ||| '0' <= c <= '9'
    ||| c == '!'
    ||| c == '#'
    ||| c == '$'
    ||| c == '%'
    ||| c == '&'
    ||| c == '\''
    ||| c == '*'
    ||| c == '+'
    ||| c == '-'
    ||| c == '.'
    ||| c == '^'
    ||| c == '_'
    ||| c == '`'
    ||| c == '|'
    ||| c == '~'
}

/// Tells whether `s` can be the name of a request method.
pub open spec fn is_method(s: Seq<char>) -> bool {
    s.len() > 0 && forall|i: int| 0 <= i < s.len() ==> is_token_char(#[trigger] s[i])
}

/// Calls `reqwest::Method::from_bytes` on the bytes of `method`. It accepts a
/// method just where there is at least one character and each may occur in the
/// name of a method; the method it gives is written as it was given, and the
/// error reads "invalid HTTP method".
#[verifier::external_body]
fn method_name(method: &str) -> (name: Result<String, String>)
    ensures
        match name {
            Ok(s) => is_method(method@) && s@ == method@,
            Err(e) => !is_method(method@) && e@ == "invalid HTTP method"@,
        },
{
    match reqwest::Method::from_bytes(method.as_bytes()) {
        Ok(m) => Ok(m.as_str().to_string()),
        Err(e) => Err(e.to_string()),
    }
}

/// A request to Ollama that is answered in one piece.
pub open spec fn fetch_request(
    url: Seq<char>,
    method: Seq<char>,
    body: Option<Seq<char>>,
    timeout_ms: Option<u64>,
) -> RequestModel {
    RequestModel {
        method,
        url,
        header: if body is Some {
            Some(json_header())
        } else {
            None
        },
        body: match body {
            Some(s) => BodyModel::Text(s),
            None => BodyModel::Empty,
        },
        timeout_ms,
        user_agent: None,
    }
}

/// A request to Ollama that is answered in one piece, where its method can be
/// one. What it carries is JSON.
pub fn ollama_fetch(
    url: String,
    method: String,
    body: Option<String>,
    timeout_ms: Option<u64>,
) -> (request: Result<HttpRequest, Failure>)
    ensures
        match request {
            Ok(r) => is_method(method@) && r@ == fetch_request(
                url@,
                method@,
                optional_text(body),
                timeout_ms,
            ) && r.url@ == url@ && r.method@ == method@ && r.timeout_ms == timeout_ms && (
            match body {
                Some(s) => r.body == Body::Text(s) && r.header is Some,
                None => r.body is Empty && r.header is None,
            }),
            Err(e) => !is_method(method@) && (e matches Failure::Transport(s) && s@
                == "invalid HTTP method"@),
        },
{
    let method = match method_name(&method) {
        Ok(name) => name,
        Err(e) => return Err(Failure::Transport(e)),
    };
    let (header, body) = match body {
        Some(s) => (Some(json_content()), Body::Text(s)),
        None => (None, Body::Empty),
    };
    Ok(HttpRequest { method, url, header, body, timeout_ms, user_agent: None })
}

/// The form in which an answer of Ollama is handed to the front end: a status
/// other than success is no failure here.
pub open spec fn reply_payload(status: u16, body: Seq<char>) -> JsonTree {
    JsonTree::Object(
        seq![
            MemberTree::new("ok"@, JsonTree::Bool(is_success(status))),
            MemberTree::new("status"@, JsonTree::number(status as nat)),
            MemberTree::new("body"@, JsonTree::Text(body)),
        ],
    )
}

/// An answer of Ollama, in the form in which it is handed on.
pub fn fetch_reply(status: u16, body: String) -> (json: Json)
    ensures
        json@ == reply_payload(status, body@),
{
    Json::object_of_three(
        Member::new("ok", Json::Bool(success(status))),
        Member::new("status", Json::number(status as u64)),
        Member::new("body", Json::Text(body)),
    )
}

/// The request that opens a stream.
pub fn ollama_stream(url: String, body: String) -> (request: HttpRequest)
    ensures
        request@ == fetch_request(url@, "POST"@, Some(body@), None),
        request.url == url,
        request.body == Body::Text(body),
        request.timeout_ms is None,
{
    HttpRequest {
        method: "POST".to_owned(),
        url,
        header: Some(json_content()),
        body: Body::Text(body),
        timeout_ms: None,
        user_agent: None,
    }
}

/// The request that asks how large the installer is, without fetching it.
pub fn installer_request() -> (request: HttpRequest)
    ensures
        request@ == (RequestModel {
            method: "HEAD"@,
            url: "https://github.com/ollama/ollama/releases/latest/download/OllamaSetup.exe"@,
            header: None,
            body: BodyModel::Empty,
            timeout_ms: Some(15000),
            user_agent: Some("DeskOllama"@),
        }),
        request.body is Empty,
        request.header is None,
        request.timeout_ms == Some(15000u64),
{
    HttpRequest {
        method: "HEAD".to_owned(),
        url:
            "https://github.com/ollama/ollama/releases/latest/download/OllamaSetup.exe".to_owned(),
        header: None,
        body: Body::Empty,
        timeout_ms: Some(15000),
        user_agent: Some("DeskOllama".to_owned()),
    }
}

/// The answer to the question how large the installer is.
#[derive(Clone, Copy, Debug, PartialEq, Eq, Structural)]
pub struct SizeAnswer {
    pub status: u16,
    /// The length that the answer announces, if it does.
    pub announced: Option<u64>,
}

/// The size of the installer, given the answer to the question for it, if one
/// came: 0 stands for unknown. What an answer with a status other than success
/// announces is the length of something else.
pub fn installer_size(answer: Option<SizeAnswer>) -> (bytes: u64)
    ensures
        bytes == match answer {
            Some(a) => if is_success(a.status) && a.announced is Some {
                a.announced->0
            } else {
                0
            },
            None => 0,
        },
        bytes > 0 ==> answer is Some && answer->0.announced == Some(bytes) && answer->0.status / 100
            == 2,
        answer is Some && answer->0.announced is Some && answer->0.status / 100 == 2 ==> Some(bytes)
            == answer->0.announced,
{
    match answer {
        Some(a) => if success(a.status) {
            match a.announced {
                Some(n) => n,
                None => 0,
            }
        } else {
            0
        },
        None => 0,
    }
}

/// What stands in front of the first slash of `s`.
pub open spec fn before_slash(s: Seq<char>) -> Seq<char>
    decreases s.len(),
{
    if s.len() == 0 || s[0] == '/' {
        Seq::empty()
    } else {
        seq![s[0]] + before_slash(s.skip(1))
    }
}

proof fn lemma_before_slash(host: Seq<char>, s: Seq<char>)
    requires
        host.push('/').is_prefix_of(s),
        forall|i: int| 0 <= i < host.len() ==> #[trigger] host[i] != '/',
    ensures
        before_slash(s) == host,
    decreases host.len(),
{
    let whole = host.push('/');
    assert(whole[0] == s[0]);
    if host.len() > 0 {
        let tail = host.skip(1);
        assert(tail.push('/') == whole.skip(1));
        assert(tail.push('/').is_prefix_of(s.skip(1))) by {
            assert(s.skip(1).subrange(0, (tail.len() + 1) as int) == s.subrange(0, whole.len() as int).skip(
                1,
            ));
        }
        assert forall|i: int| 0 <= i < tail.len() implies #[trigger] tail[i] != '/' by {
            assert(host[i + 1] != '/');
        }
        lemma_before_slash(tail, s.skip(1));
        assert(seq![host[0]] + tail == host);
    } else {
        assert(before_slash(s) == host);
    }
}

proof fn lemma_prefix_parts(a: Seq<char>, b: Seq<char>, s: Seq<char>)
    requires
        (a + b).is_prefix_of(s),
    ensures
        a.is_prefix_of(s),
        b.is_prefix_of(s.skip(a.len() as int)),
{
    let whole = a + b;
    let start = s.subrange(0, whole.len() as int);
    assert(s.subrange(0, a.len() as int) == start.take(a.len() as int));
    assert(start.take(a.len() as int) == a);
    assert(s.skip(a.len() as int).subrange(0, b.len() as int) == start.skip(a.len() as int));
    assert(start.skip(a.len() as int) == b);
}

/// Every page that may be asked for is asked for over HTTPS, and at the address of
/// ollama.com or its registry and no other host. Where an answer redirects to is
/// not looked at.
pub proof fn law_pages_are_asked_for_at_two_hosts(url: Seq<char>)
    requires
        may_fetch(url),
    ensures
        "https://"@.is_prefix_of(url),
        before_slash(url.skip(8)) == "ollama.com"@ || before_slash(url.skip(8))
            == "registry.ollama.ai"@,
{
    reveal_strlit("https://");
    reveal_strlit("ollama.com");
    reveal_strlit("registry.ollama.ai");
    reveal_strlit("https://ollama.com/");
    reveal_strlit("https://registry.ollama.ai/");
    if "https://ollama.com/"@.is_prefix_of(url) {
        let host = "ollama.com"@;
        assert("https://ollama.com/"@ == "https://"@ + host.push('/'));
        lemma_prefix_parts("https://"@, host.push('/'), url);
        lemma_before_slash(host, url.skip(8));
    } else {
        let host = "registry.ollama.ai"@;
        assert("https://registry.ollama.ai/"@ == "https://"@ + host.push('/'));
        lemma_prefix_parts("https://"@, host.push('/'), url);
        lemma_before_slash(host, url.skip(8));
    }
}

/// A request to Ollama carries what it is given, each part whatever the others
/// are: the text where one is given and nothing where none is, under the method and
/// at the URL that were asked for and within the time that was allowed.
pub proof fn law_a_request_carries_what_it_is_given(
    url: Seq<char>,
    method: Seq<char>,
    text: Seq<char>,
    timeout_ms: Option<u64>,
)
    ensures
        ({
            let full = fetch_request(url, method, Some(text), timeout_ms);
            &&& full.body == BodyModel::Text(text)
            &&& full.header == Some(("Content-Type"@, "application/json"@))
            &&& full.timeout_ms == timeout_ms
            &&& full.url == url
            &&& full.method == method
            &&& full.user_agent is None
        }),
        ({
            let bare = fetch_request(url, method, None, timeout_ms);
            &&& bare.body is Empty
            &&& bare.header is None
            &&& bare.timeout_ms == timeout_ms
            &&& bare.url == url
            &&& bare.method == method
            &&& bare.user_agent is None
        }),
{
}

/// The parts of a request do not depend on each other: two requests that agree in
/// what they are given for one part agree in that part.
pub proof fn law_parts_of_a_request_are_independent(
    url: Seq<char>,
    other_url: Seq<char>,
    method: Seq<char>,
    other_method: Seq<char>,
    body: Option<Seq<char>>,
    other_body: Option<Seq<char>>,
    timeout_ms: Option<u64>,
    other_timeout_ms: Option<u64>,
)
    ensures
        fetch_request(url, method, body, timeout_ms).body == fetch_request(
            other_url,
            other_method,
            body,
            other_timeout_ms,
        ).body,
        fetch_request(url, method, body, timeout_ms).timeout_ms == fetch_request(
            other_url,
            other_method,
            other_body,
            timeout_ms,
        ).timeout_ms,
        fetch_request(url, method, body, timeout_ms).url == fetch_request(
            url,
            other_method,
            other_body,
            other_timeout_ms,
        ).url,
        body != other_body ==> fetch_request(url, method, body, timeout_ms).body != fetch_request(
            url,
            method,
            other_body,
            timeout_ms,
        ).body,
{
}

/// Every page of ollama.com and of its registry may be asked for, whatever its
/// path, and no page elsewhere.
pub proof fn law_every_page_of_two_hosts_may_be_asked_for(path: Seq<char>, url: Seq<char>)
    ensures
        may_fetch("https://ollama.com/"@ + path),
        may_fetch("https://registry.ollama.ai/"@ + path),
        !"https://ollama.com/"@.is_prefix_of(url) && !"https://registry.ollama.ai/"@.is_prefix_of(
            url,
        ) ==> !may_fetch(url),
{
    let one = "https://ollama.com/"@ + path;
    let other = "https://registry.ollama.ai/"@ + path;
    assert(one.subrange(0, "https://ollama.com/"@.len() as int) == "https://ollama.com/"@);
    assert(other.subrange(0, "https://registry.ollama.ai/"@.len() as int)
        == "https://registry.ollama.ai/"@);
}

/// A page is asked for at the URL given, without a body and within twenty seconds,
/// and says that it is for part of a page just where that is wanted.
pub proof fn law_a_page_is_asked_for_at_its_url(url: Seq<char>)
    ensures
        forall|hx: bool| #[trigger] page_request(url, hx).url == url,
        forall|hx: bool| (#[trigger] page_request(url, hx)).method == "GET"@,
        forall|hx: bool| (#[trigger] page_request(url, hx)).body is Empty,
        forall|hx: bool| (#[trigger] page_request(url, hx)).timeout_ms == Some(20000u64),
        forall|hx: bool| (#[trigger] page_request(url, hx)).user_agent == Some("DeskOllama"@),
        page_request(url, true).header == Some(("HX-Request"@, "true"@)),
        page_request(url, false).header is None,
{
}

/// The name of a method consists of visible ASCII characters other than the
/// delimiters of HTTP.
pub proof fn law_method_names_hold_no_delimiter(c: char)
    ensures
        is_token_char(c) <==> '\u{21}' <= c <= '\u{7e}' && !(seq![
            '(',
            ')',
            '<',
            '>',
            '@',
            ',',
            ';',
            ':',
            '\\',
            '"',
            '/',
            '[',
            ']',
            '?',
            '=',
            '{',
            '}',
        ]).contains(c),
{
    let delimiters = seq![
        '(',
        ')',
        '<',
        '>',
        '@',
        ',',
        ';',
        ':',
        '\\',
        '"',
        '/',
        '[',
        ']',
        '?',
        '=',
        '{',
        '}',
    ];
    assert(delimiters[0] == '(' && delimiters[1] == ')' && delimiters[2] == '<');
    assert(delimiters[3] == '>' && delimiters[4] == '@' && delimiters[5] == ',');
    assert(delimiters[6] == ';' && delimiters[7] == ':' && delimiters[8] == '\\');
    assert(delimiters[9] == '"' && delimiters[10] == '/' && delimiters[11] == '[');
    assert(delimiters[12] == ']' && delimiters[13] == '?' && delimiters[14] == '=');
    assert(delimiters[15] == '{' && delimiters[16] == '}');
}

/// Whether a text can name a method is decided by its characters one by one: all
/// of them have to be ones that may occur in such a name, and there has to be one.
pub proof fn law_method_names_are_judged_by_character(a: Seq<char>, c: char, b: Seq<char>)
    ensures
        !is_method(Seq::empty()),
        is_method(seq![c]) <==> is_token_char(c),
        is_method(a + seq![c] + b) <==> is_token_char(c) && (a.len() == 0 || is_method(a)) && (
        b.len() == 0 || is_method(b)),
{
    let whole = a + seq![c] + b;
    assert(seq![c][0] == c);
    assert(whole[a.len() as int] == c);
    if is_method(whole) {
        assert forall|i: int| 0 <= i < a.len() implies is_token_char(#[trigger] a[i]) by {
            assert(whole[i] == a[i]);
        }
        assert forall|i: int| 0 <= i < b.len() implies is_token_char(#[trigger] b[i]) by {
            assert(whole[a.len() + 1 + i] == b[i]);
        }
    }
    if is_token_char(c) && (a.len() == 0 || is_method(a)) && (b.len() == 0 || is_method(b)) {
        assert forall|i: int| 0 <= i < whole.len() implies is_token_char(#[trigger] whole[i]) by {
            if i < a.len() {
                assert(whole[i] == a[i]);
            } else if i > a.len() {
                assert(whole[i] == b[i - a.len() - 1]);
            }
        }
    }
}

/// An answer is handed on with its status and its whole body, and counts as good
/// just where the status begins with a 2.
pub proof fn law_an_answer_is_handed_on_whole(status: u16, body: Seq<char>)
    ensures
        reply_payload(status, body).field("ok"@) == Some(JsonTree::Bool(status / 100 == 2)),
        reply_payload(status, body).field("status"@) == Some(
            JsonTree::Number(decimal(status as nat)),
        ),
        reply_payload(status, body).field("body"@) == Some(JsonTree::Text(body)),
        reply_payload(status, body) is Object,
        reply_payload(status, body)->Object_0.len() == 3,
{
    reveal_strlit("ok");
    reveal_strlit("status");
    reveal_strlit("body");
    let members = reply_payload(status, body)->Object_0;
    law_field_is_the_first_of_its_name(members, "ok"@, 0);
    assert("ok"@.len() != "status"@.len());
    law_field_is_the_first_of_its_name(members, "status"@, 1);
    assert("body"@.len() != "ok"@.len() && "body"@.len() != "status"@.len());
    law_field_is_the_first_of_its_name(members, "body"@, 2);
}

/// A request stands for all its parts.
pub proof fn law_a_request_stands_for_its_parts(r: HttpRequest, s: String, doc: Json)
    ensures
        r@.method == r.method@,
        r@.url == r.url@,
        r@.body == r.body@,
        r@.timeout_ms == r.timeout_ms,
        r@.header is Some <==> r.header is Some,
        r.header is Some ==> r@.header == Some((r.header->0.name@, r.header->0.value@)),
        r@.user_agent is Some <==> r.user_agent is Some,
        r.user_agent is Some ==> r@.user_agent == Some(r.user_agent->0@),
        Body::Empty@ == BodyModel::Empty,
        Body::Text(s)@ == BodyModel::Text(s@),
        Body::Document(doc)@ == BodyModel::Document(doc@),
{
}

} // verus!
