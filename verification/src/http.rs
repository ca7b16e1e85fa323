//! HTTP handling for canister endpoints: error taxonomy with status codes,
//! request/response types, response builders, URL and header utilities, and
//! a small router.
//!
//! Method names and header names are treated ASCII case-insensitively, as
//! HTTP defines them.

use vstd::prelude::*;

verus! {

use vstd::string::StrSliceExecFns;
use vstd::string::StringExecFns;
use vstd::utf8::encode_utf8;
use crate::text::decimal_digits;
use crate::text::push_char;
use crate::text::u64_to_decimal;

/// Why a request could not be served, each variant carrying its HTTP status.
#[derive(Debug)]
pub enum HttpError {
    MethodNotAllowed,
    NotFound,
    InvalidRequest(String),
    Unauthorized(String),
    InternalError(String),
    SerializationError(String),
    BadRequest(String),
    Conflict(String),
    UnprocessableEntity(String),
    Forbidden(String),
    Status { status: u16, message: String },
}

/// An incoming request as the host hands it over.
#[derive(Debug, Clone)]
pub struct HttpRequest {
    pub method: String,
    pub url: String,
    pub headers: Vec<(String, String)>,
    pub body: Vec<u8>,
}

/// An outgoing response; `upgrade` asks the host to replay the call as an
/// update call.
#[derive(Debug, Clone)]
pub struct HttpResponse {
    pub status_code: u16,
    pub headers: Vec<(String, String)>,
    pub body: Vec<u8>,
    pub upgrade: Option<bool>,
}

pub type HttpResult<T> = Result<T, HttpError>;

impl HttpError {
    /// The status code of each error variant.
    pub open spec fn spec_status_code(self) -> u16 {
        match self {
            HttpError::MethodNotAllowed => 405,
            HttpError::NotFound => 404,
            HttpError::InvalidRequest(_) => 400,
            HttpError::Unauthorized(_) => 401,
            HttpError::InternalError(_) => 500,
            HttpError::SerializationError(_) => 500,
            HttpError::BadRequest(_) => 400,
            HttpError::Conflict(_) => 409,
            HttpError::UnprocessableEntity(_) => 422,
            HttpError::Forbidden(_) => 403,
            HttpError::Status { status, .. } => status,
        }
    }

    /// The error's one-line description.
    pub open spec fn spec_message(self) -> Seq<char> {
        match self {
            HttpError::MethodNotAllowed => "Method not allowed"@,
            HttpError::NotFound => "Endpoint not found"@,
            HttpError::InvalidRequest(m) => "Invalid request format: "@ + m@,
            HttpError::Unauthorized(m) => "Unauthorized: "@ + m@,
            HttpError::InternalError(m) => "Internal server error: "@ + m@,
            HttpError::SerializationError(m) => "Serialization error: "@ + m@,
            HttpError::BadRequest(m) => "Bad request: "@ + m@,
            HttpError::Conflict(m) => "Conflict: "@ + m@,
            HttpError::UnprocessableEntity(m) => "Unprocessable entity: "@ + m@,
            HttpError::Forbidden(m) => "Forbidden: "@ + m@,
            HttpError::Status { status, message } => "HTTP "@ + decimal_digits(status as nat)
                + ": "@ + message@,
        }
    }

    /// The HTTP status code for this error.
    pub fn status_code(&self) -> (code: u16)
        ensures
            code == self.spec_status_code(),
    {
        match self {
            HttpError::MethodNotAllowed => 405,
            HttpError::NotFound => 404,
            HttpError::InvalidRequest(_) => 400,
            HttpError::Unauthorized(_) => 401,
            HttpError::InternalError(_) => 500,
            HttpError::SerializationError(_) => 500,
            HttpError::BadRequest(_) => 400,
            HttpError::Conflict(_) => 409,
            HttpError::UnprocessableEntity(_) => 422,
            HttpError::Forbidden(_) => 403,
            HttpError::Status { status, .. } => *status,
        }
    }

    /// The error's one-line description, as shown to callers.
    pub fn message(&self) -> (msg: String)
        ensures
            msg@ == self.spec_message(),
    {
        let mut out = String::new();
        match self {
            HttpError::MethodNotAllowed => {
                out.append("Method not allowed");
            },
            HttpError::NotFound => {
                out.append("Endpoint not found");
            },
            HttpError::InvalidRequest(m) => {
                out.append("Invalid request format: ");
                out.append(m.as_str());
            },
            HttpError::Unauthorized(m) => {
                out.append("Unauthorized: ");
                out.append(m.as_str());
            },
            HttpError::InternalError(m) => {
                out.append("Internal server error: ");
                out.append(m.as_str());
            },
            HttpError::SerializationError(m) => {
                out.append("Serialization error: ");
                out.append(m.as_str());
            },
            HttpError::BadRequest(m) => {
                out.append("Bad request: ");
                out.append(m.as_str());
            },
            HttpError::Conflict(m) => {
                out.append("Conflict: ");
                out.append(m.as_str());
            },
            HttpError::UnprocessableEntity(m) => {
                out.append("Unprocessable entity: ");
                out.append(m.as_str());
            },
            HttpError::Forbidden(m) => {
                out.append("Forbidden: ");
                out.append(m.as_str());
            },
            HttpError::Status { status, message } => {
                out.append("HTTP ");
                let digits = u64_to_decimal(*status as u64);
                out.append(digits.as_str());
                out.append(": ");
                out.append(message.as_str());
            },
        }
        out
    }

    /// The error rendered as a JSON error response with its status code.
    pub fn to_response(&self) -> (r: HttpResponse)
        ensures
            r.status_code == self.spec_status_code(),
            r.body@ == encode_utf8(
                "{\"error\":\""@ + escape_json_spec(self.spec_message()) + "\"}"@,
            ),
            r.upgrade is None,
    {
        let msg = self.message();
        error_response(self.status_code(), msg.as_str())
    }

    pub fn bad_request(msg: &str) -> (r: Self)
        ensures
            r matches HttpError::BadRequest(m) && m@ == msg@,
    {
        HttpError::BadRequest(msg.to_owned())
    }

    /// A not-found error carrying its own message (a `Status` with code 404,
    /// unlike the bare `NotFound` variant).
    pub fn not_found(msg: &str) -> (r: Self)
        ensures
            r matches HttpError::Status { status, message } && status == 404 && message@ == msg@,
    {
        HttpError::Status { status: 404, message: msg.to_owned() }
    }

    pub fn unauthorized(msg: &str) -> (r: Self)
        ensures
            r matches HttpError::Unauthorized(m) && m@ == msg@,
    {
        HttpError::Unauthorized(msg.to_owned())
    }

    pub fn conflict(msg: &str) -> (r: Self)
        ensures
            r matches HttpError::Conflict(m) && m@ == msg@,
    {
        HttpError::Conflict(msg.to_owned())
    }

    pub fn unprocessable_entity(msg: &str) -> (r: Self)
        ensures
            r matches HttpError::UnprocessableEntity(m) && m@ == msg@,
    {
        HttpError::UnprocessableEntity(msg.to_owned())
    }

    pub fn forbidden(msg: &str) -> (r: Self)
        ensures
            r matches HttpError::Forbidden(m) && m@ == msg@,
    {
        HttpError::Forbidden(msg.to_owned())
    }

    pub fn internal_error(msg: &str) -> (r: Self)
        ensures
            r matches HttpError::InternalError(m) && m@ == msg@,
    {
        HttpError::InternalError(msg.to_owned())
    }

    pub fn custom_status(status: u16, msg: &str) -> (r: Self)
        ensures
            r matches HttpError::Status { status: s, message } && s == status && message@ == msg@,
    {
        HttpError::Status { status, message: msg.to_owned() }
    }
}

/// One JSON-escaped character.
pub open spec fn escaped_char(c: char) -> Seq<char> {
    if c == '\\' {
        seq!['\\', '\\']
    } else if c == '"' {
        seq!['\\', '"']
    } else if c == '\n' {
        seq!['\\', 'n']
    } else if c == '\r' {
        seq!['\\', 'r']
    } else if c == '\t' {
        seq!['\\', 't']
    } else {
        seq![c]
    }
}

/// A string with backslash, quote, newline, carriage return, and tab escaped
/// for embedding in a JSON string literal.
pub open spec fn escape_json_spec(s: Seq<char>) -> Seq<char>
    decreases s.len(),
{
    if s.len() == 0 {
        Seq::empty()
    } else {
        escape_json_spec(s.drop_last()) + escaped_char(s.last())
    }
}

/// Escape a string for embedding in a JSON string literal.
fn escape_json(s: &str) -> (out: String)
    ensures
        out@ == escape_json_spec(s@),
{
    let n = s.unicode_len();
    let mut out = String::new();
    let mut i: usize = 0;
    while i < n
        invariant
            i <= n,
            n == s@.len(),
            out@ == escape_json_spec(s@.take(i as int)),
        decreases n - i,
    {
        let c = s.get_char(i);
        if c == '\\' {
            push_char(&mut out, '\\');
            push_char(&mut out, '\\');
        } else if c == '"' {
            push_char(&mut out, '\\');
            push_char(&mut out, '"');
        } else if c == '\n' {
            push_char(&mut out, '\\');
            push_char(&mut out, 'n');
        } else if c == '\r' {
            push_char(&mut out, '\\');
            push_char(&mut out, 'r');
        } else if c == '\t' {
            push_char(&mut out, '\\');
            push_char(&mut out, 't');
        } else {
            push_char(&mut out, c);
        }
        proof {
            assert(s@.take(i + 1).drop_last() =~= s@.take(i as int));
            assert(s@.take(i + 1).last() == s@[i as int]);
            assert(out@ =~= escape_json_spec(s@.take(i as int)) + escaped_char(s@[i as int]));
        }
        i += 1;
    }
    proof {
        assert(s@.take(n as int) =~= s@);
    }
    out
}

/// A response with the given status and JSON body, tagged with the JSON
/// content type and an open CORS origin.
pub fn json_response(status_code: u16, body: String) -> (r: HttpResponse)
    ensures
        r.status_code == status_code,
        r.body@ == encode_utf8(body@),
        r.upgrade is None,
        r.headers@.len() == 2,
        r.headers@[0].0@ == "Content-Type"@ && r.headers@[0].1@ == "application/json"@,
        r.headers@[1].0@ == "Access-Control-Allow-Origin"@ && r.headers@[1].1@ == "*"@,
{
    let mut headers: Vec<(String, String)> = Vec::new();
    headers.push((String::from_str("Content-Type"), String::from_str("application/json")));
    headers.push((String::from_str("Access-Control-Allow-Origin"), String::from_str("*")));
    let body_bytes = body.as_str().as_bytes_vec();
    HttpResponse { status_code, headers, body: body_bytes, upgrade: None }
}

/// A JSON body of the shape `{"error":"..."}` with the message escaped.
pub fn error_response(status_code: u16, error: &str) -> (r: HttpResponse)
    ensures
        r.status_code == status_code,
        r.body@ == encode_utf8("{\"error\":\""@ + escape_json_spec(error@) + "\"}"@),
        r.upgrade is None,
{
    let mut body = String::new();
    body.append("{\"error\":\"");
    let escaped = escape_json(error);
    body.append(escaped.as_str());
    body.append("\"}");
    json_response(status_code, body)
}

/// The empty 204 response that asks the host to upgrade the call.
pub fn upgrade_response() -> (r: HttpResponse)
    ensures
        r.status_code == 204,
        r.headers@.len() == 0,
        r.body@.len() == 0,
        r.upgrade == Some(true),
{
    HttpResponse { status_code: 204, headers: Vec::new(), body: Vec::new(), upgrade: Some(true) }
}

/// The stock CORS preflight answer: 204 with the three allow headers.
pub fn cors_preflight_response() -> (r: HttpResponse)
    ensures
        r.status_code == 204,
        r.body@.len() == 0,
        r.upgrade is None,
        r.headers@.len() == 3,
        r.headers@[0].0@ == "Access-Control-Allow-Origin"@ && r.headers@[0].1@ == "*"@,
        r.headers@[1].0@ == "Access-Control-Allow-Methods"@ && r.headers@[1].1@
            == "GET, POST, PUT, DELETE, PATCH, OPTIONS"@,
        r.headers@[2].0@ == "Access-Control-Allow-Headers"@ && r.headers@[2].1@
            == "Content-Type, Authorization"@,
{
    let mut headers: Vec<(String, String)> = Vec::new();
    headers.push((String::from_str("Access-Control-Allow-Origin"), String::from_str("*")));
    headers.push(
        (
            String::from_str("Access-Control-Allow-Methods"),
            String::from_str("GET, POST, PUT, DELETE, PATCH, OPTIONS"),
        ),
    );
    headers.push(
        (
            String::from_str("Access-Control-Allow-Headers"),
            String::from_str("Content-Type, Authorization"),
        ),
    );
    HttpResponse { status_code: 204, headers, body: Vec::new(), upgrade: None }
}

/// An ASCII lowercase letter mapped to its uppercase form; anything else
/// unchanged.
pub open spec fn upper_char(c: char) -> char {
    if 97 <= c as u32 && c as u32 <= 122 {
        (((c as u32) - 32) as u8) as char
    } else {
        c
    }
}

/// Equal up to ASCII letter case.
pub open spec fn ci_equal(a: Seq<char>, b: Seq<char>) -> bool {
    a.len() == b.len() && (forall|i: int| 0 <= i < a.len() ==> upper_char(a[i]) == upper_char(b[i]))
}

/// An ASCII lowercase letter mapped to its uppercase form.
fn upper(c: char) -> (r: char)
    ensures
        r == upper_char(c),
{
    let u = c as u32;
    if 97 <= u && u <= 122 {
        ((u - 32) as u8) as char
    } else {
        c
    }
}

/// Whether two strings are equal.
pub(crate) fn str_eq(a: &str, b: &str) -> (r: bool)
    ensures
        r == (a@ == b@),
{
    let n = a.unicode_len();
    if n != b.unicode_len() {
        return false;
    }
    let mut i: usize = 0;
    while i < n
        invariant
            i <= n,
            n == a@.len(),
            n == b@.len(),
            forall|j: int| 0 <= j < i ==> a@[j] == b@[j],
        decreases n - i,
    {
        if a.get_char(i) != b.get_char(i) {
            return false;
        }
        i += 1;
    }
    proof {
        assert(a@ =~= b@);
    }
    true
}

/// Whether two strings are equal up to ASCII letter case.
fn str_eq_ignore_ascii_case(a: &str, b: &str) -> (r: bool)
    ensures
        r == ci_equal(a@, b@),
{
    let n = a.unicode_len();
    if n != b.unicode_len() {
        return false;
    }
    let mut i: usize = 0;
    while i < n
        invariant
            i <= n,
            n == a@.len(),
            n == b@.len(),
            forall|j: int| 0 <= j < i ==> upper_char(a@[j]) == upper_char(b@[j]),
        decreases n - i,
    {
        let ca = upper(a.get_char(i));
        let cb = upper(b.get_char(i));
        if ca as u32 != cb as u32 {
            return false;
        }
        proof {
            vstd::utf8::char_u32_cast(ca, ca as u32);
            vstd::utf8::char_u32_cast(cb, cb as u32);
        }
        i += 1;
    }
    true
}

/// The HTTP request methods the router understands.
#[derive(Debug, Clone, Copy, PartialEq, Eq, Structural, Hash)]
pub enum HttpMethod {
    GET,
    POST,
    PUT,
    DELETE,
    PATCH,
    OPTIONS,
    HEAD,
}

/// The method a name denotes, up to ASCII letter case.
pub open spec fn method_from_spec(s: Seq<char>) -> Option<HttpMethod> {
    if ci_equal(s, "GET"@) {
        Some(HttpMethod::GET)
    } else if ci_equal(s, "POST"@) {
        Some(HttpMethod::POST)
    } else if ci_equal(s, "PUT"@) {
        Some(HttpMethod::PUT)
    } else if ci_equal(s, "DELETE"@) {
        Some(HttpMethod::DELETE)
    } else if ci_equal(s, "PATCH"@) {
        Some(HttpMethod::PATCH)
    } else if ci_equal(s, "OPTIONS"@) {
        Some(HttpMethod::OPTIONS)
    } else if ci_equal(s, "HEAD"@) {
        Some(HttpMethod::HEAD)
    } else {
        None
    }
}

impl HttpMethod {
    /// Parse a method name, ASCII case-insensitively.
    pub fn from_str(method: &str) -> (r: Option<HttpMethod>)
        ensures
            r == method_from_spec(method@),
    {
        if str_eq_ignore_ascii_case(method, "GET") {
            Some(HttpMethod::GET)
        } else if str_eq_ignore_ascii_case(method, "POST") {
            Some(HttpMethod::POST)
        } else if str_eq_ignore_ascii_case(method, "PUT") {
            Some(HttpMethod::PUT)
        } else if str_eq_ignore_ascii_case(method, "DELETE") {
            Some(HttpMethod::DELETE)
        } else if str_eq_ignore_ascii_case(method, "PATCH") {
            Some(HttpMethod::PATCH)
        } else if str_eq_ignore_ascii_case(method, "OPTIONS") {
            Some(HttpMethod::OPTIONS)
        } else if str_eq_ignore_ascii_case(method, "HEAD") {
            Some(HttpMethod::HEAD)
        } else {
            None
        }
    }

    /// The method's canonical upper-case name.
    pub open spec fn spec_name(self) -> Seq<char> {
        match self {
            HttpMethod::GET => "GET"@,
            HttpMethod::POST => "POST"@,
            HttpMethod::PUT => "PUT"@,
            HttpMethod::DELETE => "DELETE"@,
            HttpMethod::PATCH => "PATCH"@,
            HttpMethod::OPTIONS => "OPTIONS"@,
            HttpMethod::HEAD => "HEAD"@,
        }
    }

    /// The method's canonical upper-case name.
    pub fn as_str(&self) -> (r: &'static str)
        ensures
            r@ == self.spec_name(),
    {
        match self {
            HttpMethod::GET => "GET",
            HttpMethod::POST => "POST",
            HttpMethod::PUT => "PUT",
            HttpMethod::DELETE => "DELETE",
            HttpMethod::PATCH => "PATCH",
            HttpMethod::OPTIONS => "OPTIONS",
            HttpMethod::HEAD => "HEAD",
        }
    }
}

/// The characters before the first `sep`; the whole string when there is
/// none.
pub open spec fn before_char(s: Seq<char>, sep: char) -> Seq<char>
    decreases s.len(),
{
    if s.len() == 0 {
        s
    } else if s[0] == sep {
        Seq::empty()
    } else {
        seq![s[0]] + before_char(s.drop_first(), sep)
    }
}

/// The characters after the first `sep`; empty when there is none.
pub open spec fn after_char(s: Seq<char>, sep: char) -> Seq<char>
    decreases s.len(),
{
    if s.len() == 0 {
        s
    } else if s[0] == sep {
        s.drop_first()
    } else {
        after_char(s.drop_first(), sep)
    }
}

/// `before_char` and `after_char` read off the first occurrence of `sep`.
proof fn lemma_before_after_at(s: Seq<char>, sep: char, k: int)
    requires
        0 <= k <= s.len(),
        forall|j: int| 0 <= j < k ==> s[j] != sep,
        k < s.len() ==> s[k] == sep,
    ensures
        before_char(s, sep) == s.take(k),
        k < s.len() ==> after_char(s, sep) == s.skip(k + 1),
    decreases s.len(),
{
    if s.len() == 0 {
        assert(before_char(s, sep) =~= s.take(k));
    } else if k == 0 {
        if k < s.len() {
            assert(before_char(s, sep) =~= s.take(0));
            assert(after_char(s, sep) =~= s.skip(1));
        }
    } else {
        let t = s.drop_first();
        assert(forall|j: int| 0 <= j < k - 1 ==> t[j] != sep);
        lemma_before_after_at(t, sep, k - 1);
        assert(before_char(s, sep) == seq![s[0]] + t.take(k - 1));
        assert(seq![s[0]] + t.take(k - 1) =~= s.take(k));
        if k < s.len() {
            assert(t.skip(k) =~= s.skip(k + 1));
        }
    }
}

/// The position of the first `sep` in `s`, or the length when absent.
fn find_char(s: &str, sep: char) -> (k: usize)
    ensures
        k <= s@.len(),
        forall|j: int| 0 <= j < k ==> s@[j] != sep,
        k < s@.len() ==> s@[k as int] == sep,
{
    let n = s.unicode_len();
    let mut k: usize = 0;
    while k < n
        invariant
            k <= n,
            n == s@.len(),
            forall|j: int| 0 <= j < k ==> s@[j] != sep,
        decreases n - k,
    {
        if s.get_char(k) == sep {
            return k;
        }
        k += 1;
    }
    k
}

/// The URL's path: everything before the first question mark.
pub fn extract_path<'a>(url: &'a str) -> (path: &'a str)
    ensures
        path@ == before_char(url@, '?'),
{
    let k = find_char(url, '?');
    let path = url.substring_char(0, k);
    proof {
        lemma_before_after_at(url@, '?', k as int);
        assert(path@ == url@.take(k as int));
    }
    path
}

/// The parts of `s` between occurrences of `sep`: splitting on `sep` always
/// yields one more part than there are separators, parts may be empty.
pub open spec fn split_on(s: Seq<char>, sep: char) -> Seq<Seq<char>>
    decreases s.len(),
{
    if s.len() == 0 {
        seq![Seq::<char>::empty()]
    } else if s[0] == sep {
        seq![Seq::<char>::empty()] + split_on(s.drop_first(), sep)
    } else {
        let rest = split_on(s.drop_first(), sep);
        seq![seq![s[0]] + rest[0]] + rest.drop_first()
    }
}

/// Splitting yields at least one part.
proof fn lemma_split_on_len(s: Seq<char>, sep: char)
    ensures
        split_on(s, sep).len() >= 1,
    decreases s.len(),
{
    if s.len() > 0 {
        lemma_split_on_len(s.drop_first(), sep);
    }
}

/// A separator-free stretch `[i, k)` of `s` is the head part of splitting
/// the suffix at `i`; the remaining parts split the suffix past `k`.
proof fn lemma_split_on_segment(s: Seq<char>, sep: char, i: int, k: int)
    requires
        0 <= i <= k <= s.len(),
        forall|j: int| i <= j < k ==> s[j] != sep,
        k < s.len() ==> s[k] == sep,
    ensures
        k == s.len() ==> split_on(s.skip(i), sep) == seq![s.subrange(i, k)],
        k < s.len() ==> split_on(s.skip(i), sep) == seq![s.subrange(i, k)] + split_on(
            s.skip(k + 1),
            sep,
        ),
    decreases k - i,
{
    lemma_split_on_len(s.skip(i), sep);
    if i == k {
        assert(s.subrange(i, k) =~= Seq::<char>::empty());
        if k == s.len() {
            assert(s.skip(i) =~= Seq::<char>::empty());
            assert(split_on(s.skip(i), sep) =~= seq![s.subrange(i, k)]);
        } else {
            assert(s.skip(i).len() > 0);
            assert(s.skip(i)[0] == s[k]);
            assert(s.skip(i).drop_first() =~= s.skip(k + 1));
            assert(split_on(s.skip(i), sep) =~= seq![s.subrange(i, k)] + split_on(
                s.skip(k + 1),
                sep,
            ));
        }
    } else {
        lemma_split_on_segment(s, sep, i + 1, k);
        let u = s.skip(i);
        assert(u[0] == s[i]);
        assert(u[0] != sep);
        assert(u.drop_first() =~= s.skip(i + 1));
        let rest = split_on(s.skip(i + 1), sep);
        assert(split_on(u, sep) == seq![seq![u[0]] + rest[0]] + rest.drop_first());
        if k == s.len() {
            assert(rest == seq![s.subrange(i + 1, k)]);
            assert(rest[0] == s.subrange(i + 1, k));
            assert(seq![u[0]] + rest[0] =~= s.subrange(i, k));
            assert(rest.drop_first() =~= Seq::<Seq<char>>::empty());
            assert(split_on(u, sep) =~= seq![s.subrange(i, k)]);
        } else {
            let tail = split_on(s.skip(k + 1), sep);
            assert(rest == seq![s.subrange(i + 1, k)] + tail);
            lemma_split_on_len(s.skip(k + 1), sep);
            assert(rest[0] == s.subrange(i + 1, k));
            assert(seq![u[0]] + rest[0] =~= s.subrange(i, k));
            assert(rest.drop_first() =~= tail);
            assert(split_on(u, sep) =~= seq![s.subrange(i, k)] + tail);
        }
    }
}

/// The views of a vector of owned strings.
pub open spec fn string_views(parts: Seq<String>) -> Seq<Seq<char>> {
    parts.map_values(|p: String| p@)
}

/// Split `s` at every occurrence of `sep`.
fn split_str(s: &str, sep: char) -> (parts: Vec<String>)
    ensures
        string_views(parts@) == split_on(s@, sep),
        parts@.len() >= 1,
{
    let n = s.unicode_len();
    let mut parts: Vec<String> = Vec::new();
    proof {
        assert(s@.skip(0) =~= s@);
        assert(string_views(parts@) + split_on(s@, sep) =~= split_on(s@, sep));
    }
    let mut start: usize = 0;
    let mut k: usize = 0;
    while k < n
        invariant
            start <= k <= n,
            n == s@.len(),
            forall|j: int| start <= j < k ==> s@[j] != sep,
            split_on(s@, sep) == string_views(parts@) + split_on(s@.skip(start as int), sep),
        decreases n - k,
    {
        if s.get_char(k) == sep {
            let part = s.substring_char(start, k).to_owned();
            proof {
                lemma_split_on_segment(s@, sep, start as int, k as int);
                assert(string_views(parts@.push(part)) =~= string_views(parts@).push(part@));
                assert(string_views(parts@).push(s@.subrange(start as int, k as int)) + split_on(
                    s@.skip(k + 1),
                    sep,
                ) =~= string_views(parts@) + split_on(s@.skip(start as int), sep));
            }
            parts.push(part);
            start = k + 1;
        }
        k += 1;
    }
    let last_part = s.substring_char(start, n).to_owned();
    proof {
        lemma_split_on_segment(s@, sep, start as int, n as int);
        assert(string_views(parts@.push(last_part)) =~= string_views(parts@).push(last_part@));
        assert(string_views(parts@).push(s@.subrange(start as int, n as int)) =~= string_views(
            parts@,
        ) + split_on(s@.skip(start as int), sep));
    }
    parts.push(last_part);
    parts
}

/// The views of a vector of owned string pairs.
pub open spec fn pair_views(ps: Seq<(String, String)>) -> Seq<(Seq<char>, Seq<char>)> {
    ps.map_values(|p: (String, String)| (p.0@, p.1@))
}

/// The key/value pair a `k=v` piece denotes; a piece without `=` denotes
/// nothing. The value runs from the first `=` to the end.
pub open spec fn pair_of(piece: Seq<char>) -> Seq<(Seq<char>, Seq<char>)> {
    if piece.contains('=') {
        seq![(before_char(piece, '='), after_char(piece, '='))]
    } else {
        Seq::empty()
    }
}

/// The key/value pairs of the pieces, in order of appearance.
pub open spec fn pairs_of(pieces: Seq<Seq<char>>) -> Seq<(Seq<char>, Seq<char>)>
    decreases pieces.len(),
{
    if pieces.len() == 0 {
        Seq::empty()
    } else {
        pairs_of(pieces.drop_last()) + pair_of(pieces.last())
    }
}

/// The query parameters of a URL: the `k=v` pieces between `&`s of the
/// stretch between the first and second `?`, in order of appearance.
pub open spec fn query_params_spec(url: Seq<char>) -> Seq<(Seq<char>, Seq<char>)> {
    let ps = split_on(url, '?');
    if ps.len() <= 1 {
        Seq::empty()
    } else {
        pairs_of(split_on(ps[1], '&'))
    }
}

/// Parse the URL's query string into key/value pairs, in order of
/// appearance; pieces without `=` are dropped.
pub fn extract_query_params(url: &str) -> (params: Vec<(String, String)>)
    ensures
        pair_views(params@) == query_params_spec(url@),
{
    let mut params: Vec<(String, String)> = Vec::new();
    let parts = split_str(url, '?');
    if parts.len() <= 1 {
        proof {
            assert(pair_views(params@) =~= query_params_spec(url@));
        }
        return params;
    }
    let query = &parts[1];
    proof {
        assert(query@ == split_on(url@, '?')[1]);
    }
    let pieces = split_str(query.as_str(), '&');
    let ghost piece_views = split_on(query@, '&');
    let m = pieces.len();
    let mut i: usize = 0;
    while i < m
        invariant
            i <= m,
            m == pieces@.len(),
            string_views(pieces@) == piece_views,
            pair_views(params@) == pairs_of(piece_views.take(i as int)),
        decreases m - i,
    {
        let piece = &pieces[i];
        proof {
            assert(piece@ == piece_views[i as int]);
            assert(piece_views.take(i + 1).drop_last() =~= piece_views.take(i as int));
            assert(piece_views.take(i + 1).last() == piece_views[i as int]);
        }
        let k = find_char(piece.as_str(), '=');
        let len = piece.as_str().unicode_len();
        if k < len {
            let key = piece.as_str().substring_char(0, k).to_owned();
            let value = piece.as_str().substring_char(k + 1, len).to_owned();
            proof {
                lemma_before_after_at(piece@, '=', k as int);
                assert(piece@.contains('='));
                assert(key@ == before_char(piece@, '='));
                assert(value@ == after_char(piece@, '='));
                assert(pair_views(params@.push((key, value))) =~= pair_views(params@).push(
                    (key@, value@),
                ));
                assert(pair_views(params@).push((key@, value@)) =~= pairs_of(
                    piece_views.take(i + 1),
                ));
            }
            params.push((key, value));
        } else {
            proof {
                assert(forall|j: int| 0 <= j < piece@.len() ==> piece@[j] != '=');
                assert(!piece@.contains('='));
                assert(pair_views(params@) =~= pairs_of(piece_views.take(i + 1)));
            }
        }
        i += 1;
    }
    proof {
        assert(piece_views.take(m as int) =~= piece_views);
    }
    params
}

/// Whether the path segments `a` satisfy the pattern segments `b`: a `*`
/// segment absorbs one or more path segments, a `:name` segment captures
/// exactly one, and any other segment must be equal to its counterpart.
pub open spec fn glob_match(a: Seq<Seq<char>>, b: Seq<Seq<char>>) -> bool
    decreases a.len() + b.len(),
{
    if b.len() == 0 {
        a.len() == 0
    } else if b[0] == "*"@ {
        a.len() >= 1 && (glob_match(a.drop_first(), b.drop_first()) || glob_match(
            a.drop_first(),
            b,
        ))
    } else if b[0].len() > 0 && b[0][0] == ':' {
        a.len() >= 1 && glob_match(a.drop_first(), b.drop_first())
    } else {
        a.len() >= 1 && a[0] == b[0] && glob_match(a.drop_first(), b.drop_first())
    }
}

/// Whether `path` matches `pattern` segment by segment.
pub open spec fn pattern_matches(path: Seq<char>, pattern: Seq<char>) -> bool {
    glob_match(split_on(path, '/'), split_on(pattern, '/'))
}

/// Whether a pattern segment is a `:name` capture.
fn is_capture(q: &str) -> (r: bool)
    ensures
        r == (q@.len() > 0 && q@[0] == ':'),
{
    q.unicode_len() > 0 && q.get_char(0) == ':'
}

/// Glob matching of the segment suffixes starting at `i` and `j`.
fn glob_from(a: &Vec<String>, b: &Vec<String>, i: usize, j: usize) -> (r: bool)
    requires
        i <= a@.len(),
        j <= b@.len(),
    ensures
        r == glob_match(
            string_views(a@).skip(i as int),
            string_views(b@).skip(j as int),
        ),
    decreases (a@.len() - i) + (b@.len() - j),
{
    let ghost av = string_views(a@).skip(i as int);
    let ghost bv = string_views(b@).skip(j as int);
    if j == b.len() {
        return i == a.len();
    }
    proof {
        assert(bv[0] == b@[j as int]@);
        assert(bv.drop_first() =~= string_views(b@).skip(j + 1));
        if i < a@.len() {
            assert(av[0] == a@[i as int]@);
            assert(av.drop_first() =~= string_views(a@).skip(i + 1));
        }
    }
    let q = &b[j];
    if str_eq(q.as_str(), "*") {
        if i == a.len() {
            return false;
        }
        if glob_from(a, b, i + 1, j + 1) {
            return true;
        }
        glob_from(a, b, i + 1, j)
    } else if is_capture(q.as_str()) {
        if i == a.len() {
            return false;
        }
        glob_from(a, b, i + 1, j + 1)
    } else {
        if i == a.len() {
            return false;
        }
        if !str_eq(a[i].as_str(), q.as_str()) {
            return false;
        }
        glob_from(a, b, i + 1, j + 1)
    }
}

/// Whether `path` matches `pattern`, segment by segment: `*` segments
/// absorb one or more path segments, `:name` segments capture one, and
/// other segments must appear verbatim.
pub fn matches_pattern(path: &str, pattern: &str) -> (r: bool)
    ensures
        r == pattern_matches(path@, pattern@),
{
    let a = split_str(path, '/');
    let b = split_str(pattern, '/');
    let r = glob_from(&a, &b, 0, 0);
    proof {
        assert(string_views(a@).skip(0) =~= split_on(path@, '/'));
        assert(string_views(b@).skip(0) =~= split_on(pattern@, '/'));
    }
    r
}

/// Whether one path segment is acceptable for parameter extraction: a
/// `:name` capture or an exact match (a bare `*` is not special here).
pub open spec fn param_segment_ok(p: Seq<char>, q: Seq<char>) -> bool {
    (q.len() > 0 && q[0] == ':') || p == q
}

/// The `(name, value)` captures of matching segment lists.
pub open spec fn params_of(a: Seq<Seq<char>>, b: Seq<Seq<char>>) -> Seq<(Seq<char>, Seq<char>)>
    decreases b.len(),
{
    if b.len() == 0 || a.len() != b.len() {
        Seq::empty()
    } else {
        params_of(a.drop_last(), b.drop_last()) + if b.last().len() > 0 && b.last()[0] == ':' {
            seq![(b.last().drop_first(), a.last())]
        } else {
            Seq::empty()
        }
    }
}

/// The path parameters captured when `path` matches `pattern`'s literal and
/// `:name` segments; empty when it does not.
pub open spec fn extract_params_spec(path: Seq<char>, pattern: Seq<char>) -> Seq<
    (Seq<char>, Seq<char>),
> {
    let a = split_on(path, '/');
    let b = split_on(pattern, '/');
    if a.len() == b.len() && (forall|i: int| 0 <= i < b.len() ==> param_segment_ok(a[i], b[i])) {
        params_of(a, b)
    } else {
        Seq::empty()
    }
}

/// The values `path` carries at the `:name` segments of `pattern`, as
/// `(name, value)` pairs; empty when the literal segments do not match.
pub fn extract_params(path: &str, pattern: &str) -> (params: Vec<(String, String)>)
    ensures
        pair_views(params@) == extract_params_spec(path@, pattern@),
{
    let mut params: Vec<(String, String)> = Vec::new();
    let a = split_str(path, '/');
    let b = split_str(pattern, '/');
    let n = a.len();
    if n != b.len() {
        proof {
            assert(pair_views(params@) =~= extract_params_spec(path@, pattern@));
        }
        return params;
    }
    let ghost av = string_views(a@);
    let ghost bv = string_views(b@);
    let mut i: usize = 0;
    while i < n
        invariant
            i <= n,
            n == a@.len() == b@.len(),
            av == string_views(a@),
            bv == string_views(b@),
            av == split_on(path@, '/'),
            bv == split_on(pattern@, '/'),
            av.len() == bv.len(),
            forall|j: int| #![auto] 0 <= j < i ==> param_segment_ok(av[j], bv[j]),
            pair_views(params@) == params_of(av.take(i as int), bv.take(i as int)),
        decreases n - i,
    {
        let q = &b[i];
        proof {
            assert(q@ == bv[i as int]);
            assert(a@[i as int]@ == av[i as int]);
            assert(av.take(i + 1).drop_last() =~= av.take(i as int));
            assert(bv.take(i + 1).drop_last() =~= bv.take(i as int));
            assert(av.take(i + 1).last() == av[i as int]);
            assert(bv.take(i + 1).last() == bv[i as int]);
        }
        if is_capture(q.as_str()) {
            let qlen = q.as_str().unicode_len();
            let name = q.as_str().substring_char(1, qlen).to_owned();
            let value = a[i].as_str().to_owned();
            proof {
                assert(name@ =~= bv[i as int].drop_first());
                assert(pair_views(params@.push((name, value))) =~= pair_views(params@).push(
                    (name@, value@),
                ));
                assert(pair_views(params@).push((bv[i as int].drop_first(), av[i as int]))
                    =~= params_of(av.take(i + 1), bv.take(i + 1)));
            }
            params.push((name, value));
        } else if str_eq(a[i].as_str(), q.as_str()) {
            proof {
                assert(pair_views(params@) =~= params_of(av.take(i + 1), bv.take(i + 1)));
            }
        } else {
            let empty: Vec<(String, String)> = Vec::new();
            proof {
                assert(!param_segment_ok(av[i as int], bv[i as int]));
                assert(pair_views(empty@) =~= extract_params_spec(path@, pattern@));
            }
            return empty;
        }
        i += 1;
    }
    proof {
        assert(av.take(n as int) =~= av);
        assert(bv.take(n as int) =~= bv);
    }
    params
}

/// The value of the first header whose name matches, ASCII
/// case-insensitively.
pub open spec fn header_lookup(hs: Seq<(Seq<char>, Seq<char>)>, name: Seq<char>) -> Option<
    Seq<char>,
>
    decreases hs.len(),
{
    if hs.len() == 0 {
        None
    } else if ci_equal(hs[0].0, name) {
        Some(hs[0].1)
    } else {
        header_lookup(hs.drop_first(), name)
    }
}

/// Skipping a non-matching header leaves the lookup unchanged.
proof fn lemma_header_lookup_skip(hs: Seq<(Seq<char>, Seq<char>)>, name: Seq<char>, i: int)
    requires
        0 <= i < hs.len(),
        !ci_equal(hs[i].0, name),
    ensures
        header_lookup(hs.skip(i), name) == header_lookup(hs.skip(i + 1), name),
{
    assert(hs.skip(i).len() > 0);
    assert(hs.skip(i)[0] == hs[i]);
    assert(hs.skip(i).drop_first() =~= hs.skip(i + 1));
}

/// The value of the first header named `name`, compared ASCII
/// case-insensitively.
pub fn get_header<'a>(headers: &'a [(String, String)], name: &str) -> (r: Option<&'a str>)
    ensures
        r is Some <==> header_lookup(pair_views(headers@), name@) is Some,
        r matches Some(v) ==> header_lookup(pair_views(headers@), name@) == Some(v@),
{
    let ghost hs = pair_views(headers@);
    let n = headers.len();
    proof {
        assert(hs.skip(0) =~= hs);
    }
    let mut i: usize = 0;
    while i < n
        invariant
            i <= n,
            n == headers@.len(),
            hs == pair_views(headers@),
            header_lookup(hs, name@) == header_lookup(hs.skip(i as int), name@),
        decreases n - i,
    {
        let entry = vstd::slice::slice_index_get(headers, i);
        proof {
            assert((entry.0@, entry.1@) == hs[i as int]);
            assert(hs.skip(i as int)[0] == hs[i as int]);
        }
        if str_eq_ignore_ascii_case(entry.0.as_str(), name) {
            return Some(entry.1.as_str());
        }
        proof {
            lemma_header_lookup_skip(hs, name@, i as int);
        }
        i += 1;
    }
    proof {
        assert(hs.skip(n as int) =~= Seq::<(Seq<char>, Seq<char>)>::empty());
    }
    None
}

/// The token of a `Bearer` authorization value; `None` for any other scheme.
pub open spec fn bearer_of(v: Seq<char>) -> Option<Seq<char>> {
    if v.len() >= 7 && v.take(7) == "Bearer "@ {
        Some(v.skip(7))
    } else {
        None
    }
}

/// Whether `s` begins with `prefix`.
fn str_starts_with(s: &str, prefix: &str) -> (r: bool)
    ensures
        r == (s@.len() >= prefix@.len() && s@.take(prefix@.len() as int) == prefix@),
{
    let n = prefix.unicode_len();
    if s.unicode_len() < n {
        return false;
    }
    let mut i: usize = 0;
    while i < n
        invariant
            i <= n,
            n == prefix@.len(),
            n <= s@.len(),
            forall|j: int| 0 <= j < i ==> s@[j] == prefix@[j],
        decreases n - i,
    {
        if s.get_char(i) != prefix.get_char(i) {
            proof {
                assert(s@.take(n as int)[i as int] != prefix@[i as int]);
            }
            return false;
        }
        i += 1;
    }
    proof {
        assert(s@.take(n as int) =~= prefix@);
    }
    true
}

/// The bearer token of the request's `Authorization` header: the rest of
/// the first such header's value when it begins with `Bearer `, else
/// nothing.
pub fn extract_bearer_token(headers: &[(String, String)]) -> (r: Option<String>)
    ensures
        ({
            let lk = header_lookup(pair_views(headers@), "Authorization"@);
            match r {
                Some(t) => lk matches Some(v) && bearer_of(v) == Some(t@),
                None => lk is None || (lk matches Some(v) && bearer_of(v) is None),
            }
        }),
{
    proof {
        reveal_strlit("Bearer ");
    }
    let value = get_header(headers, "Authorization");
    match value {
        Some(v) => {
            if str_starts_with(v, "Bearer ") {
                let n = v.unicode_len();
                let token = v.substring_char(7, n).to_owned();
                proof {
                    assert(v@.take(7) == "Bearer "@);
                    assert(token@ == v@.skip(7));
                }
                Some(token)
            } else {
                None
            }
        },
        None => None,
    }
}

/// A routing table from method and path to a handler. Handlers share one
/// closure type; plain `fn` handlers of the same signature do.
pub struct Router<F> {
    routes: Vec<(HttpMethod, String, F)>,
}

/// Whether a routing entry serves a request with the given method and path:
/// the methods must agree and the path must equal the route's path or match
/// it as a pattern.
pub open spec fn route_serves<F>(
    entry: (HttpMethod, Seq<char>, F),
    m: HttpMethod,
    path: Seq<char>,
) -> bool {
    entry.0 == m && (entry.1 == path || pattern_matches(path, entry.1))
}

impl<F: Fn(HttpRequest) -> Result<HttpResponse, HttpError>> Router<F> {
    /// The routing entries, in registration order.
    pub closed spec fn routes_view(self) -> Seq<(HttpMethod, Seq<char>, F)> {
        self.routes@.map_values(|r: (HttpMethod, String, F)| (r.0, r.1@, r.2))
    }

    /// Every registered handler accepts every request.
    pub open spec fn wf(self) -> bool {
        forall|i: int, req: HttpRequest|
            0 <= i < self.routes_view().len() ==> #[trigger] self.routes_view()[i].2.requires(
                (req,),
            )
    }

    /// An empty routing table.
    pub fn new() -> (r: Self)
        ensures
            r.wf(),
            r.routes_view() == Seq::<(HttpMethod, Seq<char>, F)>::empty(),
    {
        let r = Router { routes: Vec::new() };
        proof {
            assert(r.routes_view() =~= Seq::<(HttpMethod, Seq<char>, F)>::empty());
        }
        r
    }

    /// Register `handler` for `method` on `path`. A later registration for
    /// the same method and path wins.
    pub fn add_route(&mut self, method: HttpMethod, path: String, handler: F)
        requires
            old(self).wf(),
            forall|req: HttpRequest| #[trigger] handler.requires((req,)),
        ensures
            final(self).wf(),
            final(self).routes_view() == old(self).routes_view().push((method, path@, handler)),
    {
        self.routes.push((method, path, handler));
        proof {
            assert(self.routes_view() =~= old(self).routes_view().push(
                (method, self.routes@.last().1@, self.routes@.last().2),
            ));
        }
    }

    /// Register a handler for `GET` on `path`.
    pub fn get(&mut self, path: String, handler: F)
        requires
            old(self).wf(),
            forall|req: HttpRequest| #[trigger] handler.requires((req,)),
        ensures
            final(self).wf(),
            final(self).routes_view() == old(self).routes_view().push((HttpMethod::GET, path@, handler)),
    {
        self.add_route(HttpMethod::GET, path, handler);
    }

    /// Register a handler for `POST` on `path`.
    pub fn post(&mut self, path: String, handler: F)
        requires
            old(self).wf(),
            forall|req: HttpRequest| #[trigger] handler.requires((req,)),
        ensures
            final(self).wf(),
            final(self).routes_view() == old(self).routes_view().push((HttpMethod::POST, path@, handler)),
    {
        self.add_route(HttpMethod::POST, path, handler);
    }

    /// Register a handler for `PUT` on `path`.
    pub fn put(&mut self, path: String, handler: F)
        requires
            old(self).wf(),
            forall|req: HttpRequest| #[trigger] handler.requires((req,)),
        ensures
            final(self).wf(),
            final(self).routes_view() == old(self).routes_view().push((HttpMethod::PUT, path@, handler)),
    {
        self.add_route(HttpMethod::PUT, path, handler);
    }

    /// Register a handler for `DELETE` on `path`.
    pub fn delete(&mut self, path: String, handler: F)
        requires
            old(self).wf(),
            forall|req: HttpRequest| #[trigger] handler.requires((req,)),
        ensures
            final(self).wf(),
            final(self).routes_view() == old(self).routes_view().push(
                (HttpMethod::DELETE, path@, handler),
            ),
    {
        self.add_route(HttpMethod::DELETE, path, handler);
    }

    /// Serve one request: answer CORS preflights directly, reject unknown
    /// methods with 405, hand the request to the first route that serves its
    /// method and path (trying exact paths before patterns, later
    /// registrations first on exact paths), and answer 404 when no route
    /// serves it. A handler's error is rendered as its error response.
    pub fn handle(&self, request: HttpRequest) -> (r: HttpResponse)
        requires
            self.wf(),
        ensures
            ci_equal(request.method@, "OPTIONS"@) ==> r.status_code == 204 && r.body@.len() == 0
                && r.upgrade is None,
            !ci_equal(request.method@, "OPTIONS"@) && method_from_spec(request.method@) is None
                ==> r.status_code == 405,
            !ci_equal(request.method@, "OPTIONS"@) && (method_from_spec(request.method@) matches
            Some(m) && (forall|i: int|
                0 <= i < self.routes_view().len() ==> !route_serves(
                    #[trigger] self.routes_view()[i],
                    m,
                    before_char(request.url@, '?'),
                ))) ==> r.status_code == 404,
    {
        if str_eq_ignore_ascii_case(request.method.as_str(), "OPTIONS") {
            return cors_preflight_response();
        }
        let m = match HttpMethod::from_str(request.method.as_str()) {
            Some(m) => m,
            None => {
                return (HttpError::MethodNotAllowed).to_response();
            },
        };
        let path = extract_path(request.url.as_str()).to_owned();
        let ghost pathv = before_char(request.url@, '?');
        let n = self.routes.len();
        let mut i: usize = n;
        while i > 0
            invariant
                i <= n,
                n == self.routes@.len(),
                self.wf(),
                path@ == pathv,
                pathv == before_char(request.url@, '?'),
                !ci_equal(request.method@, "OPTIONS"@),
                method_from_spec(request.method@) == Some(m),
                forall|j: int|
                    i <= j < n ==> !(#[trigger] self.routes_view()[j].0 == m
                        && self.routes_view()[j].1 == pathv),
            decreases i,
        {
            i -= 1;
            let route = &self.routes[i];
            proof {
                assert(self.routes_view()[i as int] == (route.0, route.1@, route.2));
                assert(self.routes_view()[i as int].2.requires((request,)));
            }
            if route.0 == m && str_eq(route.1.as_str(), path.as_str()) {
                proof {
                    assert(route_serves(
                        self.routes_view()[i as int],
                        m,
                        before_char(request.url@, '?'),
                    ));
                }
                return match (route.2)(request) {
                    Ok(resp) => resp,
                    Err(e) => e.to_response(),
                };
            }
        }
        let mut i: usize = 0;
        while i < n
            invariant
                i <= n,
                n == self.routes@.len(),
                self.wf(),
                path@ == pathv,
                pathv == before_char(request.url@, '?'),
                !ci_equal(request.method@, "OPTIONS"@),
                method_from_spec(request.method@) == Some(m),
                forall|j: int|
                    0 <= j < i ==> !(#[trigger] self.routes_view()[j].0 == m && pattern_matches(
                        pathv,
                        self.routes_view()[j].1,
                    )),
            decreases n - i,
        {
            let route = &self.routes[i];
            proof {
                assert(self.routes_view()[i as int] == (route.0, route.1@, route.2));
                assert(self.routes_view()[i as int].2.requires((request,)));
            }
            if route.0 == m && matches_pattern(path.as_str(), route.1.as_str()) {
                proof {
                    assert(route_serves(
                        self.routes_view()[i as int],
                        m,
                        before_char(request.url@, '?'),
                    ));
                }
                return match (route.2)(request) {
                    Ok(resp) => resp,
                    Err(e) => e.to_response(),
                };
            }
            i += 1;
        }
        (HttpError::NotFound).to_response()
    }
}


impl<F: Fn(HttpRequest) -> Result<HttpResponse, HttpError>> Default for Router<F> {
    /// An empty routing table.
    fn default() -> (r: Self)
        ensures
            r.wf(),
            r.routes_view() == Seq::<(HttpMethod, Seq<char>, F)>::empty(),
    {
        Self::new()
    }
}

} // verus!
