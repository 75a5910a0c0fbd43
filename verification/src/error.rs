//! The errors that the gateway answers with.

use crate::text::{
    concat2, concat3, decimal, decimal_text, digit, lemma_prefix_and_rest, signed_decimal,
    signed_decimal_text, starts_with, strip_prefix_spec,
};
use vstd::prelude::*;
use vstd::string::*;

verus! {

/// Which limit a request ran into.
#[derive(Debug, PartialEq, Eq, Structural)]
pub enum RateLimitKind {
    /// The limit on all requests together.
    Global,
    /// The limit on the requests of one client.
    Client,
}

/// The body of every error response.
#[derive(Debug)]
pub struct GatewayErrorBody {
    pub success: bool,
    pub code: u16,
    pub msg: String,
    pub data: (),
    /// The time of the error, in milliseconds since the epoch.
    pub timestamp: i64,
}

/// Trusted: `String::from` on a string slice returns its text.
pub assume_specification<'a>[ <String as From<&'a str>>::from ](s: &str) -> (r: String)
    ensures
        r@ == s@,
;

/// The time since the epoch in milliseconds, or 0 where the clock stands before it.
///
/// Trusted: `SystemTime::elapsed`. What it returns depends on the clock, so nothing is said of it.
#[verifier::external_body]
fn millis_since_epoch() -> (millis: u128) {
    std::time::UNIX_EPOCH.elapsed().unwrap_or_default().as_millis()
}

// ----- JSON text -----

/// The lower-case hexadecimal digit.
pub open spec fn hex_digit(n: nat) -> char {
    if n < 10 {
        digit(n)
    } else {
        (n + 87) as char
    }
}

/// How a character is written inside a JSON string.
pub open spec fn json_escape(c: char) -> Seq<char> {
    if c == '"' {
        seq!['\\', '"']
    } else if c == '\\' {
        seq!['\\', '\\']
    } else if c == '\n' {
        seq!['\\', 'n']
    } else if c == '\r' {
        seq!['\\', 'r']
    } else if c == '\t' {
        seq!['\\', 't']
    } else if c == '\u{8}' {
        seq!['\\', 'b']
    } else if c == '\u{c}' {
        seq!['\\', 'f']
    } else if (c as nat) < 32 {
        seq!['\\', 'u', '0', '0', hex_digit(c as nat / 16), hex_digit(c as nat % 16)]
    } else {
        seq![c]
    }
}

/// The characters of `s` as they are written inside a JSON string.
pub open spec fn json_escaped(s: Seq<char>) -> Seq<char>
    decreases s.len(),
{
    if s.len() == 0 {
        Seq::empty()
    } else {
        json_escaped(s.drop_last()) + json_escape(s.last())
    }
}

/// `s` as a JSON string.
pub open spec fn json_string(s: Seq<char>) -> Seq<char> {
    seq!['"'] + json_escaped(s) + seq!['"']
}

/// Trusted: `serde_json::to_string` writes a string between quotes, with quotes, backslashes and
/// control characters escaped and all else as it is. It cannot fail on a string.
#[verifier::external_body]
pub(crate) fn json_string_text(s: &str) -> (quoted: String)
    ensures
        quoted@ == json_string(s@),
{
    serde_json::to_string(s).unwrap()
}

/// A flag as JSON.
pub open spec fn json_flag(b: bool) -> Seq<char> {
    if b {
        "true"@
    } else {
        "false"@
    }
}

impl GatewayErrorBody {
    /// An error with the given code and message, at the given time in milliseconds since the epoch.
    pub fn at(code: u16, msg: String, millis: u128) -> (body: Self)
        ensures
            !body.success,
            body.code == code,
            body.msg == msg,
            body.timestamp == millis as i64,
    {
        let timestamp: i64 = #[verifier::truncate]
        (millis as i64);
        GatewayErrorBody { success: false, code, msg, data: (), timestamp }
    }

    /// An error with the given code and message, at the present time. The time is left unsaid: it
    /// depends on the clock.
    pub fn new<M: Into<String>>(code: u16, msg: M) -> (body: Self)
        ensures
            !body.success,
            body.code == code,
            call_ensures(<M as Into<String>>::into, (msg,), body.msg),
    {
        Self::at(code, msg.into(), millis_since_epoch())
    }

    /// The body as JSON.
    pub open spec fn json(self) -> Seq<char> {
        "{\"success\":"@ + json_flag(self.success) + ",\"code\":"@ + decimal(self.code as nat)
            + ",\"msg\":"@ + json_string(self.msg@) + ",\"data\":null,\"timestamp\":"@
            + signed_decimal(self.timestamp as int) + "}"@
    }

    /// The body as JSON.
    pub fn to_json(&self) -> (text: String)
        ensures
            text@ == self.json(),
    {
        let flag = if self.success {
            "true"
        } else {
            "false"
        };
        let head = concat3("{\"success\":", flag, ",\"code\":");
        let code = concat3(head.as_str(), decimal_text(self.code as u64).as_str(), ",\"msg\":");
        let quoted = json_string_text(self.msg.as_str());
        let msg = concat3(code.as_str(), quoted.as_str(), ",\"data\":null,\"timestamp\":");
        concat3(msg.as_str(), signed_decimal_text(self.timestamp).as_str(), "}")
    }
}

/// What went wrong.
#[derive(Debug)]
pub enum GatewayError {
    /// There is no upstream for the path.
    NoUpstream(String),
    /// The upstream did not answer.
    ProxyError(String),
    /// There were too many requests.
    RateLimited(RateLimitKind),
    /// The request may not use the administrative interface.
    Forbidden(String),
}

impl GatewayError {
    /// The status of the response.
    pub open spec fn status(self) -> u16 {
        match self {
            GatewayError::NoUpstream(_) => 502,
            GatewayError::ProxyError(_) => 502,
            GatewayError::RateLimited(_) => 429,
            GatewayError::Forbidden(_) => 403,
        }
    }

    /// The message of the response.
    pub open spec fn message(self) -> Seq<char> {
        match self {
            GatewayError::NoUpstream(path) => "无可用上游: "@ + path@,
            GatewayError::ProxyError(err) => "代理转发失败: "@ + err@,
            GatewayError::RateLimited(RateLimitKind::Global) => "请求过于频繁（全局限流）"@,
            GatewayError::RateLimited(RateLimitKind::Client) => "请求过于频繁（客户端限流）"@,
            GatewayError::Forbidden(msg) => msg@,
        }
    }

    /// The status and the body of the response.
    pub fn into_response(self) -> (r: (u16, GatewayErrorBody))
        ensures
            r.0 == self.status(),
            r.1.code == self.status(),
            r.1.msg@ == self.message(),
            !r.1.success,
    {
        match self {
            GatewayError::NoUpstream(path) => (
                502,
                GatewayErrorBody::new(502, concat2("无可用上游: ", path.as_str()).as_str()),
            ),
            GatewayError::ProxyError(err) => (
                502,
                GatewayErrorBody::new(502, concat2("代理转发失败: ", err.as_str()).as_str()),
            ),
            GatewayError::RateLimited(kind) => {
                let msg = match kind {
                    RateLimitKind::Global => "请求过于频繁（全局限流）",
                    RateLimitKind::Client => "请求过于频繁（客户端限流）",
                };
                (429, GatewayErrorBody::new(429, msg))
            },
            GatewayError::Forbidden(msg) => (403, GatewayErrorBody::new(403, msg.as_str())),
        }
    }
}

// ----- laws -----

/// An error of an upstream is answered with 502, one of a limit with 429 and one of permission with
/// 403, and with none of these otherwise.
pub proof fn lemma_error_status(e: GatewayError)
    ensures
        e.status() == 502 <==> e is NoUpstream || e is ProxyError,
        e.status() == 429 <==> e is RateLimited,
        e.status() == 403 <==> e is Forbidden,
{
}

/// The message names the path that has no upstream, or what the upstream said, or why the request
/// is forbidden; and it tells the limit on all requests from the limit on those of a client.
pub proof fn lemma_error_message(text: String)
    ensures
        strip_prefix_spec(GatewayError::NoUpstream(text).message(), "无可用上游: "@) == Some(text@),
        strip_prefix_spec(GatewayError::ProxyError(text).message(), "代理转发失败: "@) == Some(
            text@,
        ),
        GatewayError::Forbidden(text).message() == text@,
        GatewayError::RateLimited(RateLimitKind::Global).message() != GatewayError::RateLimited(
            RateLimitKind::Client,
        ).message(),
{
    lemma_prefix_and_rest(text@, "无可用上游: "@, text@);
    lemma_prefix_and_rest(text@, "代理转发失败: "@, text@);
    reveal_strlit("请求过于频繁（全局限流）");
    reveal_strlit("请求过于频繁（客户端限流）");
    assert("请求过于频繁（全局限流）"@.len() != "请求过于频繁（客户端限流）"@.len());
}

/// The body of an error begins with the flag, the code and the message, and ends with the time.
pub proof fn lemma_error_json(body: GatewayErrorBody)
    ensures
        !body.success ==> starts_with(
            body.json(),
            "{\"success\":"@ + "false"@ + ",\"code\":"@ + decimal(body.code as nat) + ",\"msg\":"@
                + json_string(body.msg@),
        ),
        body.success ==> starts_with(
            body.json(),
            "{\"success\":"@ + "true"@ + ",\"code\":"@ + decimal(body.code as nat) + ",\"msg\":"@
                + json_string(body.msg@),
        ),
        exists|front: Seq<char>|
            body.json() == #[trigger] (front + (",\"data\":null,\"timestamp\":"@ + signed_decimal(
                body.timestamp as int,
            ) + "}"@)),
{
    let front = "{\"success\":"@ + json_flag(body.success) + ",\"code\":"@ + decimal(
        body.code as nat,
    ) + ",\"msg\":"@ + json_string(body.msg@);
    let back = ",\"data\":null,\"timestamp\":"@ + signed_decimal(body.timestamp as int) + "}"@;
    assert(body.json() =~= front + back);
    lemma_prefix_and_rest(body.json(), front, back);
}

/// A text is escaped character by character, and what is written of a character that needs no
/// escape is the character.
pub proof fn lemma_escaped_one_by_one(a: Seq<char>, b: Seq<char>, c: char)
    ensures
        json_escaped(a + b) == json_escaped(a) + json_escaped(b),
        json_escaped(seq![c]) == json_escape(c),
        c as nat >= 32 && c != '"' && c != '\\' ==> json_escape(c) == seq![c],
        c as nat >= 32 && (c == '"' || c == '\\') ==> json_escape(c) == seq!['\\', c],
        (c as nat) < 32 ==> json_escape(c).len() >= 2 && json_escape(c)[0] == '\\',
    decreases b.len(),
{
    if b.len() == 0 {
        assert(a + b =~= a);
        assert(json_escaped(a + b) =~= json_escaped(a) + json_escaped(b));
    } else {
        assert((a + b).drop_last() =~= a + b.drop_last());
        lemma_escaped_one_by_one(a, b.drop_last(), c);
        assert(json_escaped(a + b) =~= json_escaped(a) + json_escaped(b));
    }
    assert(seq![c].drop_last() =~= Seq::<char>::empty());
    assert(json_escaped(seq![c].drop_last()) =~= Seq::<char>::empty());
    assert(json_escaped(seq![c]) =~= json_escape(c));
}

} // verus!
