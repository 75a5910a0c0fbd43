//! Who a request comes from: the token it carries and the identity it is given.

use crate::error::GatewayErrorBody;
use crate::message::{
    bytes_of, fields, find_text, first_value, fits_header, header_text, is_header_text,
    is_plain_char, lemma_header_reads_back, lemma_removed, lemma_same_name, lemma_set,
    lemma_values_push, lemma_values_without, remove_header, same_name, set_header, values_of,
    with_field, without, RequestHead,
};
use crate::text::{
    eq_ignore_ascii_case, has_prefix, is_blank, is_white_space, lemma_prefix_and_rest,
    lemma_split_at, lemma_strip_repeated, lemma_trim_between, opt_text, split, split_text,
    starts_with, strip_prefix_spec, strip_repeated, texts, trim, trimmed, without_prefix,
    without_repeated_prefix,
};
use crate::websocket::{asks_for_websocket, is_websocket_upgrade};
use vstd::hash_map::StringHashMap;
use vstd::prelude::*;
use vstd::string::*;
use vstd::utf8::encode_utf8;

verus! {

// ----- claims -----

/// The value of a claim of the application's own.
#[derive(Debug)]
pub enum ExtraValue {
    Text(String),
    /// A value that is no string.
    Other,
}

/// The claims of a token.
pub struct Claims {
    /// The user.
    pub sub: String,
    /// When the token expires, in seconds since the epoch.
    pub exp: Option<i64>,
    /// When the token becomes valid.
    pub nbf: Option<i64>,
    /// When the token was issued.
    pub iat: Option<i64>,
    pub jti: Option<String>,
    pub iss: Option<String>,
    pub aud: Option<String>,
    pub login_type: Option<String>,
    pub device: Option<String>,
    /// The claims of the application's own, by their name.
    pub extra: StringHashMap<ExtraValue>,
}

/// The text of a claim of the application's own: empty where there is none, or it is no string.
pub open spec fn extra_text(extra: Map<Seq<char>, ExtraValue>, name: Seq<char>) -> Seq<char> {
    if extra.contains_key(name) {
        match extra[name] {
            ExtraValue::Text(s) => s@,
            ExtraValue::Other => Seq::empty(),
        }
    } else {
        Seq::empty()
    }
}

/// The claims of a list, by their name; of two with the same name the later one counts.
pub open spec fn named_values(list: Seq<(String, ExtraValue)>) -> Map<Seq<char>, ExtraValue>
    decreases list.len(),
{
    if list.len() == 0 {
        Map::empty()
    } else {
        named_values(list.drop_last()).insert(list.last().0@, list.last().1)
    }
}

/// The claims of a list, by their name; of two with the same name the later one counts.
pub fn collect_extra(list: Vec<(String, ExtraValue)>) -> (extra: StringHashMap<ExtraValue>)
    ensures
        extra@ == named_values(list@),
{
    let ghost given = list@;
    let mut rest = list;
    let mut extra: StringHashMap<ExtraValue> = StringHashMap::new();
    assert(named_values(given) =~= named_values(rest@).union_prefer_right(extra@));
    while rest.len() > 0
        invariant
            named_values(given) == named_values(rest@).union_prefer_right(extra@),
        decreases rest@.len(),
    {
        if let Some((name, value)) = rest.pop() {
            if !extra.contains_key(name.as_str()) {
                extra.insert(name, value);
            }
        }
        assert(named_values(given) =~= named_values(rest@).union_prefer_right(extra@));
    }
    assert(named_values(given) =~= extra@);
    extra
}

fn extra_string(extra: &StringHashMap<ExtraValue>, name: &str) -> (s: String)
    ensures
        s@ == extra_text(extra@, name@),
{
    match extra.get(name) {
        Some(ExtraValue::Text(s)) => s.clone(),
        _ => String::new(),
    }
}

impl Claims {
    /// The tenant of the user, or nothing where the token names none.
    pub fn tenant_id(&self) -> (s: String)
        ensures
            s@ == extra_text(self.extra@, "tenant_id"@),
    {
        extra_string(&self.extra, "tenant_id")
    }

    /// The name of the user, or nothing where the token gives none.
    pub fn username(&self) -> (s: String)
        ensures
            s@ == extra_text(self.extra@, "username"@),
    {
        extra_string(&self.extra, "username")
    }
}

// ----- errors -----

/// The error of the crate `jsonwebtoken`, as an opaque type.
#[verifier::external_type_specification]
#[verifier::external_body]
pub struct ExJwtError(jsonwebtoken::errors::Error);

/// Why a request is refused.
#[derive(Debug)]
pub enum AuthError {
    /// There is no token.
    MissingHeader,
    /// The authorization is none that the gateway knows.
    InvalidToken,
    /// The token was refused.
    DecodeError(jsonwebtoken::errors::Error),
    /// The gateway has no key to check tokens with.
    ConfigMissing,
}

impl From<jsonwebtoken::errors::Error> for AuthError {
    fn from(e: jsonwebtoken::errors::Error) -> (err: Self) {
        AuthError::DecodeError(e)
    }
}

impl vstd::std_specs::convert::FromSpecImpl<jsonwebtoken::errors::Error> for AuthError {
    open spec fn obeys_from_spec() -> bool {
        true
    }

    open spec fn from_spec(e: jsonwebtoken::errors::Error) -> Self {
        AuthError::DecodeError(e)
    }
}

impl AuthError {
    /// A short description.
    pub open spec fn description(self) -> Seq<char> {
        match self {
            AuthError::MissingHeader => "missing authorization header"@,
            AuthError::InvalidToken => "invalid token"@,
            AuthError::DecodeError(_) => "jwt decode error"@,
            AuthError::ConfigMissing => "config missing"@,
        }
    }

    /// A short description.
    pub fn describe(&self) -> (s: &'static str)
        ensures
            s@ == self.description(),
    {
        match self {
            AuthError::MissingHeader => "missing authorization header",
            AuthError::InvalidToken => "invalid token",
            AuthError::DecodeError(_) => "jwt decode error",
            AuthError::ConfigMissing => "config missing",
        }
    }

    /// The status of the response.
    pub open spec fn status(self) -> u16 {
        match self {
            AuthError::MissingHeader => 401,
            AuthError::InvalidToken => 401,
            AuthError::DecodeError(_) => 401,
            AuthError::ConfigMissing => 500,
        }
    }

    /// The message of the response.
    pub open spec fn message(self) -> Seq<char> {
        match self {
            AuthError::MissingHeader => "缺少 Authorization 请求头"@,
            AuthError::InvalidToken => "无效的 Token"@,
            AuthError::DecodeError(_) => "Token 已过期或无效"@,
            AuthError::ConfigMissing => "网关配置缺失"@,
        }
    }

    /// The status and the body of the response.
    pub fn into_response(self) -> (r: (u16, GatewayErrorBody))
        ensures
            r.0 == self.status(),
            r.1.code == self.status(),
            r.1.msg@ == self.message(),
            !r.1.success,
    {
        match self {
            AuthError::MissingHeader => (
                401,
                GatewayErrorBody::new(401, "缺少 Authorization 请求头"),
            ),
            AuthError::InvalidToken => (401, GatewayErrorBody::new(401, "无效的 Token")),
            AuthError::DecodeError(_) => (401, GatewayErrorBody::new(401, "Token 已过期或无效")),
            AuthError::ConfigMissing => (500, GatewayErrorBody::new(500, "网关配置缺失")),
        }
    }
}

// ----- the token -----

/// The first of the pieces from `from` on that begins with the prefix.
pub open spec fn first_with_prefix(
    pieces: Seq<Seq<char>>,
    prefix: Seq<char>,
    from: int,
) -> Option<Seq<char>>
    decreases pieces.len() - from,
{
    if from < 0 || from >= pieces.len() {
        None
    } else if starts_with(pieces[from], prefix) {
        Some(pieces[from])
    } else {
        first_with_prefix(pieces, prefix, from + 1)
    }
}

/// The value of the first `token` parameter of a query.
pub open spec fn query_token(query: Seq<char>) -> Option<Seq<char>> {
    match first_with_prefix(split(query, '&'), "token="@, 0) {
        Some(piece) => Some(piece.skip("token="@.len() as int)),
        None => None,
    }
}

/// The token of a request, and nothing where it is refused. The authorization counts where there
/// is one, then the query.
pub open spec fn token_of(authorization: Option<Seq<char>>, query: Option<Seq<char>>) -> Option<
    Seq<char>,
> {
    match (authorization, query) {
        (Some(header), _) => if starts_with(header, "Bearer "@) {
            Some(trim(strip_repeated(header, "Bearer "@)))
        } else {
            None
        },
        (None, Some(q)) => match query_token(q) {
            Some(token) => if token.len() > 0 {
                Some(token)
            } else {
                None
            },
            None => None,
        },
        (None, None) => None,
    }
}

fn token_in_query(query: &str) -> (token: Option<String>)
    ensures
        opt_text(token) == query_token(query@),
{
    let pieces = split_text(query, '&');
    let mut i: usize = 0;
    while i < pieces.len()
        invariant
            i <= pieces@.len(),
            texts(pieces@) == split(query@, '&'),
            first_with_prefix(texts(pieces@), "token="@, 0) == first_with_prefix(
                texts(pieces@),
                "token="@,
                i as int,
            ),
        decreases pieces@.len() - i,
    {
        assert(texts(pieces@)[i as int] == pieces@[i as int]@);
        if has_prefix(pieces[i].as_str(), "token=") {
            return without_prefix(pieces[i].as_str(), "token=");
        }
        i = i + 1;
    }
    None
}

/// The token of a request. An authorization that is no bearer token is refused even where the
/// query has a token.
pub fn extract_token(authorization: &Option<String>, query: &Option<String>) -> (r: Result<
    String,
    AuthError,
>)
    ensures
        match r {
            Ok(token) => token_of(opt_text(*authorization), opt_text(*query)) == Some(token@),
            Err(e) => {
                &&& token_of(opt_text(*authorization), opt_text(*query)) is None
                &&& e == (if authorization is Some {
                    AuthError::InvalidToken
                } else {
                    AuthError::MissingHeader
                })
            },
        },
{
    if let Some(header) = authorization {
        if !has_prefix(header.as_str(), "Bearer ") {
            return Err(AuthError::InvalidToken);
        }
        let rest = without_repeated_prefix(header.as_str(), "Bearer ");
        return Ok(trimmed(rest.as_str()));
    }
    if let Some(q) = query {
        if let Some(token) = token_in_query(q.as_str()) {
            if token.as_str().unicode_len() > 0 {
                return Ok(token);
            }
        }
    }
    Err(AuthError::MissingHeader)
}

/// How a token is signed.
#[derive(Debug, Clone, Copy, PartialEq, Eq, Structural)]
pub enum TokenAlgorithm {
    /// HMAC with SHA-256.
    Hs256,
}

/// What a token is held to when it is checked.
#[derive(Debug, Clone, Copy)]
pub struct TokenPolicy {
    /// The one algorithm that is accepted.
    pub algorithm: TokenAlgorithm,
    /// Whether an expired token is refused.
    pub check_expiry: bool,
}

/// What the gateway holds tokens to.
pub fn token_policy() -> (policy: TokenPolicy)
    ensures
        policy.algorithm == TokenAlgorithm::Hs256,
        policy.check_expiry,
{
    TokenPolicy { algorithm: TokenAlgorithm::Hs256, check_expiry: true }
}

// ----- screening -----

/// The fields of a request without those that only the gateway may set.
pub open spec fn without_identity(fields: Seq<(Seq<char>, Seq<u8>)>) -> Seq<
    (Seq<char>, Seq<u8>),
> {
    without(without(without(fields, "x-user-id"@), "x-tenant-id"@), "x-username"@)
}

/// What is to be done with a request.
#[derive(Debug)]
pub enum Screening {
    /// It goes on as it is.
    Pass,
    /// It goes on if the token is good.
    Check(String),
    /// It is answered with the error.
    Refuse(AuthError),
}

/// What is to be done with a request with these fields and this query. A whitelisted one goes on.
/// Of all others the token is checked, where there is one; a request for a WebSocket connection
/// goes on without, and any other is refused.
pub open spec fn is_verdict(
    next: Screening,
    whitelisted: bool,
    has_key: bool,
    inbound: Seq<(Seq<char>, Seq<u8>)>,
    query: Option<Seq<char>>,
) -> bool {
    let authorization = header_text(inbound, "authorization"@);
    let token = token_of(authorization, query);
    match next {
        Screening::Pass => whitelisted || (has_key && asks_for_websocket(inbound)
            && authorization is None && token is None),
        Screening::Check(found) => !whitelisted && has_key && token == Some(found@),
        Screening::Refuse(AuthError::ConfigMissing) => !whitelisted && !has_key,
        Screening::Refuse(AuthError::InvalidToken) => !whitelisted && has_key
            && authorization is Some && token is None,
        Screening::Refuse(AuthError::MissingHeader) => !whitelisted && has_key
            && authorization is None && token is None && !asks_for_websocket(inbound),
        Screening::Refuse(AuthError::DecodeError(_)) => false,
    }
}

/// Removes the identity that a request claims for itself, and decides what is to be done with it.
/// A whitelisted one goes on. Of all others the token is checked, where there is one; a request for
/// a WebSocket connection goes on without, and any other is refused.
pub fn screen(head: &mut RequestHead, whitelisted: bool, has_key: bool) -> (next: Screening)
    ensures
        final(head).path == old(head).path,
        final(head).query == old(head).query,
        fields(final(head).headers@) == without_identity(fields(old(head).headers@)),
        is_verdict(
            next,
            whitelisted,
            has_key,
            fields(old(head).headers@),
            opt_text(old(head).query),
        ),
{
    proof {
        let inbound = fields(head.headers@);
        lemma_identity_names();
        reveal_strlit("authorization");
        reveal_strlit("upgrade");
        lemma_claimed_identity_is_dropped(inbound, "authorization"@);
        lemma_claimed_identity_is_dropped(inbound, "upgrade"@);
    }
    remove_header(&mut head.headers, "x-user-id");
    remove_header(&mut head.headers, "x-tenant-id");
    remove_header(&mut head.headers, "x-username");
    if whitelisted {
        return Screening::Pass;
    }
    if !has_key {
        return Screening::Refuse(AuthError::ConfigMissing);
    }
    let authorization = find_text(&head.headers, "authorization");
    match extract_token(&authorization, &head.query) {
        Ok(token) => Screening::Check(token),
        Err(e) => {
            if authorization.is_none() && is_websocket_upgrade(&head.headers) {
                Screening::Pass
            } else {
                Screening::Refuse(e)
            }
        },
    }
}

/// The fields with the given one set, unless its text is empty or cannot be the value of a header.
pub open spec fn with_text(
    fields: Seq<(Seq<char>, Seq<u8>)>,
    name: Seq<char>,
    text: Seq<char>,
) -> Seq<(Seq<char>, Seq<u8>)> {
    if text.len() > 0 && is_header_text(text) {
        with_field(fields, name, encode_utf8(text))
    } else {
        fields
    }
}

/// The fields with the identity that the claims give.
pub open spec fn with_identity(fields: Seq<(Seq<char>, Seq<u8>)>, claims: Claims) -> Seq<
    (Seq<char>, Seq<u8>),
> {
    let user = with_text(fields, "x-user-id"@, claims.sub@);
    let tenant = with_text(user, "x-tenant-id"@, extra_text(claims.extra@, "tenant_id"@));
    with_text(tenant, "x-username"@, extra_text(claims.extra@, "username"@))
}

fn set_text(head: &mut RequestHead, name: &str, text: &str)
    ensures
        final(head).path == old(head).path,
        final(head).query == old(head).query,
        fields(final(head).headers@) == with_text(fields(old(head).headers@), name@, text@),
{
    if text.unicode_len() > 0 && fits_header(text) {
        set_header(&mut head.headers, name, bytes_of(text));
    }
}

/// Gives the request the identity of its token, or refuses it where the token was refused.
pub fn propagate(
    head: &mut RequestHead,
    decoded: Result<Claims, jsonwebtoken::errors::Error>,
) -> (r: Result<(), AuthError>)
    ensures
        final(head).path == old(head).path,
        final(head).query == old(head).query,
        match decoded {
            Ok(claims) => r is Ok && fields(final(head).headers@) == with_identity(
                fields(old(head).headers@),
                claims,
            ),
            Err(e) => r == Err::<(), AuthError>(AuthError::DecodeError(e)) && *final(head) == *old(
                head,
            ),
        },
{
    match decoded {
        Ok(claims) => {
            set_text(head, "x-user-id", claims.sub.as_str());
            let tenant = claims.tenant_id();
            set_text(head, "x-tenant-id", tenant.as_str());
            let username = claims.username();
            set_text(head, "x-username", username.as_str());
            Ok(())
        },
        Err(e) => Err(AuthError::DecodeError(e)),
    }
}

// ----- laws -----

/// The value that the gateway gives a field for a text.
pub open spec fn given_value(text: Seq<char>) -> Option<Seq<u8>> {
    if text.len() > 0 && is_header_text(text) {
        Some(encode_utf8(text))
    } else {
        None
    }
}

proof fn lemma_with_text(
    fields: Seq<(Seq<char>, Seq<u8>)>,
    name: Seq<char>,
    text: Seq<char>,
    other: Seq<char>,
)
    ensures
        first_value(fields, name, 0) is None ==> first_value(with_text(fields, name, text), name, 0)
            == given_value(text),
        !same_name(other, name) ==> first_value(with_text(fields, name, text), other, 0)
            == first_value(fields, other, 0),
{
    lemma_set(fields, name, encode_utf8(text), other);
}

proof fn lemma_identity_names()
    ensures
        "x-user-id"@.len() == 9,
        "x-tenant-id"@.len() == 11,
        "x-username"@.len() == 10,
{
    reveal_strlit("x-user-id");
    reveal_strlit("x-tenant-id");
    reveal_strlit("x-username");
}

/// Whatever identity a request claims for itself, none of it is left once the request is screened;
/// its other fields are untouched.
pub proof fn lemma_claimed_identity_is_dropped(
    fields: Seq<(Seq<char>, Seq<u8>)>,
    other: Seq<char>,
)
    ensures
        first_value(without_identity(fields), "x-user-id"@, 0) is None,
        first_value(without_identity(fields), "x-tenant-id"@, 0) is None,
        first_value(without_identity(fields), "x-username"@, 0) is None,
        !same_name(other, "x-user-id"@) && !same_name(other, "x-tenant-id"@) && !same_name(
            other,
            "x-username"@,
        ) ==> first_value(without_identity(fields), other, 0) == first_value(fields, other, 0),
{
    lemma_identity_names();
    let one = without(fields, "x-user-id"@);
    let two = without(one, "x-tenant-id"@);
    lemma_removed(fields, "x-user-id"@, other);
    lemma_removed(one, "x-tenant-id"@, other);
    lemma_removed(one, "x-tenant-id"@, "x-user-id"@);
    lemma_removed(two, "x-username"@, other);
    lemma_removed(two, "x-username"@, "x-user-id"@);
    lemma_removed(two, "x-username"@, "x-tenant-id"@);
}

/// The identity that an upstream sees is the one of the checked token and nothing else, whatever
/// the request claimed for itself.
pub proof fn lemma_identity_comes_from_token(fields: Seq<(Seq<char>, Seq<u8>)>, claims: Claims)
    ensures
        ({
            let seen = with_identity(without_identity(fields), claims);
            &&& first_value(seen, "x-user-id"@, 0) == given_value(claims.sub@)
            &&& first_value(seen, "x-tenant-id"@, 0) == given_value(
                extra_text(claims.extra@, "tenant_id"@),
            )
            &&& first_value(seen, "x-username"@, 0) == given_value(
                extra_text(claims.extra@, "username"@),
            )
        }),
{
    lemma_identity_names();
    lemma_claimed_identity_is_dropped(fields, "x-user-id"@);
    let clean = without_identity(fields);
    let tenant = extra_text(claims.extra@, "tenant_id"@);
    let username = extra_text(claims.extra@, "username"@);
    let user_set = with_text(clean, "x-user-id"@, claims.sub@);
    let tenant_set = with_text(user_set, "x-tenant-id"@, tenant);
    lemma_with_text(clean, "x-user-id"@, claims.sub@, "x-tenant-id"@);
    lemma_with_text(clean, "x-user-id"@, claims.sub@, "x-username"@);
    lemma_with_text(user_set, "x-tenant-id"@, tenant, "x-user-id"@);
    lemma_with_text(user_set, "x-tenant-id"@, tenant, "x-username"@);
    lemma_with_text(tenant_set, "x-username"@, username, "x-user-id"@);
    lemma_with_text(tenant_set, "x-username"@, username, "x-tenant-id"@);
}

/// What stands behind `Bearer ` is the token, whole and unchanged but for the white space around
/// it, whatever the query holds.
pub proof fn lemma_bearer_token(
    before: Seq<char>,
    t: Seq<char>,
    after: Seq<char>,
    query: Option<Seq<char>>,
)
    requires
        is_blank(before),
        is_blank(after),
        t.len() > 0 ==> !is_white_space(t[0]) && !is_white_space(t.last()),
        !starts_with(before + t + after, "Bearer "@),
    ensures
        token_of(Some("Bearer "@ + (before + t + after)), query) == Some(t),
{
    let text = before + t + after;
    reveal_strlit("Bearer ");
    lemma_prefix_and_rest(text, "Bearer "@, text);
    lemma_strip_repeated(text, "Bearer "@);
    lemma_trim_between(before, t, after);
}

/// A token without white space at either end comes out of a bearer authorization exactly as it
/// stands there.
pub proof fn lemma_bearer_token_is_whole(t: Seq<char>, query: Option<Seq<char>>)
    requires
        t.len() > 0 ==> !is_white_space(t[0]) && !is_white_space(t.last()),
        !starts_with(t, "Bearer "@),
    ensures
        token_of(Some("Bearer "@ + t), query) == Some(t),
{
    let none = Seq::<char>::empty();
    assert(none + t + none =~= t);
    lemma_bearer_token(none, t, none, query);
}

/// A `Bearer ` that is repeated changes nothing.
pub proof fn lemma_bearer_repeated(header: Seq<char>, query: Option<Seq<char>>)
    requires
        starts_with(header, "Bearer "@),
    ensures
        token_of(Some("Bearer "@ + header), query) == token_of(Some(header), query),
{
    reveal_strlit("Bearer ");
    lemma_prefix_and_rest(header, "Bearer "@, header);
    lemma_strip_repeated(header, "Bearer "@);
}

/// An authorization of another kind gives no token, even where the query has one; and without an
/// authorization and a query there is none.
pub proof fn lemma_no_other_authorization(header: Seq<char>, query: Option<Seq<char>>)
    requires
        !starts_with(header, "Bearer "@),
    ensures
        token_of(Some(header), query) is None,
        token_of(None, None) is None,
{
}

proof fn lemma_first_with_prefix_shift(
    p: Seq<char>,
    rest: Seq<Seq<char>>,
    prefix: Seq<char>,
    from: int,
)
    requires
        0 <= from <= rest.len(),
    ensures
        first_with_prefix(seq![p] + rest, prefix, from + 1) == first_with_prefix(
            rest,
            prefix,
            from,
        ),
    decreases rest.len() - from,
{
    let all = seq![p] + rest;
    if from < rest.len() {
        assert(all[from + 1] == rest[from]);
        lemma_first_with_prefix_shift(p, rest, prefix, from + 1);
    }
}

proof fn lemma_query_token_step(p: Seq<char>, rest: Seq<char>)
    requires
        !p.contains('&'),
    ensures
        query_token(p) == strip_prefix_spec(p, "token="@),
        query_token(p + "&"@ + rest) == (if starts_with(p, "token="@) {
            strip_prefix_spec(p, "token="@)
        } else {
            query_token(rest)
        }),
{
    reveal_strlit("&");
    assert("&"@ =~= seq!['&']);
    lemma_split_at(p, '&', rest);
    let one = seq![p];
    assert(first_with_prefix(one, "token="@, 1) is None);
    let all = one + split(rest, '&');
    assert(all[0] == p);
    lemma_first_with_prefix_shift(p, split(rest, '&'), "token="@, 0);
}

/// Without an authorization the first `token` parameter of the query is the token, whole and
/// unchanged, whatever parameters follow it.
pub proof fn lemma_query_token_is_whole(t: Seq<char>, rest: Seq<char>)
    requires
        !t.contains('&'),
        t.len() > 0,
    ensures
        token_of(None, Some("token="@ + t)) == Some(t),
        token_of(None, Some("token="@ + t + "&"@ + rest)) == Some(t),
{
    reveal_strlit("token=");
    let p = "token="@ + t;
    assert(!p.contains('&')) by {
        if p.contains('&') {
            let k = p.index_of('&');
            if k >= 6 {
                assert(t[k - 6] == '&');
            }
        }
    }
    lemma_prefix_and_rest(p, "token="@, t);
    lemma_query_token_step(p, rest);
}

/// A parameter that is no `token` has no part in it: the token is that of the parameters behind it,
/// and there is none where it is the only one. An empty `token` counts as none.
pub proof fn lemma_query_parameter_is_passed_over(p: Seq<char>, rest: Seq<char>)
    requires
        !p.contains('&'),
        !starts_with(p, "token="@),
    ensures
        token_of(None, Some(p)) is None,
        token_of(None, Some(p + "&"@ + rest)) == token_of(None, Some(rest)),
        token_of(None, Some("token="@)) is None,
        token_of(None, Some("token="@ + "&"@ + rest)) is None,
{
    reveal_strlit("token=");
    lemma_query_token_step(p, rest);
    let none = Seq::<char>::empty();
    assert("token="@ + none =~= "token="@);
    lemma_prefix_and_rest("token="@, "token="@, none);
    assert(!"token="@.contains('&'));
    lemma_query_token_step("token="@, rest);
}

/// A claim that is listed last is the one that counts, and it is read by its own name only.
pub proof fn lemma_extra_reads_back(
    list: Seq<(String, ExtraValue)>,
    name: String,
    value: ExtraValue,
    other: Seq<char>,
)
    ensures
        extra_text(named_values(list.push((name, value))), name@) == (match value {
            ExtraValue::Text(text) => text@,
            ExtraValue::Other => Seq::<char>::empty(),
        }),
        other != name@ ==> extra_text(named_values(list.push((name, value))), other) == extra_text(
            named_values(list),
            other,
        ),
        extra_text(named_values(Seq::<(String, ExtraValue)>::empty()), other).len() == 0,
{
    assert(list.push((name, value)).drop_last() =~= list);
}

/// The text that a field is set to for a claim: the claim itself, where it is not empty and can
/// stand in a header; otherwise the field is not there.
pub open spec fn carries(value: Option<Seq<u8>>, claim: Seq<char>) -> bool {
    if claim.len() == 0 || !is_header_text(claim) {
        value is None
    } else {
        value == Some(encode_utf8(claim))
    }
}

/// The upstream gets the subject of the token as `x-user-id`, its tenant as `x-tenant-id` and its
/// user name as `x-username`, each as the token gives it, and all other fields of the request as
/// they came in.
pub proof fn lemma_identity_is_passed_on(
    fields: Seq<(Seq<char>, Seq<u8>)>,
    claims: Claims,
    other: Seq<char>,
)
    requires
        !eq_ignore_ascii_case(other, "x-user-id"@),
        !eq_ignore_ascii_case(other, "x-tenant-id"@),
        !eq_ignore_ascii_case(other, "x-username"@),
    ensures
        ({
            let seen = with_identity(without_identity(fields), claims);
            &&& carries(first_value(seen, "x-user-id"@, 0), claims.sub@)
            &&& carries(
                first_value(seen, "x-tenant-id"@, 0),
                extra_text(claims.extra@, "tenant_id"@),
            )
            &&& carries(
                first_value(seen, "x-username"@, 0),
                extra_text(claims.extra@, "username"@),
            )
            &&& first_value(seen, other, 0) == first_value(fields, other, 0)
        }),
{
    lemma_identity_comes_from_token(fields, claims);
    lemma_claimed_identity_is_dropped(fields, other);
    let clean = without_identity(fields);
    let tenant = extra_text(claims.extra@, "tenant_id"@);
    let username = extra_text(claims.extra@, "username"@);
    let user_set = with_text(clean, "x-user-id"@, claims.sub@);
    let tenant_set = with_text(user_set, "x-tenant-id"@, tenant);
    lemma_with_text(clean, "x-user-id"@, claims.sub@, other);
    lemma_with_text(user_set, "x-tenant-id"@, tenant, other);
    lemma_with_text(tenant_set, "x-username"@, username, other);
}

/// Every refusal is answered with 401, but for the one that is the gateway's own fault, which is
/// answered with 500.
pub proof fn lemma_refusal_status(e: AuthError)
    ensures
        e.status() == 401 || e.status() == 500,
        e.status() == 500 <==> e is ConfigMissing,
{
}

/// Each field of the identity has one value at most: that of the token. Whatever the request
/// brought under its name is gone.
pub proof fn lemma_identity_has_one_value(fields: Seq<(Seq<char>, Seq<u8>)>, claims: Claims)
    ensures
        ({
            let seen = with_identity(without_identity(fields), claims);
            &&& values_of(seen, "x-user-id"@) == claim_values(claims.sub@)
            &&& values_of(seen, "x-tenant-id"@) == claim_values(
                extra_text(claims.extra@, "tenant_id"@),
            )
            &&& values_of(seen, "x-username"@) == claim_values(
                extra_text(claims.extra@, "username"@),
            )
        }),
{
    lemma_identity_names();
    let one = without(fields, "x-user-id"@);
    let two = without(one, "x-tenant-id"@);
    let clean = without_identity(fields);
    let tenant = extra_text(claims.extra@, "tenant_id"@);
    let username = extra_text(claims.extra@, "username"@);
    let user_set = with_text(clean, "x-user-id"@, claims.sub@);
    let tenant_set = with_text(user_set, "x-tenant-id"@, tenant);
    assert forall|name: Seq<char>|
        same_name(name, "x-user-id"@) || same_name(name, "x-tenant-id"@) || same_name(
            name,
            "x-username"@,
        ) implies #[trigger] values_of(clean, name).len() == 0 by {
        lemma_values_without(fields, "x-user-id"@, name);
        lemma_values_without(one, "x-tenant-id"@, name);
        lemma_values_without(two, "x-username"@, name);
    }
    lemma_text_values(clean, "x-user-id"@, claims.sub@, "x-user-id"@);
    lemma_text_values(clean, "x-user-id"@, claims.sub@, "x-tenant-id"@);
    lemma_text_values(clean, "x-user-id"@, claims.sub@, "x-username"@);
    lemma_text_values(user_set, "x-tenant-id"@, tenant, "x-user-id"@);
    lemma_text_values(user_set, "x-tenant-id"@, tenant, "x-tenant-id"@);
    lemma_text_values(user_set, "x-tenant-id"@, tenant, "x-username"@);
    lemma_text_values(tenant_set, "x-username"@, username, "x-user-id"@);
    lemma_text_values(tenant_set, "x-username"@, username, "x-tenant-id"@);
    lemma_text_values(tenant_set, "x-username"@, username, "x-username"@);
}

/// The values that a field has for a claim: the claim, where it is not empty and can stand in a
/// header, and otherwise none.
pub open spec fn claim_values(claim: Seq<char>) -> Seq<Seq<u8>> {
    if claim.len() == 0 || !is_header_text(claim) {
        Seq::empty()
    } else {
        seq![encode_utf8(claim)]
    }
}

proof fn lemma_text_values(
    fields: Seq<(Seq<char>, Seq<u8>)>,
    name: Seq<char>,
    text: Seq<char>,
    other: Seq<char>,
)
    ensures
        !same_name(other, name) ==> values_of(with_text(fields, name, text), other) == values_of(
            fields,
            other,
        ),
        values_of(fields, name).len() == 0 ==> values_of(with_text(fields, name, text), name)
            == claim_values(text),
{
    let value = encode_utf8(text);
    let kept = without(fields, name);
    lemma_values_without(fields, name, other);
    lemma_values_without(fields, name, name);
    lemma_values_push(kept, (name, value), other);
    lemma_values_push(kept, (name, value), name);
    if same_name(name, other) {
        lemma_same_name(other, name, other);
    }
    assert(Seq::<Seq<u8>>::empty().push(value) =~= seq![value]);
    if values_of(fields, name).len() == 0 {
        assert(values_of(fields, name) =~= Seq::<Seq<u8>>::empty());
    }
}

/// A request that is not exempt goes on only with a token that is still to be checked, but for a
/// request for a WebSocket connection that brings neither an authorization nor a token; and without
/// a key to check tokens with, none goes on.
pub proof fn lemma_nothing_passes_unchecked(
    next: Screening,
    has_key: bool,
    inbound: Seq<(Seq<char>, Seq<u8>)>,
    query: Option<Seq<char>>,
)
    requires
        is_verdict(next, false, has_key, inbound, query),
    ensures
        !has_key <==> next == Screening::Refuse(AuthError::ConfigMissing),
        next is Pass ==> has_key && asks_for_websocket(inbound) && header_text(
            inbound,
            "authorization"@,
        ) is None,
        next is Pass && query is Some ==> token_of(None, query) is None,
        has_key && !asks_for_websocket(inbound) ==> next is Check || next == Screening::Refuse(
            AuthError::InvalidToken,
        ) || next == Screening::Refuse(AuthError::MissingHeader),
{
}

/// What is done with a request follows from what it brings: an exempt one goes on; the token of a
/// bearer authorization is checked, whole; an authorization of another kind is refused as invalid,
/// whatever the query holds; and one without either is refused as missing, unless it asks for a
/// WebSocket connection.
pub proof fn lemma_verdicts(
    next: Screening,
    inbound: Seq<(Seq<char>, Seq<u8>)>,
    query: Option<Seq<char>>,
    header: Seq<char>,
    t: Seq<char>,
)
    requires
        forall|i: int| 0 <= i < header.len() ==> is_plain_char(#[trigger] header[i]),
        t.len() > 0 ==> !is_white_space(t[0]) && !is_white_space(t.last()),
        !starts_with(t, "Bearer "@),
    ensures
        is_verdict(next, true, true, inbound, query) ==> next is Pass,
        is_verdict(next, true, false, inbound, query) ==> next is Pass,
        header == "Bearer "@ + t && is_verdict(
            next,
            false,
            true,
            with_field(inbound, "authorization"@, encode_utf8(header)),
            query,
        ) ==> (next matches Screening::Check(found) && found@ == t),
        !starts_with(header, "Bearer "@) && is_verdict(
            next,
            false,
            true,
            with_field(inbound, "authorization"@, encode_utf8(header)),
            query,
        ) ==> next == Screening::Refuse(AuthError::InvalidToken),
        ({
            let bare = without(inbound, "authorization"@);
            is_verdict(next, false, true, bare, None) ==> if asks_for_websocket(bare) {
                next is Pass
            } else {
                next == Screening::Refuse(AuthError::MissingHeader)
            }
        }),
{
    lemma_header_reads_back(inbound, "authorization"@, header, ""@);
    lemma_bearer_token_is_whole(t, query);
}

} // verus!
