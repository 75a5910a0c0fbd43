//! What the gateway's own endpoints and layers decide.

use crate::config::RouteRule;
use crate::error::{json_string, json_string_text, GatewayError};
use crate::health_check::HealthCheckConfig;
use crate::message::{
    bytes_of, fields, find_text, first_value, fits_header, header_text, is_header_text,
    is_plain_char, lemma_header_reads_back, lemma_set, same_name, set_header, with_field, without,
    Header,
};
use crate::text::{
    all_digits, concat3, decimal, decimal_text, digits_value, is_blank, is_white_space,
    lemma_decimal_reads_back, lemma_prefix_and_rest, lemma_split_at, lemma_trim_between, opt_text,
    split, split_text, starts_with, str_eq, strip_prefix_spec, texts, trim, trimmed,
};
use vstd::prelude::*;
use vstd::string::*;
use vstd::utf8::encode_utf8;

verus! {

// ----- start-up -----

/// The level of the log: the first of the two that is set, or `info`.
pub open spec fn filter_of(own: Option<Seq<char>>, general: Option<Seq<char>>) -> Seq<char> {
    match (own, general) {
        (Some(s), _) => s,
        (None, Some(s)) => s,
        (None, None) => "info"@,
    }
}

/// The level of the log: the first of the two that is set, or `info`.
pub fn log_filter(own: Option<String>, general: Option<String>) -> (filter: String)
    ensures
        filter@ == filter_of(opt_text(own), opt_text(general)),
{
    match own {
        Some(s) => s,
        None => match general {
            Some(s) => s,
            None => "info".to_owned(),
        },
    }
}

/// The rules and the health-check settings to begin with, from what was loaded from the local
/// routes file: none and the default ones where loading failed.
pub fn initial_routes(loaded: Result<(Vec<RouteRule>, HealthCheckConfig), String>) -> (r: (
    Vec<RouteRule>,
    HealthCheckConfig,
))
    ensures
        match loaded {
            Ok(pair) => r == pair,
            Err(_) => r.0@.len() == 0 && r.1.is_default(),
        },
{
    match loaded {
        Ok(pair) => pair,
        Err(_) => (Vec::new(), HealthCheckConfig::default()),
    }
}

// ----- cross-origin requests -----

/// Which origins may use the gateway.
#[derive(Debug)]
pub enum CorsPolicy {
    /// All of them.
    AnyOrigin,
    /// The listed ones.
    Only(Vec<String>),
}

/// The pieces that can stand in a header, without the white space around them.
pub open spec fn allowed_origins(pieces: Seq<Seq<char>>) -> Seq<Seq<char>>
    decreases pieces.len(),
{
    if pieces.len() == 0 {
        Seq::empty()
    } else {
        let rest = allowed_origins(pieces.drop_last());
        if is_header_text(trim(pieces.last())) {
            rest.push(trim(pieces.last()))
        } else {
            rest
        }
    }
}

/// The policy is the one for this list of origins: all of them where there is none or it is `*`,
/// and otherwise the listed ones.
pub open spec fn is_policy(policy: CorsPolicy, origins: Option<Seq<char>>) -> bool {
    match policy {
        CorsPolicy::AnyOrigin => match origins {
            Some(list) => list.len() == 0 || list == "*"@,
            None => true,
        },
        CorsPolicy::Only(kept) => origins matches Some(list) && list.len() > 0 && list != "*"@
            && texts(kept@) == allowed_origins(split(list, ',')),
    }
}

/// Which origins may use the gateway: the listed ones where a list is set and is not `*`.
pub fn cors_policy(origins: &Option<String>) -> (policy: CorsPolicy)
    ensures
        is_policy(policy, opt_text(*origins)),
{
    match origins {
        Some(list) => {
            if list.as_str().unicode_len() == 0 || str_eq(list.as_str(), "*") {
                return CorsPolicy::AnyOrigin;
            }
            let pieces = split_text(list.as_str(), ',');
            let ghost all = texts(pieces@);
            let mut kept: Vec<String> = Vec::new();
            let mut i: usize = 0;
            assert(texts(kept@) =~= allowed_origins(all.take(0)));
            while i < pieces.len()
                invariant
                    i <= pieces@.len(),
                    all == texts(pieces@),
                    texts(kept@) == allowed_origins(all.take(i as int)),
                decreases pieces@.len() - i,
            {
                let origin = trimmed(pieces[i].as_str());
                assert(all.take(i + 1).drop_last() =~= all.take(i as int));
                assert(all.take(i + 1).last() == pieces@[i as int]@);
                if fits_header(origin.as_str()) {
                    let ghost before = kept@;
                    kept.push(origin);
                    assert(texts(kept@) =~= texts(before).push(origin@));
                }
                i = i + 1;
            }
            assert(all.take(i as int) =~= all);
            CorsPolicy::Only(kept)
        },
        None => CorsPolicy::AnyOrigin,
    }
}

// ----- endpoints -----

/// The body of the gateway's own health endpoint.
pub fn health_body() -> (body: String)
    ensures
        body@ == "{\"status\":\"UP\"}"@,
{
    "{\"status\":\"UP\"}".to_owned()
}

/// Whether a request may reload the routes: where a token is set, it has to carry that token.
pub open spec fn may_reload(
    expected: Option<Seq<char>>,
    fields: Seq<(Seq<char>, Seq<u8>)>,
) -> bool {
    match expected {
        Some(token) => header_text(fields, "x-admin-token"@) == Some(token),
        None => true,
    }
}

/// Checks whether a request may reload the routes.
pub fn authorize_reload(expected: &Option<String>, headers: &Vec<Header>) -> (r: Result<
    (),
    GatewayError,
>)
    ensures
        match r {
            Ok(_) => may_reload(opt_text(*expected), fields(headers@)),
            Err(e) => {
                &&& !may_reload(opt_text(*expected), fields(headers@))
                &&& e matches GatewayError::Forbidden(msg) && msg@
                    == "管理接口鉴权失败，请提供正确的 X-Admin-Token"@
            },
        },
{
    if let Some(token) = expected {
        let allowed: bool = match find_text(headers, "x-admin-token") {
            Some(provided) => str_eq(provided.as_str(), token.as_str()),
            None => false,
        };
        if !allowed {
            return Err(
                GatewayError::Forbidden(
                    "管理接口鉴权失败，请提供正确的 X-Admin-Token".to_owned(),
                ),
            );
        }
    }
    Ok(())
}

/// Status and body of the answer to a reload.
pub open spec fn reload_answer(outcome: Result<usize, String>) -> (u16, Seq<char>) {
    match outcome {
        Ok(count) => (
            200,
            "{\"routes_loaded\":"@ + decimal(count as nat) + ",\"status\":\"ok\"}"@,
        ),
        Err(message) => (
            500,
            "{\"message\":"@ + json_string(message@) + ",\"status\":\"error\"}"@,
        ),
    }
}

/// Status and body of the answer to a reload.
pub fn reload_reply(outcome: Result<usize, String>) -> (r: (u16, String))
    ensures
        (r.0, r.1@) == reload_answer(outcome),
{
    match outcome {
        Ok(count) => (
            200,
            concat3(
                "{\"routes_loaded\":",
                decimal_text(count as u64).as_str(),
                ",\"status\":\"ok\"}",
            ),
        ),
        Err(message) => (
            500,
            concat3(
                "{\"message\":",
                json_string_text(message.as_str()).as_str(),
                ",\"status\":\"error\"}",
            ),
        ),
    }
}

// ----- request ids -----

/// The character is a lower-case hexadecimal digit.
pub open spec fn is_lower_hex(c: char) -> bool {
    '0' <= c <= '9' || 'a' <= c <= 'f'
}

/// The text of a UUID, with its four hyphens.
pub open spec fn is_hyphenated_uuid(s: Seq<char>) -> bool {
    &&& s.len() == 36
    &&& forall|i: int|
        0 <= i < 36 ==> if i == 8 || i == 13 || i == 18 || i == 23 {
            #[trigger] s[i] == '-'
        } else {
            is_lower_hex(s[i])
        }
}

/// Trusted: `uuid::Uuid::new_v4` and its `Display`: 32 hexadecimal digits in lower case, in groups
/// of 8, 4, 4, 4 and 12 with hyphens between them. Which digits is left to chance.
#[verifier::external_body]
fn fresh_request_id() -> (id: String)
    ensures
        is_hyphenated_uuid(id@),
{
    uuid::Uuid::new_v4().to_string()
}

/// The id of a request: the one it carries, or the given one.
pub open spec fn id_of(fields: Seq<(Seq<char>, Seq<u8>)>, fresh: Seq<char>) -> Seq<char> {
    match header_text(fields, "x-request-id"@) {
        Some(id) => id,
        None => fresh,
    }
}

/// The id of a request: the one it carries, or the given one.
pub fn request_id_or(headers: &Vec<Header>, fresh: String) -> (id: String)
    ensures
        id@ == id_of(fields(headers@), fresh@),
{
    match find_text(headers, "x-request-id") {
        Some(id) => id,
        None => fresh,
    }
}

/// The id of a request: the one it carries, or a fresh one.
pub fn request_id(headers: &Vec<Header>) -> (id: String)
    ensures
        match header_text(fields(headers@), "x-request-id"@) {
            Some(carried) => id@ == carried,
            None => is_hyphenated_uuid(id@),
        },
{
    request_id_or(headers, fresh_request_id())
}

/// The fields with the id set among them, if it can stand there.
pub open spec fn stamped(fields: Seq<(Seq<char>, Seq<u8>)>, id: Seq<char>) -> Seq<
    (Seq<char>, Seq<u8>),
> {
    if is_header_text(id) {
        with_field(fields, "x-request-id"@, encode_utf8(id))
    } else {
        fields
    }
}

/// Sets the id among the fields of a request or a response, if it can stand there.
pub fn stamp_request_id(headers: &mut Vec<Header>, id: &str)
    ensures
        fields(final(headers)@) == stamped(fields(old(headers)@), id@),
{
    if fits_header(id) {
        set_header(headers, "x-request-id", bytes_of(id));
    }
}

// ----- laws -----

/// Every request gets an id that can stand in a header: what `request_id` returns is always set.
pub proof fn lemma_request_id_fits(fields: Seq<(Seq<char>, Seq<u8>)>, fresh: Seq<char>)
    requires
        is_hyphenated_uuid(fresh),
    ensures
        is_header_text(id_of(fields, fresh)),
{
    let id = id_of(fields, fresh);
    match crate::message::first_value(fields, "x-request-id"@, 0) {
        Some(value) => {
            if crate::message::text_of(value) is Some {
                assert forall|i: int| 0 <= i < id.len() implies #[trigger] id[i] == '\t' || (
                id[i] as nat >= 32 && id[i] != '\u{7f}') by {
                    assert(crate::message::is_visible(value[i]));
                }
            }
        },
        None => {},
    }
}

/// Of the origins in a row, each is kept or dropped by itself; kept is one that can stand in a
/// header, without the white space around it.
pub proof fn lemma_origins_one_by_one(
    a: Seq<Seq<char>>,
    b: Seq<Seq<char>>,
    before: Seq<char>,
    origin: Seq<char>,
    after: Seq<char>,
)
    requires
        is_blank(before),
        is_blank(after),
        origin.len() > 0 ==> !is_white_space(origin[0]) && !is_white_space(origin.last()),
    ensures
        allowed_origins(a + b) == allowed_origins(a) + allowed_origins(b),
        allowed_origins(seq![before + origin + after]) == (if is_header_text(origin) {
            seq![origin]
        } else {
            Seq::<Seq<char>>::empty()
        }),
    decreases b.len(),
{
    if b.len() == 0 {
        assert(a + b =~= a);
        assert(allowed_origins(a + b) =~= allowed_origins(a) + allowed_origins(b));
    } else {
        assert((a + b).drop_last() =~= a + b.drop_last());
        lemma_origins_one_by_one(a, b.drop_last(), before, origin, after);
        assert(allowed_origins(a + b) =~= allowed_origins(a) + allowed_origins(b));
    }
    lemma_trim_between(before, origin, after);
    let one = seq![before + origin + after];
    assert(one.drop_last() =~= Seq::<Seq<char>>::empty());
    assert(allowed_origins(one.drop_last()) =~= Seq::<Seq<char>>::empty());
    assert(Seq::<Seq<char>>::empty().push(origin) =~= seq![origin]);
}

/// Where a token is set, a request may reload the routes with just that token, not with another one
/// and not without any; where none is set, every request may.
pub proof fn lemma_reload_needs_the_token(
    fields: Seq<(Seq<char>, Seq<u8>)>,
    expected: Seq<char>,
    given: Seq<char>,
)
    requires
        forall|i: int| 0 <= i < given.len() ==> is_plain_char(#[trigger] given[i]),
    ensures
        may_reload(
            Some(expected),
            with_field(fields, "x-admin-token"@, encode_utf8(given)),
        ) <==> given == expected,
        !may_reload(Some(expected), without(fields, "x-admin-token"@)),
        may_reload(None, fields),
{
    lemma_header_reads_back(fields, "x-admin-token"@, given, ""@);
}

/// A request keeps the id that it was given, and gets the fresh one where it has none.
pub proof fn lemma_id_is_kept(
    fields: Seq<(Seq<char>, Seq<u8>)>,
    id: Seq<char>,
    fresh: Seq<char>,
)
    requires
        forall|i: int| 0 <= i < id.len() ==> is_plain_char(#[trigger] id[i]),
    ensures
        id_of(with_field(fields, "x-request-id"@, encode_utf8(id)), fresh) == id,
        id_of(without(fields, "x-request-id"@), fresh) == fresh,
{
    lemma_header_reads_back(fields, "x-request-id"@, id, ""@);
}

/// The gateway's own level goes before the general one, and with neither the level is `info`.
pub proof fn lemma_own_filter_first(own: Seq<char>, general: Seq<char>)
    ensures
        filter_of(Some(own), Some(general)) == own,
        filter_of(Some(own), None) == own,
        filter_of(None, Some(general)) == general,
        filter_of(None, None) == "info"@,
{
}

/// Every origin may use the gateway exactly where no list is set, or an empty one, or `*`; and a
/// list of one origin lets just that one in.
pub proof fn lemma_listed_origins_only(policy: CorsPolicy, origins: Option<Seq<char>>)
    requires
        is_policy(policy, origins),
    ensures
        policy is AnyOrigin <==> origins is None || origins->0.len() == 0 || origins->0 == "*"@,
        origins matches Some(list) ==> (policy matches CorsPolicy::Only(kept) ==> (!list.contains(
            ',',
        ) && is_header_text(list) && !is_white_space(list[0]) && !is_white_space(list.last())
            ==> texts(kept@) == seq![list])),
{
    if origins is Some && policy is Only {
        let list = origins->0;
        if !list.contains(',') && is_header_text(list) && !is_white_space(list[0])
            && !is_white_space(list.last()) {
            let none = Seq::<char>::empty();
            lemma_split_at(list, ',', none);
            lemma_origins_one_by_one(seq![list], seq![list], none, list, none);
            assert(none + list + none =~= list);
        }
    }
}

/// A reload that has gone well is answered with a status in the two hundreds and the number of the
/// rules; one that has failed with one in the five hundreds and the reason.
pub proof fn lemma_reload_answer(outcome: Result<usize, String>)
    ensures
        reload_answer(outcome).0 as int / 100 == 2 <==> outcome is Ok,
        reload_answer(outcome).0 as int / 100 == 5 <==> outcome is Err,
        outcome matches Ok(count) ==> exists|number: Seq<char>| #[trigger]
            all_digits(number) && digits_value(number) == count && starts_with(
                reload_answer(outcome).1,
                "{\"routes_loaded\":"@ + number,
            ),
        outcome matches Err(message) ==> starts_with(
            reload_answer(outcome).1,
            "{\"message\":"@ + json_string(message@),
        ),
{
    match outcome {
        Ok(count) => {
            let number = decimal(count as nat);
            lemma_decimal_reads_back(count as nat);
            assert(all_digits(number));
            lemma_prefix_and_rest(
                reload_answer(outcome).1,
                "{\"routes_loaded\":"@ + number,
                ",\"status\":\"ok\"}"@,
            );
        },
        Err(message) => {
            lemma_prefix_and_rest(
                reload_answer(outcome).1,
                "{\"message\":"@ + json_string(message@),
                ",\"status\":\"error\"}"@,
            );
        },
    }
}

/// An id that was set is read back, and all other fields are as before.
pub proof fn lemma_stamped_id(
    fields: Seq<(Seq<char>, Seq<u8>)>,
    id: Seq<char>,
    fresh: Seq<char>,
    other: Seq<char>,
)
    requires
        !same_name(other, "x-request-id"@),
    ensures
        (forall|i: int| 0 <= i < id.len() ==> is_plain_char(#[trigger] id[i])) ==> id_of(
            stamped(fields, id),
            fresh,
        ) == id,
        first_value(stamped(fields, id), other, 0) == first_value(fields, other, 0),
{
    lemma_set(fields, "x-request-id"@, encode_utf8(id), other);
    if forall|i: int| 0 <= i < id.len() ==> is_plain_char(#[trigger] id[i]) {
        assert(is_header_text(id)) by {
            assert forall|i: int| 0 <= i < id.len() implies #[trigger] id[i] == '\t' || (
            id[i] as nat >= 32 && id[i] != '\u{7f}') by {
                assert(is_plain_char(id[i]));
            }
        }
        lemma_id_is_kept(fields, id, fresh);
    }
}

} // verus!
