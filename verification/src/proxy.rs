//! Where a request goes and what is sent there.

use crate::auth::{
    lemma_claimed_identity_is_dropped, lemma_identity_is_passed_on, with_identity, without_identity,
    Claims,
};
use crate::config::{holds_pattern, RouteRule};
use crate::health_check::{
    counts_as_healthy, filter_healthy_upstreams, health_entries, lemma_usable_nonempty, usable,
    SharedHealthStatus, UpstreamHealth,
};
use crate::load_balancer::pool::{
    accepts, accepts_upstreams, balancer_entries, client_ip_of, select_upstream, selected, slot,
    Balancer, BalancerTable,
};
use crate::load_balancer::{pairs, urls, urls_of, ClientAddr, WeightedUpstream};
use crate::message::{
    append_without, bytes_of, fields, find_text, first_value, has_field, has_header, header_text,
    headers_without, is_header_text, is_plain_char, lemma_first_of_values, lemma_same_name,
    lemma_text_reads_back, lemma_values_concat, lemma_values_push, lemma_values_without,
    push_header, same_name, values_of, without, Header, Reply, RequestHead,
};
use crate::nacos::{
    instances_to_weighted_upstreams, service_entries, service_upstreams, ServiceInstance,
    ServiceTable,
};
use crate::path_matcher::is_pattern;
use crate::server::is_lower_hex;
use crate::text::{
    before_first, concat2, concat3, contains_text, has_prefix, join, join_texts, lemma_before_first,
    lemma_before_first_ends, lemma_join_front, lemma_join_split, lemma_prefix_and_rest,
    lemma_replace_first, lemma_replace_nothing, lemma_split_at, lemma_split_pieces,
    lemma_split_step, lists, opt_text, replace_all, replaced, split, split_text, starts_with,
    str_eq, strip_prefix_spec, text_before, texts, without_prefix,
};
use crate::websocket::{asks_for_websocket, is_websocket_upgrade};
use vstd::prelude::*;
use vstd::string::*;
use vstd::utf8::{encode_utf8, is_ascii_chars, is_ascii_chars_encode_utf8};

verus! {

// ----- tracing -----

/// The part of a `traceparent` that names the trace: the second of at least three, with 32 bytes.
pub open spec fn trace_part(traceparent: Seq<char>) -> Option<Seq<char>> {
    let parts = split(traceparent, '-');
    if parts.len() >= 3 && encode_utf8(parts[1]).len() == 32 {
        Some(parts[1])
    } else {
        None
    }
}

/// The trace that a `traceparent` names.
pub fn parse_trace_id(traceparent: &str) -> (id: Option<String>)
    ensures
        opt_text(id) == trace_part(traceparent@),
{
    let parts = split_text(traceparent, '-');
    assert(parts@.len() == texts(parts@).len());
    if parts.len() >= 3 {
        assert(texts(parts@)[1] == parts@[1]@);
        if parts[1].as_str().as_bytes().len() == 32 {
            return Some(parts[1].clone());
        }
    }
    None
}

/// The text is made of `n` lower-case hexadecimal digits.
pub open spec fn is_hex_text(s: Seq<char>, n: nat) -> bool {
    s.len() == n && forall|i: int| 0 <= i < n ==> is_lower_hex(#[trigger] s[i])
}

/// Trusted: `uuid::Uuid::new_v4` and the `Display` of its `as_simple`: 32 hexadecimal digits in
/// lower case. Which ones is left to chance.
#[verifier::external_body]
fn simple_uuid() -> (id: String)
    ensures
        is_hex_text(id@, 32),
{
    uuid::Uuid::new_v4().as_simple().to_string()
}

/// A fresh id for a trace.
pub fn generate_trace_id() -> (id: String)
    ensures
        is_hex_text(id@, 32),
{
    simple_uuid()
}

/// A fresh id for a span.
pub fn generate_span_id() -> (id: String)
    ensures
        is_hex_text(id@, 16),
{
    let whole = simple_uuid();
    let half = whole.as_str().substring_char(0, 16);
    assert forall|i: int| 0 <= i < 16 implies is_lower_hex(#[trigger] half@[i]) by {
        assert(half@[i] == whole@[i]);
    }
    half.to_owned()
}

/// What a request is traced by.
#[derive(Debug, Clone)]
pub struct TraceContext {
    pub trace_id: String,
    /// The value of the `traceparent` header.
    pub traceparent: String,
    /// The beginning of the trace id, for the log.
    pub short: String,
}

impl TraceContext {
    /// The trace is the one that came in, or else the fresh one; the span is the given one.
    pub open spec fn continues(
        self,
        inbound: Option<Seq<char>>,
        fresh: Seq<char>,
        span: Seq<char>,
    ) -> bool {
        let id = match inbound {
            Some(traceparent) => match trace_part(traceparent) {
                Some(part) => part,
                None => fresh,
            },
            None => fresh,
        };
        &&& self.trace_id@ == id
        &&& self.traceparent@ == "00-"@ + id + ("-"@ + span + "-01"@)
        &&& self.short@ == (if id.len() <= 8 {
            id
        } else {
            id.take(8)
        })
    }

    /// Goes on with the trace that came in, or begins the fresh one.
    pub fn from_parts(inbound: Option<String>, fresh: String, span: String) -> (trace: Self)
        ensures
            trace.continues(opt_text(inbound), fresh@, span@),
    {
        let named = match &inbound {
            Some(traceparent) => parse_trace_id(traceparent.as_str()),
            None => None,
        };
        let trace_id = match named {
            Some(id) => id,
            None => fresh,
        };
        let tail = concat3("-", span.as_str(), "-01");
        let traceparent = concat3("00-", trace_id.as_str(), tail.as_str());
        let short = if trace_id.as_str().unicode_len() <= 8 {
            trace_id.clone()
        } else {
            let head = trace_id.as_str().substring_char(0, 8);
            assert(head@ =~= trace_id@.take(8));
            head.to_owned()
        };
        TraceContext { trace_id, traceparent, short }
    }

    /// Goes on with the trace that the request carries, or begins one.
    pub fn open_for(headers: &Vec<Header>) -> (trace: Self)
        ensures
            exists|fresh: Seq<char>, span: Seq<char>|
                is_hex_text(fresh, 32) && is_hex_text(span, 16) && #[trigger] trace.continues(
                    header_text(fields(headers@), "traceparent"@),
                    fresh,
                    span,
                ),
    {
        let inbound = find_text(headers, "traceparent");
        let fresh = generate_trace_id();
        let span = generate_span_id();
        Self::from_parts(inbound, fresh, span)
    }
}

/// The label under which a slow request is logged.
pub open spec fn slow_label(duration_ms: int) -> Option<Seq<char>> {
    if duration_ms >= 10_000 {
        Some("\u{1f534} CRITICAL >10s"@)
    } else if duration_ms >= 5_000 {
        Some("\u{1f534} VERY_SLOW >5s"@)
    } else if duration_ms >= 3_000 {
        Some("\u{1f7e0} SLOW >3s"@)
    } else if duration_ms >= 2_000 {
        Some("\u{1f7e0} SLOW >2s"@)
    } else if duration_ms >= 1_000 {
        Some("\u{1f7e1} SLOW >1s"@)
    } else if duration_ms >= 500 {
        Some("\u{1f7e1} SLOW >500ms"@)
    } else if duration_ms >= 200 {
        Some("\u{1f7e2} SLOW >200ms"@)
    } else {
        None
    }
}

/// The label under which a slow request is logged.
pub fn slow_request_level(duration_ms: u128) -> (label: Option<&'static str>)
    ensures
        match label {
            Some(text) => slow_label(duration_ms as int) == Some(text@),
            None => slow_label(duration_ms as int) is None,
        },
{
    if duration_ms >= 10_000 {
        Some("\u{1f534} CRITICAL >10s")
    } else if duration_ms >= 5_000 {
        Some("\u{1f534} VERY_SLOW >5s")
    } else if duration_ms >= 3_000 {
        Some("\u{1f7e0} SLOW >3s")
    } else if duration_ms >= 2_000 {
        Some("\u{1f7e0} SLOW >2s")
    } else if duration_ms >= 1_000 {
        Some("\u{1f7e1} SLOW >1s")
    } else if duration_ms >= 500 {
        Some("\u{1f7e1} SLOW >500ms")
    } else if duration_ms >= 200 {
        Some("\u{1f7e2} SLOW >200ms")
    } else {
        None
    }
}

/// How a response is logged.
#[derive(Debug, Clone, Copy, PartialEq, Eq, Structural)]
pub enum LogLevel {
    Error,
    Warn,
    Info,
}

/// How a response with this status is logged.
pub open spec fn status_level(status: u16) -> LogLevel {
    if 500 <= status < 600 {
        LogLevel::Error
    } else if 400 <= status < 500 {
        LogLevel::Warn
    } else {
        LogLevel::Info
    }
}

/// How a response with this status is logged.
pub fn response_log_level(status: u16) -> (level: LogLevel)
    ensures
        level == status_level(status),
{
    if 500 <= status && status < 600 {
        LogLevel::Error
    } else if 400 <= status && status < 500 {
        LogLevel::Warn
    } else {
        LogLevel::Info
    }
}

// ----- choosing the rule -----

/// The path that the rules are held against: without a leading `/proxy`.
pub open spec fn routed_path(path: Seq<char>) -> Seq<char> {
    match strip_prefix_spec(path, "/proxy"@) {
        Some(rest) => rest,
        None => path,
    }
}

/// The path that the rules are held against: without a leading `/proxy`.
pub fn match_path(path: &str) -> (rest: String)
    ensures
        rest@ == routed_path(path@),
{
    match without_prefix(path, "/proxy") {
        Some(rest) => rest,
        None => path.to_owned(),
    }
}

/// How specific a prefix is: its length in bytes, and a pattern is more so than any plain prefix of
/// ordinary length.
pub open spec fn prefix_score(prefix: Seq<char>) -> nat {
    encode_utf8(prefix).len() + if is_pattern(prefix) {
        1000nat
    } else {
        0
    }
}

/// How specific the most specific of the prefixes is.
pub open spec fn score(prefixes: Seq<Seq<char>>) -> nat
    decreases prefixes.len(),
{
    if prefixes.len() == 0 {
        0
    } else {
        let rest = score(prefixes.drop_last());
        let last = prefix_score(prefixes.last());
        if last > rest {
            last
        } else {
            rest
        }
    }
}

/// The rule takes the path and has a score.
pub open spec fn competes(rule: RouteRule, path: Seq<char>) -> bool {
    rule.takes(path) && score(texts(rule.prefix@)) > 0
}

/// The rule at `i` is the best for the path: of those that take it none has a higher score, and
/// none before it has the same.
pub open spec fn is_best(rules: Seq<RouteRule>, path: Seq<char>, i: int) -> bool {
    &&& 0 <= i < rules.len()
    &&& competes(rules[i], path)
    &&& forall|j: int|
        0 <= j < rules.len() && (#[trigger] rules[j]).takes(path) ==> {
            &&& score(texts(rules[j].prefix@)) <= score(texts(rules[i].prefix@))
            &&& j < i ==> score(texts(rules[j].prefix@)) < score(texts(rules[i].prefix@))
        }
}

/// How specific the most specific of the prefixes is.
fn score_of(prefixes: &Vec<String>) -> (best: u128)
    ensures
        best == score(texts(prefixes@)),
{
    let ghost all = texts(prefixes@);
    let mut best: u128 = 0;
    let mut i: usize = 0;
    assert(all.take(0) =~= Seq::<Seq<char>>::empty());
    while i < prefixes.len()
        invariant
            i <= prefixes@.len(),
            all == texts(prefixes@),
            best == score(all.take(i as int)),
        decreases prefixes@.len() - i,
    {
        assert(all.take(i + 1).drop_last() =~= all.take(i as int));
        assert(all.take(i + 1).last() == prefixes@[i as int]@);
        let bytes: usize = prefixes[i].as_str().as_bytes().len();
        let own: u128 = if holds_pattern(prefixes[i].as_str()) {
            1000 + bytes as u128
        } else {
            bytes as u128
        };
        if own > best {
            best = own;
        }
        i = i + 1;
    }
    assert(all.take(i as int) =~= all);
    best
}

/// The position of the best rule for the path.
pub fn best_index(rules: &Vec<RouteRule>, path: &str) -> (best: Option<usize>)
    ensures
        match best {
            Some(i) => is_best(rules@, path@, i as int),
            None => forall|i: int| 0 <= i < rules@.len() ==> !competes(#[trigger] rules@[i], path@),
        },
{
    let mut best: Option<usize> = None;
    let mut best_score: u128 = 0;
    let mut i: usize = 0;
    while i < rules.len()
        invariant
            i <= rules@.len(),
            match best {
                Some(k) => {
                    &&& k < i
                    &&& competes(rules@[k as int], path@)
                    &&& best_score == score(texts(rules@[k as int].prefix@))
                    &&& forall|j: int|
                        0 <= j < k && (#[trigger] rules@[j]).takes(path@) ==> score(
                            texts(rules@[j].prefix@),
                        ) < best_score
                },
                None => best_score == 0,
            },
            forall|j: int|
                0 <= j < i && (#[trigger] rules@[j]).takes(path@) ==> score(
                    texts(rules@[j].prefix@),
                ) <= best_score,
        decreases rules@.len() - i,
    {
        if rules[i].matches(path) {
            let own: u128 = score_of(&rules[i].prefix);
            if own > best_score {
                best_score = own;
                best = Some(i);
            }
        }
        i = i + 1;
    }
    best
}

/// The best rule for the path.
pub fn find_best_match<'a>(rules: &'a Vec<RouteRule>, path: &str) -> (found: Option<&'a RouteRule>)
    ensures
        match found {
            Some(rule) => exists|i: int| #[trigger]
                is_best(rules@, path@, i) && *rule == rules@[i],
            None => forall|i: int| 0 <= i < rules@.len() ==> !competes(#[trigger] rules@[i], path@),
        },
{
    match best_index(rules, path) {
        Some(i) => {
            assert(is_best(rules@, path@, i as int));
            Some(&rules[i])
        },
        None => None,
    }
}

/// A request that needs no authentication.
#[derive(Clone, Copy, Debug)]
pub struct WhitelistBypass;

/// The best rule for the request exempts its path.
pub open spec fn is_exempt(rules: Seq<RouteRule>, path: Seq<char>) -> bool {
    exists|i: int| #[trigger]
        is_best(rules, routed_path(path), i) && rules[i].whitelists(routed_path(path))
}

/// Whether a request with this path needs no authentication.
pub fn check_whitelist(rules: &Vec<RouteRule>, path: &str) -> (bypass: Option<WhitelistBypass>)
    ensures
        bypass is Some <==> is_exempt(rules@, path@),
{
    let rest = match_path(path);
    match best_index(rules, rest.as_str()) {
        Some(i) => {
            if rules[i].is_whitelist_hit(rest.as_str()) {
                assert(is_best(rules@, rest@, i as int));
                Some(WhitelistBypass)
            } else {
                proof {
                    if is_exempt(rules@, path@) {
                        let k = choose|k: int| #[trigger]
                            is_best(rules@, rest@, k) && rules@[k].whitelists(rest@);
                        lemma_best_is_unique(rules@, rest@, k, i as int);
                    }
                }
                None
            }
        },
        None => None,
    }
}

// ----- choosing the upstreams -----

/// The path behind the first of the prefixes from `from` on that it begins with, or the whole path
/// where it begins with none.
pub open spec fn forwarded(path: Seq<char>, prefixes: Seq<Seq<char>>, from: int) -> Seq<char>
    decreases prefixes.len() - from,
{
    if from < 0 || from >= prefixes.len() {
        path
    } else if starts_with(path, prefixes[from]) {
        path.skip(prefixes[from].len() as int)
    } else {
        forwarded(path, prefixes, from + 1)
    }
}

/// The path that is sent to the upstream.
pub fn reconstruct_forward_path(original_path: &str, prefixes: &Vec<String>) -> (path: String)
    ensures
        path@ == forwarded(original_path@, texts(prefixes@), 0),
{
    let mut i: usize = 0;
    while i < prefixes.len()
        invariant
            i <= prefixes@.len(),
            forwarded(original_path@, texts(prefixes@), 0) == forwarded(
                original_path@,
                texts(prefixes@),
                i as int,
            ),
        decreases prefixes@.len() - i,
    {
        assert(texts(prefixes@)[i as int] == prefixes@[i as int]@);
        if has_prefix(original_path, prefixes[i].as_str()) {
            return match without_prefix(original_path, prefixes[i].as_str()) {
                Some(rest) => rest,
                None => original_path.to_owned(),
            };
        }
        i = i + 1;
    }
    original_path.to_owned()
}

/// URL and weight of the upstreams that a rule sends to: the instances of its service, or else the
/// listed ones with equal weight.
pub open spec fn rule_upstreams(
    rule: RouteRule,
    services: Map<Seq<char>, Seq<ServiceInstance>>,
) -> Seq<(Seq<char>, u32)> {
    match rule.service_name {
        Some(name) => service_upstreams(services, name@),
        None => Seq::new(rule.upstream@.len(), |i: int| (rule.upstream@[i]@, 1u32)),
    }
}

/// The upstreams that a rule sends to.
pub fn upstreams_for(rule: &RouteRule, services: &ServiceTable) -> (list: Vec<WeightedUpstream>)
    ensures
        pairs(list@) == rule_upstreams(*rule, service_entries(*services)),
{
    match &rule.service_name {
        Some(name) => instances_to_weighted_upstreams(services, name.as_str()),
        None => {
            let mut list: Vec<WeightedUpstream> = Vec::new();
            let mut i: usize = 0;
            while i < rule.upstream.len()
                invariant
                    i <= rule.upstream@.len(),
                    list@.len() == i,
                    forall|k: int|
                        0 <= k < i ==> (#[trigger] list@[k]).url@ == rule.upstream@[k]@
                            && list@[k].weight == 1,
                decreases rule.upstream@.len() - i,
            {
                list.push(WeightedUpstream { url: rule.upstream[i].clone(), weight: 1 });
                i = i + 1;
            }
            assert(pairs(list@) =~= rule_upstreams(*rule, service_entries(*services)));
            list
        },
    }
}

/// The URLs of the pairs.
pub open spec fn pair_urls(list: Seq<(Seq<char>, u32)>) -> Seq<Seq<char>> {
    Seq::new(list.len(), |i: int| list[i].0)
}

/// The URL is among the given ones.
pub open spec fn url_among(urls: Seq<Seq<char>>) -> spec_fn((Seq<char>, u32)) -> bool {
    |pair: (Seq<char>, u32)| urls.contains(pair.0)
}

/// The upstreams that are healthy, or all of them where none is, or where health is not watched.
pub open spec fn in_service(
    list: Seq<(Seq<char>, u32)>,
    health: Option<Map<Seq<char>, UpstreamHealth>>,
) -> Seq<(Seq<char>, u32)> {
    match health {
        Some(entries) => list.filter(url_among(usable(pair_urls(list), entries))),
        None => list,
    }
}

/// The entries of the table, where there is one.
pub open spec fn watched(health: Option<&SharedHealthStatus>) -> Option<
    Map<Seq<char>, UpstreamHealth>,
> {
    match health {
        Some(table) => Some(health_entries(*table)),
        None => None,
    }
}

/// The upstreams that are healthy, or all of them where none is, or where health is not watched.
pub fn keep_healthy(
    upstreams: Vec<WeightedUpstream>,
    health: Option<&SharedHealthStatus>,
) -> (kept: Vec<WeightedUpstream>)
    ensures
        pairs(kept@) == in_service(pairs(upstreams@), watched(health)),
        upstreams@.len() > 0 ==> kept@.len() > 0,
{
    match health {
        Some(table) => {
            let all_urls = urls(&upstreams);
            let usable_urls = filter_healthy_upstreams(all_urls.as_slice(), table);
            let ghost all = pairs(upstreams@);
            let ghost among = url_among(texts(usable_urls@));
            assert(texts(all_urls@) =~= pair_urls(all));
            let mut kept: Vec<WeightedUpstream> = Vec::new();
            let mut i: usize = 0;
            proof {
                reveal(Seq::filter);
                assert(pairs(kept@) =~= all.take(0).filter(among));
            }
            while i < upstreams.len()
                invariant
                    i <= upstreams@.len(),
                    all == pairs(upstreams@),
                    among == url_among(texts(usable_urls@)),
                    pairs(kept@) == all.take(i as int).filter(among),
                decreases upstreams@.len() - i,
            {
                let ghost before = kept@;
                let ghost seen = all.take(i as int);
                proof {
                    assert(all.take(i + 1) =~= seen.push(all[i as int]));
                    assert(seen.push(all[i as int]).drop_last() =~= seen);
                    reveal(Seq::filter);
                }
                if lists(&usable_urls, upstreams[i].url.as_str()) {
                    kept.push(upstreams[i].clone());
                    assert(pairs(kept@) =~= pairs(before).push(all[i as int]));
                }
                i = i + 1;
            }
            proof {
                assert(all.take(i as int) =~= all);
                if upstreams@.len() > 0 {
                    lemma_in_service_nonempty(all, Some(health_entries(*table)));
                    assert(pairs(kept@).len() > 0);
                }
            }
            kept
        },
        None => upstreams,
    }
}

/// Where a request can go: the upstreams of the best rule for its path that are in service, and the
/// path that is sent to them.
#[derive(Debug)]
pub struct RoutePlan {
    pub prefix: Vec<String>,
    pub strategy: String,
    pub upstreams: Vec<WeightedUpstream>,
    pub forward_path: String,
}

/// The best rule for the path is the one at `i`, and it has an upstream.
pub open spec fn leads_to(
    rules: Seq<RouteRule>,
    services: Map<Seq<char>, Seq<ServiceInstance>>,
    path: Seq<char>,
    i: int,
) -> bool {
    is_best(rules, path, i) && rule_upstreams(rules[i], services).len() > 0
}

/// The plan is the one for a path: that of the best rule, if it has an upstream.
pub open spec fn is_plan(
    plan: RoutePlan,
    rules: Seq<RouteRule>,
    services: Map<Seq<char>, Seq<ServiceInstance>>,
    health: Option<Map<Seq<char>, UpstreamHealth>>,
    path: Seq<char>,
) -> bool {
    &&& plan.upstreams@.len() > 0
    &&& exists|i: int| #[trigger]
        leads_to(rules, services, path, i) && {
            &&& texts(plan.prefix@) == texts(rules[i].prefix@)
            &&& plan.strategy == rules[i].strategy
            &&& pairs(plan.upstreams@) == in_service(rule_upstreams(rules[i], services), health)
            &&& plan.forward_path@ == forwarded(path, texts(rules[i].prefix@), 0)
        }
}

/// A copy of the strings.
fn copy_texts(list: &Vec<String>) -> (copy: Vec<String>)
    ensures
        texts(copy@) == texts(list@),
{
    let mut copy: Vec<String> = Vec::new();
    let mut i: usize = 0;
    while i < list.len()
        invariant
            i <= list@.len(),
            copy@.len() == i,
            forall|k: int| 0 <= k < i ==> #[trigger] copy@[k] == list@[k],
        decreases list@.len() - i,
    {
        copy.push(list[i].clone());
        i = i + 1;
    }
    assert(texts(copy@) =~= texts(list@));
    copy
}

/// Where a request with this path can go. Without a rule for it, or without an upstream, it can go
/// nowhere.
pub fn plan_route(
    rules: &Vec<RouteRule>,
    path: &str,
    services: &ServiceTable,
    health: Option<&SharedHealthStatus>,
) -> (plan: Option<RoutePlan>)
    ensures
        match plan {
            Some(p) => is_plan(
                p,
                rules@,
                service_entries(*services),
                watched(health),
                path@,
            ),
            None => forall|i: int| !#[trigger]
                leads_to(rules@, service_entries(*services), path@, i),
        },
{
    match best_index(rules, path) {
        Some(i) => {
            let rule = &rules[i];
            let all = upstreams_for(rule, services);
            assert(pairs(all@).len() == all@.len());
            if all.len() == 0 {
                proof {
                    assert forall|k: int| !#[trigger]
                        leads_to(rules@, service_entries(*services), path@, k) by {
                        if is_best(rules@, path@, k) {
                            lemma_best_is_unique(rules@, path@, k, i as int);
                        }
                    }
                }
                return None;
            }
            assert(leads_to(rules@, service_entries(*services), path@, i as int));
            Some(
                RoutePlan {
                    prefix: copy_texts(&rule.prefix),
                    strategy: rule.strategy.clone(),
                    upstreams: keep_healthy(all, health),
                    forward_path: reconstruct_forward_path(path, &rule.prefix),
                },
            )
        },
        None => None,
    }
}

/// Where a request goes.
#[derive(Debug)]
pub enum RouteChoice {
    /// Nowhere: there is no rule for it, or no upstream.
    Nowhere,
    /// The weights of its upstreams add up to more than the balancer can draw from.
    Overweight,
    /// To an upstream, with the path that is sent to it.
    To { upstream: String, forward_path: String },
}

/// The balancer of the plan's route can take the plan's upstreams.
pub open spec fn plan_fits(plan: RoutePlan, balancers: Map<Seq<char>, Balancer>) -> bool {
    accepts(
        slot(balancers, plan.strategy@, texts(plan.prefix@), plan.upstreams@),
        plan.upstreams@,
    )
}

/// Chooses where a request with this path goes.
pub fn choose_route(
    rules: &Vec<RouteRule>,
    path: &str,
    services: &ServiceTable,
    health: Option<&SharedHealthStatus>,
    balancers: &mut BalancerTable,
    client: Option<&ClientAddr>,
) -> (choice: RouteChoice)
    ensures
        match choice {
            RouteChoice::Nowhere => {
                &&& forall|i: int| !#[trigger]
                    leads_to(rules@, service_entries(*services), path@, i)
                &&& balancer_entries(*final(balancers)) == balancer_entries(*old(balancers))
            },
            RouteChoice::Overweight => {
                &&& exists|plan: RoutePlan| #[trigger]
                    is_plan(
                        plan,
                        rules@,
                        service_entries(*services),
                        watched(health),
                        path@,
                    ) && !plan_fits(plan, balancer_entries(*old(balancers)))
                &&& balancer_entries(*final(balancers)) == balancer_entries(*old(balancers))
            },
            RouteChoice::To { upstream, forward_path } => exists|plan: RoutePlan| #[trigger]
                is_plan(plan, rules@, service_entries(*services), watched(health), path@) && {
                    &&& plan_fits(plan, balancer_entries(*old(balancers)))
                    &&& forward_path == plan.forward_path
                    &&& urls_of(plan.upstreams@).contains(upstream@)
                    &&& selected(
                        balancer_entries(*old(balancers)),
                        balancer_entries(*final(balancers)),
                        plan.strategy@,
                        texts(plan.prefix@),
                        plan.upstreams@,
                        client_ip_of(client),
                        upstream@,
                    )
                },
        },
{
    match plan_route(rules, path, services, health) {
        Some(plan) => {
            let fits: bool = accepts_upstreams(
                balancers,
                &plan.prefix,
                &plan.upstreams,
                plan.strategy.as_str(),
            );
            assert(is_plan(plan, rules@, service_entries(*services), watched(health), path@));
            if !fits {
                return RouteChoice::Overweight;
            }
            let upstream = select_upstream(
                balancers,
                &plan.prefix,
                &plan.upstreams,
                plan.strategy.as_str(),
                client,
            );
            RouteChoice::To { upstream, forward_path: plan.forward_path.clone() }
        },
        None => RouteChoice::Nowhere,
    }
}

// ----- what is sent -----

/// The query with its question mark, or nothing.
pub open spec fn query_suffix(query: Option<Seq<char>>) -> Seq<char> {
    match query {
        Some(q) => "?"@ + q,
        None => Seq::empty(),
    }
}

/// The address that a request is forwarded to.
pub open spec fn forward_address(
    upstream: Seq<char>,
    forward_path: Seq<char>,
    query: Option<Seq<char>>,
) -> Seq<char> {
    upstream + forward_path + query_suffix(query)
}

/// The address that a request is forwarded to.
pub fn forward_url(upstream: &str, forward_path: &str, query: &Option<String>) -> (url: String)
    ensures
        url@ == forward_address(upstream@, forward_path@, opt_text(*query)),
{
    let suffix = match query {
        Some(q) => concat2("?", q.as_str()),
        None => String::new(),
    };
    concat3(upstream, forward_path, suffix.as_str())
}

/// The fields that are sent to the upstream: those of the trace, in place of any that the request
/// brings, then those of the request but for `host`.
pub open spec fn outbound_fields(
    trace: TraceContext,
    inbound: Seq<(Seq<char>, Seq<u8>)>,
) -> Seq<(Seq<char>, Seq<u8>)> {
    seq![
        ("traceparent"@, encode_utf8(trace.traceparent@)),
        ("x-request-id"@, encode_utf8(trace.trace_id@)),
    ] + without(without(without(inbound, "traceparent"@), "x-request-id"@), "host"@)
}

/// The fields that are sent to the upstream.
pub fn outbound_headers(trace: &TraceContext, headers: &Vec<Header>) -> (list: Vec<Header>)
    ensures
        fields(list@) == outbound_fields(*trace, fields(headers@)),
{
    let mut list: Vec<Header> = Vec::new();
    assert(fields(list@) =~= Seq::empty());
    push_header(&mut list, "traceparent", bytes_of(trace.traceparent.as_str()));
    push_header(&mut list, "x-request-id", bytes_of(trace.trace_id.as_str()));
    let own = headers_without(&headers_without(headers, "traceparent"), "x-request-id");
    append_without(&mut list, &own, "host");
    assert(fields(list@) =~= outbound_fields(*trace, fields(headers@)));
    list
}

/// The name of the user that the request was found to come from, or `0`.
pub open spec fn user_of(fields: Seq<(Seq<char>, Seq<u8>)>) -> Seq<char> {
    match header_text(fields, "x-user-id"@) {
        Some(user) => user,
        None => "0"@,
    }
}

/// The parameters other than the token.
pub open spec fn without_token(parameters: Seq<Seq<char>>) -> Seq<Seq<char>>
    decreases parameters.len(),
{
    if parameters.len() == 0 {
        Seq::empty()
    } else {
        let rest = without_token(parameters.drop_last());
        if before_first(parameters.last(), '=') == "token"@ {
            rest
        } else {
            rest.push(parameters.last())
        }
    }
}

/// The parameters of a WebSocket connection: the user, then those of the request but for the token.
pub open spec fn websocket_parameters(user: Seq<char>, query: Option<Seq<char>>) -> Seq<Seq<char>> {
    seq!["uid="@ + user] + match query {
        Some(q) => without_token(split(q, '&')),
        None => Seq::empty(),
    }
}

/// The query of a WebSocket connection to the upstream.
pub fn websocket_query(user: &str, query: &Option<String>) -> (text: String)
    ensures
        text@ == "?"@ + join(websocket_parameters(user@, opt_text(*query)), "&"@),
{
    let mut list: Vec<String> = Vec::new();
    list.push(concat2("uid=", user));
    let ghost first = seq!["uid="@ + user@];
    assert(texts(list@) =~= first);
    match query {
        Some(q) => {
            let pieces = split_text(q.as_str(), '&');
            let ghost all = texts(pieces@);
            let mut i: usize = 0;
            assert(texts(list@) =~= first + without_token(all.take(0)));
            while i < pieces.len()
                invariant
                    i <= pieces@.len(),
                    all == texts(pieces@),
                    texts(list@) == first + without_token(all.take(i as int)),
                decreases pieces@.len() - i,
            {
                let name = text_before(pieces[i].as_str(), '=');
                assert(all.take(i + 1).drop_last() =~= all.take(i as int));
                assert(all.take(i + 1).last() == pieces@[i as int]@);
                if !str_eq(name.as_str(), "token") {
                    let ghost before = list@;
                    list.push(pieces[i].clone());
                    assert(texts(list@) =~= texts(before).push(pieces@[i as int]@));
                    assert(texts(list@) =~= first + without_token(all.take(i + 1)));
                }
                i = i + 1;
            }
            assert(all.take(i as int) =~= all);
        },
        None => {
            assert(texts(list@) =~= first + Seq::<Seq<char>>::empty());
        },
    }
    assert(texts(list@) == websocket_parameters(user@, opt_text(*query)));
    concat2("?", join_texts(&list, "&").as_str())
}

/// The address with the WebSocket scheme in place of the HTTP one.
pub open spec fn websocket_scheme(upstream: Seq<char>) -> Seq<char> {
    replace_all(replace_all(upstream, "http://"@, "ws://"@), "https://"@, "wss://"@)
}

/// The address of a WebSocket connection to the upstream. Where nothing is left of the path, the
/// whole path is kept.
pub open spec fn tunnel_address(
    upstream: Seq<char>,
    forward_path: Seq<char>,
    whole_path: Seq<char>,
    user: Seq<char>,
    query: Option<Seq<char>>,
) -> Seq<char> {
    let path = if forward_path.len() == 0 {
        whole_path
    } else {
        forward_path
    };
    websocket_scheme(upstream) + path + ("?"@ + join(websocket_parameters(user, query), "&"@))
}

/// The address of a WebSocket connection to the upstream.
pub fn websocket_url(
    upstream: &str,
    forward_path: &str,
    whole_path: &str,
    headers: &Vec<Header>,
    query: &Option<String>,
) -> (url: String)
    ensures
        url@ == tunnel_address(
            upstream@,
            forward_path@,
            whole_path@,
            user_of(fields(headers@)),
            opt_text(*query),
        ),
{
    proof {
        reveal_strlit("http://");
        reveal_strlit("https://");
    }
    let user = match find_text(headers, "x-user-id") {
        Some(user) => user,
        None => "0".to_owned(),
    };
    let text = websocket_query(user.as_str(), query);
    let plain = replaced(upstream, "http://", "ws://");
    let scheme = replaced(plain.as_str(), "https://", "wss://");
    if forward_path.unicode_len() == 0 {
        concat3(scheme.as_str(), whole_path, text.as_str())
    } else {
        concat3(scheme.as_str(), forward_path, text.as_str())
    }
}

/// What is done with a request once it is known where it goes.
#[derive(Debug)]
pub enum Dispatch {
    /// A WebSocket connection to this address.
    Tunnel(String),
    /// A request to this address, with these fields.
    Forward(String, Vec<Header>),
}

/// What is done with a request that goes to the given upstream.
pub fn dispatch(
    head: &RequestHead,
    trace: &TraceContext,
    upstream: &str,
    forward_path: &str,
) -> (next: Dispatch)
    ensures
        match next {
            Dispatch::Tunnel(url) => asks_for_websocket(fields(head.headers@)) && url@
                == tunnel_address(
                upstream@,
                forward_path@,
                routed_path(head.path@),
                user_of(fields(head.headers@)),
                opt_text(head.query),
            ),
            Dispatch::Forward(url, list) => {
                &&& !asks_for_websocket(fields(head.headers@))
                &&& url@ == forward_address(upstream@, forward_path@, opt_text(head.query))
                &&& fields(list@) == outbound_fields(*trace, fields(head.headers@))
            },
        },
{
    if is_websocket_upgrade(&head.headers) {
        let whole = match_path(head.path.as_str());
        Dispatch::Tunnel(
            websocket_url(upstream, forward_path, whole.as_str(), &head.headers, &head.query),
        )
    } else {
        Dispatch::Forward(
            forward_url(upstream, forward_path, &head.query),
            outbound_headers(trace, &head.headers),
        )
    }
}

// ----- what is answered -----

/// The fields of the trace in a response.
pub open spec fn trace_fields(trace: TraceContext) -> Seq<(Seq<char>, Seq<u8>)> {
    seq![
        ("traceparent"@, encode_utf8(trace.traceparent@)),
        ("x-trace-id"@, encode_utf8(trace.short@)),
    ]
}

/// The fields of the answer: those of the upstream's, those of the trace, and a content type where
/// the upstream gave none.
pub open spec fn answer_fields(
    trace: TraceContext,
    upstream: Seq<(Seq<char>, Seq<u8>)>,
) -> Seq<(Seq<char>, Seq<u8>)> {
    let list = upstream + trace_fields(trace);
    if has_field(upstream, "content-type"@) {
        list
    } else {
        list.push(("content-type"@, encode_utf8("application/octet-stream"@)))
    }
}

/// The fields of the answer to a request that an upstream has answered.
pub fn answer_headers(trace: &TraceContext, upstream: Vec<Header>) -> (list: Vec<Header>)
    ensures
        fields(list@) == answer_fields(*trace, fields(upstream@)),
{
    let ghost given = fields(upstream@);
    let typed: bool = has_header(&upstream, "content-type");
    let mut list = upstream;
    push_header(&mut list, "traceparent", bytes_of(trace.traceparent.as_str()));
    push_header(&mut list, "x-trace-id", bytes_of(trace.short.as_str()));
    assert(fields(list@) =~= given + trace_fields(*trace));
    if !typed {
        push_header(&mut list, "content-type", bytes_of("application/octet-stream"));
    }
    list
}

/// The reply says that the gateway could not reach an upstream, and why.
pub open spec fn is_bad_gateway(reply: Reply, trace: TraceContext, error: Seq<char>) -> bool {
    &&& reply.status == 502
    &&& fields(reply.headers@) == seq![
        ("content-type"@, encode_utf8("application/json; charset=utf-8"@)),
    ] + trace_fields(trace)
    &&& reply.body@ == "{\"error\":\""@ + error + "\"}"@
}

fn bad_gateway(trace: &TraceContext, error: &str) -> (reply: Reply)
    ensures
        is_bad_gateway(reply, *trace, error@),
{
    let mut list: Vec<Header> = Vec::new();
    assert(fields(list@) =~= Seq::empty());
    push_header(&mut list, "content-type", bytes_of("application/json; charset=utf-8"));
    push_header(&mut list, "traceparent", bytes_of(trace.traceparent.as_str()));
    push_header(&mut list, "x-trace-id", bytes_of(trace.short.as_str()));
    assert(fields(list@) =~= seq![
        ("content-type"@, encode_utf8("application/json; charset=utf-8"@)),
    ] + trace_fields(*trace));
    Reply { status: 502, headers: list, body: concat3("{\"error\":\"", error, "\"}") }
}

/// The error of a request that can go nowhere.
pub open spec fn no_upstream_error(path: Seq<char>) -> Seq<char> {
    "No upstream configured for path: "@ + path
}

/// The error of a request that the upstream did not answer.
pub open spec fn upstream_failure_error(error: Seq<char>) -> Seq<char> {
    "Proxy error: "@ + error
}

/// The answer to a request that can go nowhere.
pub fn no_upstream_reply(trace: &TraceContext, path: &str) -> (reply: Reply)
    ensures
        is_bad_gateway(reply, *trace, no_upstream_error(path@)),
{
    bad_gateway(trace, concat2("No upstream configured for path: ", path).as_str())
}

/// The answer to a request that the upstream did not answer.
pub fn upstream_failure_reply(trace: &TraceContext, error: &str) -> (reply: Reply)
    ensures
        is_bad_gateway(reply, *trace, upstream_failure_error(error@)),
{
    bad_gateway(trace, concat2("Proxy error: ", error).as_str())
}

// ----- laws -----

/// What is passed on as `traceparent` names the trace of the request: whoever continues it, carries
/// the same trace on.
pub proof fn lemma_trace_is_carried_on(
    trace: TraceContext,
    inbound: Option<Seq<char>>,
    fresh: Seq<char>,
    span: Seq<char>,
)
    requires
        trace.continues(inbound, fresh, span),
        is_hex_text(fresh, 32),
    ensures
        trace_part(trace.traceparent@) == Some(trace.trace_id@),
{
    let id = trace.trace_id@;
    let tail = "-"@ + span + "-01"@;
    let whole = "00-"@ + id + tail;
    reveal_strlit("00-");
    reveal_strlit("-");
    if id == fresh {
        assert(is_ascii_chars(fresh));
        is_ascii_chars_encode_utf8(fresh);
        assert forall|k: int| 0 <= k < id.len() implies id[k] != '-' by {
            assert(is_lower_hex(fresh[k]));
        }
    } else {
        lemma_split_pieces(inbound->0, '-', 1);
        assert forall|k: int| 0 <= k < id.len() implies id[k] != '-' by {
            assert(id.contains(id[k]));
        }
    }
    assert(encode_utf8(id).len() == 32);
    let rest = whole.skip(3);
    lemma_split_step(whole, '-', 2);
    assert(rest =~= id + tail);
    lemma_split_step(rest, '-', id.len() as int);
    assert(rest.take(id.len() as int) =~= id);
    let end = rest.skip(id.len() as int + 1);
    crate::text::lemma_split_nonempty(end, '-');
    let parts = split(whole, '-');
    assert(parts[1] == split(rest, '-')[0]);
    assert(parts.len() >= 3);
}

/// The upstream gets one `traceparent` and one `x-request-id`, those of the trace, whatever the
/// request brought; the request's `host` is dropped, and every other field is passed on with all of
/// its values.
pub proof fn lemma_outbound_values(
    trace: TraceContext,
    inbound: Seq<(Seq<char>, Seq<u8>)>,
    other: Seq<char>,
)
    ensures
        ({
            let sent = outbound_fields(trace, inbound);
            &&& values_of(sent, "traceparent"@) == seq![encode_utf8(trace.traceparent@)]
            &&& values_of(sent, "x-request-id"@) == seq![encode_utf8(trace.trace_id@)]
            &&& values_of(sent, "host"@) == Seq::<Seq<u8>>::empty()
            &&& !same_name(other, "traceparent"@) && !same_name(other, "x-request-id"@)
                && !same_name(other, "host"@) ==> values_of(sent, other) == values_of(
                inbound,
                other,
            )
        }),
{
    reveal_strlit("traceparent");
    reveal_strlit("x-request-id");
    reveal_strlit("host");
    assert("traceparent"@.len() != "x-request-id"@.len());
    assert("traceparent"@.len() != "host"@.len());
    assert("x-request-id"@.len() != "host"@.len());
    lemma_outbound_values_of(trace, inbound, "traceparent"@);
    lemma_outbound_values_of(trace, inbound, "x-request-id"@);
    lemma_outbound_values_of(trace, inbound, "host"@);
    lemma_outbound_values_of(trace, inbound, other);
}

proof fn lemma_outbound_values_of(
    trace: TraceContext,
    inbound: Seq<(Seq<char>, Seq<u8>)>,
    name: Seq<char>,
)
    requires
        "traceparent"@.len() != "x-request-id"@.len(),
    ensures
        values_of(outbound_fields(trace, inbound), name) == (if same_name(name, "traceparent"@) {
            seq![encode_utf8(trace.traceparent@)]
        } else if same_name(name, "x-request-id"@) {
            seq![encode_utf8(trace.trace_id@)]
        } else if same_name(name, "host"@) {
            Seq::<Seq<u8>>::empty()
        } else {
            values_of(inbound, name)
        }),
{
    let first = ("traceparent"@, encode_utf8(trace.traceparent@));
    let second = ("x-request-id"@, encode_utf8(trace.trace_id@));
    let own = seq![first, second];
    let one = without(inbound, "traceparent"@);
    let two = without(one, "x-request-id"@);
    let rest = without(two, "host"@);
    lemma_values_concat(own, rest, name);
    lemma_values_without(inbound, "traceparent"@, name);
    lemma_values_without(one, "x-request-id"@, name);
    lemma_values_without(two, "host"@, name);
    reveal_with_fuel(values_of, 3);
    assert(own.drop_last() =~= seq![first]);
    assert(own.drop_last().drop_last() =~= Seq::<(Seq<char>, Seq<u8>)>::empty());
    if same_name(name, first.0) {
        lemma_same_name(first.0, name, first.0);
    } else if same_name(first.0, name) {
        lemma_same_name(name, first.0, name);
    }
    if same_name(name, second.0) {
        lemma_same_name(second.0, name, second.0);
    } else if same_name(second.0, name) {
        lemma_same_name(name, second.0, name);
    }
    assert(values_of(own, name) =~= if same_name(name, "traceparent"@) {
        seq![first.1]
    } else if same_name(name, "x-request-id"@) {
        seq![second.1]
    } else {
        Seq::<Seq<u8>>::empty()
    });
}

/// A rule with a pattern goes before every rule with plain prefixes of up to 1000 bytes only.
pub proof fn lemma_pattern_goes_first(
    rules: Seq<RouteRule>,
    path: Seq<char>,
    i: int,
    best: int,
)
    requires
        0 <= i < rules.len(),
        rules[i].takes(path),
        exists|k: int|
            0 <= k < rules[i].prefix@.len() && is_pattern((#[trigger] rules[i].prefix@[k])@),
        is_best(rules, path, best),
        forall|k: int|
            0 <= k < rules[best].prefix@.len() ==> encode_utf8(
                (#[trigger] rules[best].prefix@[k])@,
            ).len() <= 1000,
    ensures
        exists|k: int|
            0 <= k < rules[best].prefix@.len() && is_pattern(
                (#[trigger] rules[best].prefix@[k])@,
            ),
{
    let k = choose|k: int|
        0 <= k < rules[i].prefix@.len() && is_pattern((#[trigger] rules[i].prefix@[k])@);
    let own = texts(rules[i].prefix@);
    let top = texts(rules[best].prefix@);
    lemma_score_bounds(own, k);
    assert(own[k] == rules[i].prefix@[k]@);
    assert(own[k].len() > 0);
    lemma_encoding_nonempty(own[k]);
    if forall|k: int| 0 <= k < top.len() ==> !is_pattern(#[trigger] top[k]) {
        assert forall|k: int| 0 <= k < top.len() implies prefix_score(#[trigger] top[k])
            <= 1000 by {
            assert(top[k] == rules[best].prefix@[k]@);
        }
        lemma_score_at_most(top, 1000);
    } else {
        let k = choose|k: int| 0 <= k < top.len() && is_pattern(#[trigger] top[k]);
        assert(top[k] == rules[best].prefix@[k]@);
    }
}

proof fn lemma_encoding_nonempty(s: Seq<char>)
    requires
        s.len() > 0,
    ensures
        encode_utf8(s).len() > 0,
{
    if encode_utf8(s).len() == 0 {
        vstd::utf8::encode_utf8_decode_utf8(s);
        assert(encode_utf8(s) =~= Seq::<u8>::empty());
        assert(vstd::utf8::decode_utf8(Seq::<u8>::empty()).len() == 0);
    }
}

proof fn lemma_score_bounds(prefixes: Seq<Seq<char>>, k: int)
    requires
        0 <= k < prefixes.len(),
    ensures
        score(prefixes) >= prefix_score(prefixes[k]),
    decreases prefixes.len(),
{
    if k < prefixes.len() - 1 {
        lemma_score_bounds(prefixes.drop_last(), k);
    }
}

proof fn lemma_score_at_most(prefixes: Seq<Seq<char>>, bound: nat)
    requires
        forall|k: int| 0 <= k < prefixes.len() ==> prefix_score(#[trigger] prefixes[k]) <= bound,
    ensures
        score(prefixes) <= bound,
    decreases prefixes.len(),
{
    if prefixes.len() > 0 {
        let front = prefixes.drop_last();
        assert forall|k: int| 0 <= k < front.len() implies prefix_score(#[trigger] front[k])
            <= bound by {
            assert(front[k] == prefixes[k]);
        }
        lemma_score_at_most(front, bound);
        assert(prefixes.last() == prefixes[prefixes.len() - 1]);
    }
}

/// There is one best rule for a path at most.
pub proof fn lemma_best_is_unique(rules: Seq<RouteRule>, path: Seq<char>, i: int, j: int)
    requires
        is_best(rules, path, i),
        is_best(rules, path, j),
    ensures
        i == j,
{
    assert(rules[i].takes(path));
    assert(rules[j].takes(path));
}

/// A path that some rule with a score takes has a best rule.
pub proof fn lemma_best_exists(rules: Seq<RouteRule>, path: Seq<char>, k: int)
    requires
        0 <= k < rules.len(),
        competes(rules[k], path),
    ensures
        exists|i: int| #[trigger] is_best(rules, path, i),
    decreases rules.len(),
{
    let last = rules.len() - 1;
    let front = rules.drop_last();
    if exists|j: int| 0 <= j < last && competes(#[trigger] rules[j], path) {
        let j = choose|j: int| 0 <= j < last && competes(#[trigger] rules[j], path);
        assert(front[j] == rules[j]);
        lemma_best_exists(front, path, j);
        let b = choose|b: int| #[trigger] is_best(front, path, b);
        if rules[last].takes(path) && score(texts(rules[last].prefix@)) > score(
            texts(rules[b].prefix@),
        ) {
            assert forall|j: int|
                0 <= j < rules.len() && (#[trigger] rules[j]).takes(path) implies {
                &&& score(texts(rules[j].prefix@)) <= score(texts(rules[last].prefix@))
                &&& j < last ==> score(texts(rules[j].prefix@)) < score(
                    texts(rules[last].prefix@),
                )
            } by {
                if j < last {
                    assert(front[j].takes(path));
                }
            }
            assert(is_best(rules, path, last));
        } else {
            assert forall|j: int|
                0 <= j < rules.len() && (#[trigger] rules[j]).takes(path) implies {
                &&& score(texts(rules[j].prefix@)) <= score(texts(rules[b].prefix@))
                &&& j < b ==> score(texts(rules[j].prefix@)) < score(texts(rules[b].prefix@))
            } by {
                if j < last {
                    assert(front[j].takes(path));
                }
            }
            assert(is_best(rules, path, b));
        }
    } else {
        assert(k == last);
        assert forall|j: int| 0 <= j < rules.len() && (#[trigger] rules[j]).takes(path) implies {
            &&& score(texts(rules[j].prefix@)) <= score(texts(rules[last].prefix@))
            &&& j < last ==> score(texts(rules[j].prefix@)) < score(texts(rules[last].prefix@))
        } by {
            if j < last {
                assert(!competes(rules[j], path));
            }
        }
        assert(is_best(rules, path, last));
    }
}

/// Upstreams are never all taken out of service: where a rule has an upstream, one is left.
pub proof fn lemma_in_service_nonempty(
    list: Seq<(Seq<char>, u32)>,
    health: Option<Map<Seq<char>, UpstreamHealth>>,
)
    requires
        list.len() > 0,
    ensures
        in_service(list, health).len() > 0,
{
    if health is Some {
        let entries = health->0;
        let urls = pair_urls(list);
        let left = usable(urls, entries);
        lemma_usable_nonempty(urls, entries);
        let url = left[0];
        assert(left.contains(url));
        assert(urls.contains(url));
        let k = urls.index_of(url);
        lemma_filter_keeps(list, url_among(left), k);
    }
}

/// While one of the upstreams is healthy, no request goes to one that is not.
pub proof fn lemma_unhealthy_is_skipped(
    list: Seq<(Seq<char>, u32)>,
    entries: Map<Seq<char>, UpstreamHealth>,
    k: int,
)
    requires
        0 <= k < in_service(list, Some(entries)).len(),
        exists|i: int| 0 <= i < list.len() && counts_as_healthy(entries)((#[trigger] list[i]).0),
    ensures
        counts_as_healthy(entries)(in_service(list, Some(entries))[k].0),
{
    let urls = pair_urls(list);
    let left = usable(urls, entries);
    let i = choose|i: int|
        0 <= i < list.len() && counts_as_healthy(entries)((#[trigger] list[i]).0);
    assert(counts_as_healthy(entries)(urls[i]));
    lemma_usable_nonempty(urls, entries);
    lemma_filter_holds(list, url_among(left), k);
    assert(left.contains(in_service(list, Some(entries))[k].0));
}

proof fn lemma_filter_holds(
    list: Seq<(Seq<char>, u32)>,
    pred: spec_fn((Seq<char>, u32)) -> bool,
    k: int,
)
    requires
        0 <= k < list.filter(pred).len(),
    ensures
        pred(list.filter(pred)[k]),
    decreases list.len(),
{
    reveal(Seq::filter);
    if list.len() > 0 {
        let front = list.drop_last().filter(pred);
        if k < front.len() {
            lemma_filter_holds(list.drop_last(), pred, k);
        }
    }
}

proof fn lemma_filter_keeps(
    list: Seq<(Seq<char>, u32)>,
    pred: spec_fn((Seq<char>, u32)) -> bool,
    k: int,
)
    requires
        0 <= k < list.len(),
        pred(list[k]),
    ensures
        list.filter(pred).len() > 0,
    decreases list.len(),
{
    reveal(Seq::filter);
    if k < list.len() - 1 {
        lemma_filter_keeps(list.drop_last(), pred, k);
    }
}

/// A token that came in the query does not reach the upstream of a WebSocket connection: no
/// parameter that is passed on has the name `token`.
pub proof fn lemma_token_is_not_passed_on(parameters: Seq<Seq<char>>)
    ensures
        forall|i: int|
            0 <= i < without_token(parameters).len() ==> before_first(
                #[trigger] without_token(parameters)[i],
                '=',
            ) != "token"@,
        forall|p: Seq<char>|
            parameters.contains(p) && before_first(p, '=') != "token"@ ==> #[trigger] without_token(
                parameters,
            ).contains(p),
    decreases parameters.len(),
{
    if parameters.len() > 0 {
        let front = parameters.drop_last();
        lemma_token_is_not_passed_on(front);
        let rest = without_token(front);
        let all = without_token(parameters);
        assert forall|p: Seq<char>|
            parameters.contains(p) && before_first(p, '=') != "token"@ implies #[trigger]
            all.contains(p) by {
            let i = parameters.index_of(p);
            if i < front.len() {
                assert(front[i] == p);
                assert(rest.contains(p));
                assert(all[rest.index_of(p)] == p);
            } else {
                assert(p == parameters.last());
                assert(all[all.len() - 1] == p);
            }
        }
    }
}

/// A request that has not been checked has no user: the upstream of its WebSocket connection sees
/// the user `0`, whatever the request claimed.
pub proof fn lemma_unchecked_user(fields: Seq<(Seq<char>, Seq<u8>)>)
    ensures
        user_of(without_identity(fields)) == "0"@,
{
    lemma_claimed_identity_is_dropped(fields, "x-user-id"@);
}

/// What is left of a path behind its prefix, put behind the prefix again, is the path.
pub proof fn lemma_forwarded_rejoins(path: Seq<char>, prefixes: Seq<Seq<char>>, from: int)
    requires
        0 <= from <= prefixes.len(),
    ensures
        forwarded(path, prefixes, from) == path || exists|i: int|
            from <= i < prefixes.len() && #[trigger] prefixes[i] + forwarded(path, prefixes, from)
                == path,
    decreases prefixes.len() - from,
{
    if from < prefixes.len() {
        if starts_with(path, prefixes[from]) {
            assert(prefixes[from] + forwarded(path, prefixes, from) =~= path);
        } else {
            lemma_forwarded_rejoins(path, prefixes, from + 1);
        }
    }
}

/// The prefix of the rule at `k` is longer, in bytes, than each prefix of the other rule.
pub open spec fn outreaches(rule: RouteRule, k: int, other: RouteRule) -> bool {
    &&& 0 <= k < rule.prefix@.len()
    &&& forall|m: int|
        0 <= m < other.prefix@.len() ==> encode_utf8((#[trigger] other.prefix@[m])@).len()
            < encode_utf8(rule.prefix@[k]@).len()
}

/// Of the rules that take a path, one with a pattern that is longer in bytes than each prefix of
/// another goes before that other one, wherever the two stand.
pub proof fn lemma_longer_pattern_wins(
    rules: Seq<RouteRule>,
    path: Seq<char>,
    i: int,
    j: int,
    k: int,
)
    requires
        0 <= i < rules.len(),
        0 <= j < rules.len(),
        rules[j].takes(path),
        outreaches(rules[j], k, rules[i]),
        is_pattern(rules[j].prefix@[k]@),
    ensures
        !is_best(rules, path, i),
{
    let own = texts(rules[j].prefix@);
    let other = texts(rules[i].prefix@);
    lemma_score_bounds(own, k);
    assert(own[k] == rules[j].prefix@[k]@);
    let length = encode_utf8(own[k]).len();
    assert(length > 0) by {
        assert(own[k].len() > 0);
        lemma_encoding_nonempty(own[k]);
    }
    assert forall|m: int| 0 <= m < other.len() implies prefix_score(#[trigger] other[m]) <= (length
        + 999) as nat by {
        assert(other[m] == rules[i].prefix@[m]@);
    }
    lemma_score_at_most(other, (length + 999) as nat);
}

/// Of the rules that take a path, one with a prefix that is longer in bytes than each prefix of
/// another, which are all plain, goes before that other one, wherever the two stand.
pub proof fn lemma_longer_prefix_wins(
    rules: Seq<RouteRule>,
    path: Seq<char>,
    i: int,
    j: int,
    k: int,
)
    requires
        0 <= i < rules.len(),
        0 <= j < rules.len(),
        rules[j].takes(path),
        outreaches(rules[j], k, rules[i]),
        forall|m: int|
            0 <= m < rules[i].prefix@.len() ==> !is_pattern((#[trigger] rules[i].prefix@[m])@),
    ensures
        !is_best(rules, path, i),
{
    let own = texts(rules[j].prefix@);
    let other = texts(rules[i].prefix@);
    lemma_score_bounds(own, k);
    assert(own[k] == rules[j].prefix@[k]@);
    let length = encode_utf8(own[k]).len();
    if length == 0 {
        assert(other.len() == 0) by {
            if other.len() > 0 {
                assert(encode_utf8(rules[i].prefix@[0]@).len() < length);
            }
        }
    } else {
        assert forall|m: int| 0 <= m < other.len() implies prefix_score(#[trigger] other[m]) <= (
        length - 1) as nat by {
            assert(other[m] == rules[i].prefix@[m]@);
        }
        lemma_score_at_most(other, (length - 1) as nat);
    }
}

/// A pattern counts as a thousand bytes more than it has: of two rules that take a path, the one
/// with a single pattern goes before the one with a single plain prefix exactly where that prefix
/// is not longer by a thousand bytes, or by just as many and behind it in the list.
pub proof fn lemma_pattern_against_plain(rules: Seq<RouteRule>, path: Seq<char>, i: int, j: int)
    requires
        0 <= i < rules.len(),
        0 <= j < rules.len(),
        rules[i].takes(path),
        rules[j].takes(path),
        rules[i].prefix@.len() == 1,
        rules[j].prefix@.len() == 1,
        is_pattern(rules[i].prefix@[0]@),
        !is_pattern(rules[j].prefix@[0]@),
    ensures
        ({
            let pattern = encode_utf8(rules[i].prefix@[0]@).len() as int;
            let plain = encode_utf8(rules[j].prefix@[0]@).len() as int;
            &&& plain - pattern < 1000 ==> !is_best(rules, path, j)
            &&& plain - pattern > 1000 ==> !is_best(rules, path, i)
            &&& plain - pattern == 1000 ==> !is_best(rules, path, if i < j {
                j
            } else {
                i
            })
        }),
{
    let first = texts(rules[i].prefix@);
    let second = texts(rules[j].prefix@);
    assert(first.drop_last() =~= Seq::<Seq<char>>::empty());
    assert(second.drop_last() =~= Seq::<Seq<char>>::empty());
    assert(score(first.drop_last()) == 0);
    assert(score(second.drop_last()) == 0);
    assert(first.last() == rules[i].prefix@[0]@);
    assert(second.last() == rules[j].prefix@[0]@);
    assert(i != j);
}

/// Of two rules with the same prefixes the later one is never chosen.
pub proof fn lemma_first_of_equals_wins(rules: Seq<RouteRule>, path: Seq<char>, i: int, j: int)
    requires
        0 <= i < j < rules.len(),
        rules[i].prefix@ == rules[j].prefix@,
    ensures
        !is_best(rules, path, j),
{
    if is_best(rules, path, j) {
        let k = choose|k: int|
            0 <= k < rules[j].prefix@.len() && crate::config::prefix_matches(
                (#[trigger] rules[j].prefix@[k])@,
                path,
            );
        assert(rules[i].prefix@[k] == rules[j].prefix@[k]);
        assert(rules[i].takes(path));
    }
}

/// The rule that is chosen takes the path, and one is chosen wherever a rule takes the path that
/// has a prefix that is not empty.
pub proof fn lemma_taken_path_is_routed(rules: Seq<RouteRule>, path: Seq<char>, j: int, k: int)
    requires
        0 <= j < rules.len(),
        rules[j].takes(path),
        0 <= k < rules[j].prefix@.len(),
        rules[j].prefix@[k]@.len() > 0,
    ensures
        exists|i: int| #[trigger] is_best(rules, path, i),
        forall|i: int| #[trigger] is_best(rules, path, i) ==> 0 <= i < rules.len()
            && rules[i].takes(path),
{
    let own = texts(rules[j].prefix@);
    lemma_score_bounds(own, k);
    assert(own[k] == rules[j].prefix@[k]@);
    lemma_encoding_nonempty(own[k]);
    lemma_best_exists(rules, path, j);
}

/// What is forwarded of a path: behind the first prefix that the path begins with, just that which
/// makes the path again; and where it begins with none of them, the whole path.
pub proof fn lemma_forwarded_is_the_rest(path: Seq<char>, prefixes: Seq<Seq<char>>, i: int)
    ensures
        0 <= i < prefixes.len() && starts_with(path, prefixes[i]) && (forall|k: int|
            0 <= k < i ==> !starts_with(path, #[trigger] prefixes[k])) ==> prefixes[i] + forwarded(
            path,
            prefixes,
            0,
        ) == path,
        (forall|k: int| 0 <= k < prefixes.len() ==> !starts_with(path, #[trigger] prefixes[k]))
            ==> forwarded(path, prefixes, 0) == path,
        forwarded(path, prefixes, 0) == path ==> forall|k: int|
            0 <= k < prefixes.len() && starts_with(path, #[trigger] prefixes[k])
                && prefixes[k].len() > 0 ==> exists|m: int|
                0 <= m < k && (#[trigger] prefixes[m]).len() == 0,
{
    if 0 <= i < prefixes.len() && starts_with(path, prefixes[i]) && (forall|k: int|
        0 <= k < i ==> !starts_with(path, #[trigger] prefixes[k])) {
        lemma_forwarded_at(path, prefixes, 0, i);
        lemma_prefix_and_rest(path, prefixes[i], path);
        assert(prefixes[i] + path.skip(prefixes[i].len() as int) =~= path);
    }
    if forall|k: int| 0 <= k < prefixes.len() ==> !starts_with(path, #[trigger] prefixes[k]) {
        lemma_forwarded_whole(path, prefixes, 0);
    }
    if forwarded(path, prefixes, 0) == path {
        assert forall|k: int|
            0 <= k < prefixes.len() && starts_with(path, #[trigger] prefixes[k])
                && prefixes[k].len() > 0 implies exists|m: int|
            0 <= m < k && (#[trigger] prefixes[m]).len() == 0 by {
            let m = lemma_first_prefix(path, prefixes, k);
            lemma_forwarded_at(path, prefixes, 0, m);
            assert(forwarded(path, prefixes, 0).len() == path.len() - prefixes[m].len());
        }
    }
}

proof fn lemma_first_prefix(path: Seq<char>, prefixes: Seq<Seq<char>>, k: int) -> (m: int)
    requires
        0 <= k < prefixes.len(),
        starts_with(path, prefixes[k]),
    ensures
        0 <= m <= k,
        starts_with(path, prefixes[m]),
        forall|n: int| 0 <= n < m ==> !starts_with(path, #[trigger] prefixes[n]),
    decreases k,
{
    if exists|n: int| 0 <= n < k && starts_with(path, #[trigger] prefixes[n]) {
        let n = choose|n: int| 0 <= n < k && starts_with(path, #[trigger] prefixes[n]);
        lemma_first_prefix(path, prefixes, n)
    } else {
        k
    }
}

proof fn lemma_forwarded_at(path: Seq<char>, prefixes: Seq<Seq<char>>, from: int, i: int)
    requires
        0 <= from <= i < prefixes.len(),
        starts_with(path, prefixes[i]),
        forall|k: int| from <= k < i ==> !starts_with(path, #[trigger] prefixes[k]),
    ensures
        forwarded(path, prefixes, from) == path.skip(prefixes[i].len() as int),
    decreases i - from,
{
    if from < i {
        assert(!starts_with(path, prefixes[from]));
        lemma_forwarded_at(path, prefixes, from + 1, i);
    }
}

proof fn lemma_forwarded_whole(path: Seq<char>, prefixes: Seq<Seq<char>>, from: int)
    requires
        0 <= from <= prefixes.len(),
        forall|k: int| from <= k < prefixes.len() ==> !starts_with(path, #[trigger] prefixes[k]),
    ensures
        forwarded(path, prefixes, from) == path,
    decreases prefixes.len() - from,
{
    if from < prefixes.len() {
        assert(!starts_with(path, prefixes[from]));
        lemma_forwarded_whole(path, prefixes, from + 1);
    }
}

/// The user that the upstream of a WebSocket connection sees is the subject of the token, whatever
/// the request claimed and whatever else the token says; without a subject it is the user `0`.
pub proof fn lemma_user_is_the_subject(fields: Seq<(Seq<char>, Seq<u8>)>, claims: Claims)
    requires
        forall|i: int| 0 <= i < claims.sub@.len() ==> ' ' <= #[trigger] claims.sub@[i] <= '~',
    ensures
        claims.sub@.len() > 0 ==> user_of(with_identity(without_identity(fields), claims))
            == claims.sub@,
        claims.sub@.len() == 0 ==> user_of(with_identity(without_identity(fields), claims)) == "0"@,
{
    let sub = claims.sub@;
    reveal_strlit("x-user-id");
    reveal_strlit("x-tenant-id");
    reveal_strlit("x-username");
    reveal_strlit("host");
    lemma_identity_is_passed_on(fields, claims, "host"@);
    assert forall|i: int| 0 <= i < sub.len() implies is_plain_char(#[trigger] sub[i]) by {}
    assert(is_header_text(sub));
    lemma_text_reads_back(sub, encode_utf8(sub));
}

/// Three texts with a dash between any two.
pub open spec fn dashed(a: Seq<char>, b: Seq<char>, c: Seq<char>) -> Seq<char> {
    a + seq!['-'] + (b + seq!['-'] + c)
}

/// A trace is named by what stands between the first two dashes, where it has 32 bytes, and by
/// nothing else.
pub proof fn lemma_trace_between_dashes(
    traceparent: Seq<char>,
    version: Seq<char>,
    id: Seq<char>,
    rest: Seq<char>,
)
    ensures
        !version.contains('-') && !id.contains('-') && encode_utf8(id).len() == 32 ==> trace_part(
            dashed(version, id, rest),
        ) == Some(id),
        trace_part(traceparent) matches Some(part) ==> {
            &&& encode_utf8(part).len() == 32
            &&& !part.contains('-')
            &&& exists|v: Seq<char>, r: Seq<char>|
                !v.contains('-') && #[trigger] dashed(v, part, r) == traceparent
        },
{
    if !version.contains('-') && !id.contains('-') && encode_utf8(id).len() == 32 {
        let tail = id + seq!['-'] + rest;
        lemma_split_at(version, '-', tail);
        lemma_split_at(id, '-', rest);
        crate::text::lemma_split_nonempty(rest, '-');
        let parts = split(version + seq!['-'] + tail, '-');
        assert(parts[1] == split(tail, '-')[0]);
    }
    if trace_part(traceparent) is Some {
        let parts = split(traceparent, '-');
        let behind = parts.drop_first();
        let r = join(behind.drop_first(), seq!['-']);
        lemma_split_pieces(traceparent, '-', 0);
        lemma_split_pieces(traceparent, '-', 1);
        lemma_join_split(traceparent, '-');
        lemma_join_front(parts, seq!['-']);
        lemma_join_front(behind, seq!['-']);
        let part = trace_part(traceparent)->0;
        assert(encode_utf8(part).len() == 32);
        assert(!part.contains('-'));
        assert(!parts[0].contains('-') && dashed(parts[0], part, r) == traceparent);
    }
}

/// What is sent as `traceparent` has four parts: the version, the trace that came in or else the
/// fresh one, the span, and the flag; and the short form is the beginning of the trace, eight
/// characters of it at most.
pub proof fn lemma_traceparent_parts(
    trace: TraceContext,
    inbound: Option<Seq<char>>,
    fresh: Seq<char>,
    span: Seq<char>,
)
    requires
        trace.continues(inbound, fresh, span),
        !fresh.contains('-'),
        !span.contains('-'),
    ensures
        split(trace.traceparent@, '-') == seq!["00"@, trace.trace_id@, span, "01"@],
        inbound is None ==> trace.trace_id@ == fresh,
        inbound matches Some(text) ==> (trace_part(text) matches Some(part) ==> trace.trace_id@
            == part),
        inbound matches Some(text) ==> (trace_part(text) is None ==> trace.trace_id@ == fresh),
        starts_with(trace.trace_id@, trace.short@),
        trace.trace_id@.len() <= 8 ==> trace.short@ == trace.trace_id@,
        trace.trace_id@.len() > 8 ==> trace.short@.len() == 8,
{
    let id = trace.trace_id@;
    reveal_strlit("00-");
    reveal_strlit("-");
    reveal_strlit("-01");
    reveal_strlit("00");
    reveal_strlit("01");
    assert(!id.contains('-')) by {
        if id != fresh {
            lemma_split_pieces(inbound->0, '-', 1);
        }
    }
    let flag = "01"@;
    let behind = span + seq!['-'] + flag;
    let tail = id + seq!['-'] + behind;
    assert(trace.traceparent@ =~= "00"@ + seq!['-'] + tail);
    lemma_split_at("00"@, '-', tail);
    lemma_split_at(id, '-', behind);
    lemma_split_at(span, '-', flag);
    lemma_split_at(flag, '-', flag);
    assert(split(trace.traceparent@, '-') =~= seq!["00"@, id, span, flag]);
    assert(id.take(id.len() as int) =~= id);
}

/// A request is labelled as slow from a fifth of a second on, and by the highest of the bounds that
/// it reaches.
pub proof fn lemma_slow_bounds(ms: int)
    ensures
        slow_label(ms) is Some <==> ms >= 200,
        200 <= ms < 500 ==> slow_label(ms) == Some("\u{1f7e2} SLOW >200ms"@),
        500 <= ms < 1_000 ==> slow_label(ms) == Some("\u{1f7e1} SLOW >500ms"@),
        1_000 <= ms < 2_000 ==> slow_label(ms) == Some("\u{1f7e1} SLOW >1s"@),
        2_000 <= ms < 3_000 ==> slow_label(ms) == Some("\u{1f7e0} SLOW >2s"@),
        3_000 <= ms < 5_000 ==> slow_label(ms) == Some("\u{1f7e0} SLOW >3s"@),
        5_000 <= ms < 10_000 ==> slow_label(ms) == Some("\u{1f534} VERY_SLOW >5s"@),
        10_000 <= ms ==> slow_label(ms) == Some("\u{1f534} CRITICAL >10s"@),
{
}

/// A response is logged as an error exactly where the hundreds of its status are 5, as a warning
/// exactly where they are 4, and as information otherwise.
pub proof fn lemma_level_by_hundreds(status: u16)
    ensures
        status_level(status) == LogLevel::Error <==> status as int / 100 == 5,
        status_level(status) == LogLevel::Warn <==> status as int / 100 == 4,
        status_level(status) == LogLevel::Info <==> status as int / 100 != 4 && status as int / 100
            != 5,
{
}

/// A leading `/proxy` makes no difference to the rules: it is taken off, once, and a path without
/// it is held against them as it is.
pub proof fn lemma_proxy_is_taken_off(path: Seq<char>, rest: Seq<char>)
    ensures
        routed_path("/proxy"@ + rest) == rest,
        !starts_with(path, "/proxy"@) ==> routed_path(path) == path,
{
    lemma_prefix_and_rest(path, "/proxy"@, rest);
}

/// A request needs no authentication exactly where the rule that is chosen for its path exempts it,
/// with a leading `/proxy` or without; and never where no rule is chosen.
pub proof fn lemma_chosen_rule_exempts(rules: Seq<RouteRule>, rest: Seq<char>, i: int)
    ensures
        is_best(rules, rest, i) ==> (is_exempt(rules, "/proxy"@ + rest) <==> rules[i].whitelists(
            rest,
        )),
        is_best(rules, rest, i) && !starts_with(rest, "/proxy"@) ==> (is_exempt(rules, rest)
            <==> rules[i].whitelists(rest)),
        (forall|k: int| 0 <= k < rules.len() ==> !(#[trigger] rules[k]).takes(rest)) ==> !is_exempt(
            rules,
            "/proxy"@ + rest,
        ),
{
    lemma_proxy_is_taken_off(rest, rest);
    if is_best(rules, rest, i) {
        if exists|k: int| #[trigger] is_best(rules, rest, k) && rules[k].whitelists(rest) {
            let k = choose|k: int| #[trigger] is_best(rules, rest, k) && rules[k].whitelists(rest);
            lemma_best_is_unique(rules, rest, k, i);
        }
    }
}

/// A rule without a service sends to the upstreams that it lists, each of them with the weight 1.
pub proof fn lemma_listed_upstreams(
    rule: RouteRule,
    services: Map<Seq<char>, Seq<ServiceInstance>>,
    k: int,
)
    requires
        rule.service_name is None,
    ensures
        rule_upstreams(rule, services).len() == rule.upstream@.len(),
        0 <= k < rule.upstream@.len() ==> rule_upstreams(rule, services)[k].0
            == rule.upstream@[k]@ && rule_upstreams(rule, services)[k].1 == 1,
{
}

proof fn lemma_filter_agrees(
    list: Seq<(Seq<char>, u32)>,
    a: spec_fn((Seq<char>, u32)) -> bool,
    b: spec_fn((Seq<char>, u32)) -> bool,
)
    requires
        forall|i: int| 0 <= i < list.len() ==> a(#[trigger] list[i]) == b(list[i]),
    ensures
        list.filter(a) == list.filter(b),
    decreases list.len(),
{
    reveal(Seq::filter);
    if list.len() > 0 {
        let front = list.drop_last();
        assert forall|i: int| 0 <= i < front.len() implies a(#[trigger] front[i]) == b(
            front[i],
        ) by {
            assert(front[i] == list[i]);
        }
        lemma_filter_agrees(front, a, b);
        assert(list.last() == list[list.len() - 1]);
    }
}

proof fn lemma_filter_all(
    list: Seq<(Seq<char>, u32)>,
    pred: spec_fn((Seq<char>, u32)) -> bool,
)
    requires
        forall|i: int| 0 <= i < list.len() ==> pred(#[trigger] list[i]),
    ensures
        list.filter(pred) == list,
    decreases list.len(),
{
    reveal(Seq::filter);
    if list.len() > 0 {
        let front = list.drop_last();
        assert forall|i: int| 0 <= i < front.len() implies pred(#[trigger] front[i]) by {
            assert(front[i] == list[i]);
        }
        lemma_filter_all(front, pred);
        assert(list.last() == list[list.len() - 1]);
        assert(front.push(list.last()) =~= list);
    } else {
        assert(list.filter(pred) =~= list);
    }
}

/// In service are, in the order of the list, the upstreams that no entry of the table calls
/// unhealthy; all of them where the table calls every one unhealthy, or where there is no table.
pub proof fn lemma_in_service(
    list: Seq<(Seq<char>, u32)>,
    entries: Map<Seq<char>, UpstreamHealth>,
)
    ensures
        in_service(list, None) == list,
        (exists|i: int|
            0 <= i < list.len() && (entries.contains_key((#[trigger] list[i]).0)
                ==> entries[list[i].0].healthy)) ==> in_service(list, Some(entries)) == list.filter(
            |pair: (Seq<char>, u32)| entries.contains_key(pair.0) ==> entries[pair.0].healthy,
        ),
        (forall|i: int|
            0 <= i < list.len() ==> entries.contains_key((#[trigger] list[i]).0)
                && !entries[list[i].0].healthy) ==> in_service(list, Some(entries)) == list,
{
    let urls = pair_urls(list);
    let left = usable(urls, entries);
    let healthy = |pair: (Seq<char>, u32)|
        entries.contains_key(pair.0) ==> entries[pair.0].healthy;
    lemma_usable_nonempty(urls, entries);
    assert forall|i: int| 0 <= i < list.len() implies urls.contains((#[trigger] list[i]).0) by {
        assert(urls[i] == list[i].0);
    }
    if exists|i: int|
        0 <= i < list.len() && (entries.contains_key((#[trigger] list[i]).0)
            ==> entries[list[i].0].healthy) {
        let i = choose|i: int|
            0 <= i < list.len() && (entries.contains_key((#[trigger] list[i]).0)
                ==> entries[list[i].0].healthy);
        assert(counts_as_healthy(entries)(urls[i]));
        assert forall|k: int| 0 <= k < list.len() implies url_among(left)(#[trigger] list[k])
            == healthy(list[k]) by {
            assert(left.contains(list[k].0) <==> counts_as_healthy(entries)(list[k].0));
        }
        lemma_filter_agrees(list, url_among(left), healthy);
    }
    if forall|i: int|
        0 <= i < list.len() ==> entries.contains_key((#[trigger] list[i]).0)
            && !entries[list[i].0].healthy {
        let kept = urls.filter(counts_as_healthy(entries));
        crate::health_check::lemma_filter_members(urls, counts_as_healthy(entries));
        if kept.len() > 0 {
            assert(kept.contains(kept[0]));
            let k = urls.index_of(kept[0]);
            assert(entries.contains_key(list[k].0) && !entries[list[k].0].healthy);
        }
        assert(left == urls);
        lemma_filter_all(list, url_among(left));
    }
}

/// The plan for a path is that of the rule that is chosen: its strategy, upstreams that it sends
/// to, and, where it has one prefix, the path without that prefix.
pub proof fn lemma_plan_follows_rule(
    plan: RoutePlan,
    rules: Seq<RouteRule>,
    services: Map<Seq<char>, Seq<ServiceInstance>>,
    health: Option<Map<Seq<char>, UpstreamHealth>>,
    path: Seq<char>,
    i: int,
)
    requires
        is_plan(plan, rules, services, health, path),
        is_best(rules, path, i),
    ensures
        plan.strategy@ == rules[i].strategy@,
        texts(plan.prefix@) == texts(rules[i].prefix@),
        pairs(plan.upstreams@) == in_service(rule_upstreams(rules[i], services), health),
        rules[i].prefix@.len() == 1 && starts_with(path, rules[i].prefix@[0]@)
            ==> rules[i].prefix@[0]@ + plan.forward_path@ == path,
        rules[i].prefix@.len() == 1 && !starts_with(path, rules[i].prefix@[0]@)
            ==> plan.forward_path@ == path,
{
    let k = choose|k: int| #[trigger]
        leads_to(rules, services, path, k) && {
            &&& texts(plan.prefix@) == texts(rules[k].prefix@)
            &&& plan.strategy == rules[k].strategy
            &&& pairs(plan.upstreams@) == in_service(rule_upstreams(rules[k], services), health)
            &&& plan.forward_path@ == forwarded(path, texts(rules[k].prefix@), 0)
        };
    lemma_best_is_unique(rules, path, k, i);
    if rules[i].prefix@.len() == 1 {
        assert(texts(rules[i].prefix@)[0] == rules[i].prefix@[0]@);
        lemma_forwarded_is_the_rest(path, texts(rules[i].prefix@), 0);
    }
}

/// A request is forwarded to the upstream's address with the path behind it, and its query, if it
/// has one, behind a question mark.
pub proof fn lemma_forward_address(
    upstream: Seq<char>,
    forward_path: Seq<char>,
    query: Seq<char>,
)
    ensures
        forward_address(upstream, forward_path, None) == upstream + forward_path,
        forward_address(upstream, forward_path, Some(query)) == upstream + forward_path + seq!['?']
            + query,
{
    reveal_strlit("?");
    assert("?"@ =~= seq!['?']);
    assert(forward_address(upstream, forward_path, None) =~= upstream + forward_path);
    assert(forward_address(upstream, forward_path, Some(query)) =~= upstream + forward_path
        + seq!['?'] + query);
}

/// Of the parameters in a row, each is kept or dropped by itself: dropped is one that is `token`,
/// or `token` with a value.
pub proof fn lemma_token_parameters(a: Seq<Seq<char>>, b: Seq<Seq<char>>, one: Seq<char>)
    ensures
        without_token(a + b) == without_token(a) + without_token(b),
        without_token(seq![one]) == (if one == "token"@ || starts_with(one, "token="@) {
            Seq::<Seq<char>>::empty()
        } else {
            seq![one]
        }),
    decreases b.len(),
{
    if b.len() == 0 {
        assert(a + b =~= a);
        assert(without_token(a + b) =~= without_token(a) + without_token(b));
    } else {
        assert((a + b).drop_last() =~= a + b.drop_last());
        lemma_token_parameters(a, b.drop_last(), one);
        assert(without_token(a + b) =~= without_token(a) + without_token(b));
    }
    reveal_strlit("token");
    reveal_strlit("token=");
    let name = before_first(one, '=');
    assert(seq![one].drop_last() =~= Seq::<Seq<char>>::empty());
    assert(without_token(seq![one].drop_last()) =~= Seq::<Seq<char>>::empty());
    lemma_prefix_and_rest(one, "token="@, one);
    lemma_before_first_ends(one, '=');
    if one == "token"@ {
        lemma_before_first(one, '=', 5);
        assert(one.take(5) =~= "token"@);
    } else if starts_with(one, "token="@) {
        assert(forall|k: int| 0 <= k < 6 ==> #[trigger] one[k] == "token="@[k]);
        lemma_before_first(one, '=', 5);
        assert(one.take(5) =~= "token"@);
    } else if name == "token"@ {
        if one.len() == 5 {
            assert(one.take(5) =~= one);
        } else {
            assert forall|k: int| 0 <= k < 6 implies #[trigger] one[k] == "token="@[k] by {
                if k < 5 {
                    assert(one.take(5)[k] == "token"@[k]);
                }
            }
        }
    }
    assert(Seq::<Seq<char>>::empty().push(one) =~= seq![one]);
}

proof fn lemma_nothing_begins_in(front: Seq<char>, rest: Seq<char>, part: Seq<char>, k: int)
    requires
        0 <= k < front.len(),
        part.len() > 0,
        front[k] != part[0],
    ensures
        !starts_with((front + rest).skip(k), part),
{
    let s = (front + rest).skip(k);
    lemma_prefix_and_rest(s, part, s);
    assert(s[0] == front[k]);
}

/// A WebSocket connection goes to the host of the upstream: `ws` stands for `http`, `wss` for
/// `https`.
pub proof fn lemma_websocket_scheme(host: Seq<char>)
    requires
        !contains_text(host, "http://"@),
        !contains_text(host, "https://"@),
    ensures
        websocket_scheme("http://"@ + host) == "ws://"@ + host,
        websocket_scheme("https://"@ + host) == "wss://"@ + host,
{
    reveal_strlit("http://");
    reveal_strlit("https://");
    reveal_strlit("ws://");
    reveal_strlit("wss://");
    let none = Seq::<char>::empty();
    let plain = "http://"@;
    let secure = "https://"@;
    assert(none + plain + host =~= plain + host);
    lemma_replace_first(none, plain, "ws://"@, host);
    lemma_replace_nothing(host, plain, "ws://"@);
    assert(none + "ws://"@ + host =~= "ws://"@ + host);
    let made = "ws://"@ + host;
    assert(!contains_text(made, secure)) by {
        if contains_text(made, secure) {
            let at = choose|at: int|
                0 <= at <= made.len() && starts_with(#[trigger] made.skip(at), secure);
            if at < 5 {
                lemma_nothing_begins_in("ws://"@, host, secure, at);
            } else {
                assert(made.skip(at) =~= host.skip(at - 5));
            }
        }
    }
    lemma_replace_nothing(made, secure, "wss://"@);
    let given = secure + host;
    assert(!contains_text(given, plain)) by {
        if contains_text(given, plain) {
            let at = choose|at: int|
                0 <= at <= given.len() && starts_with(#[trigger] given.skip(at), plain);
            if at == 0 {
                assert(given.skip(0) =~= given);
                lemma_prefix_and_rest(given, plain, given);
                assert(given[4] == plain[4]);
            } else if at < 8 {
                lemma_nothing_begins_in(secure, host, plain, at);
            } else {
                assert(given.skip(at) =~= host.skip(at - 8));
            }
        }
    }
    lemma_replace_nothing(given, plain, "ws://"@);
    assert(none + secure + host =~= given);
    lemma_replace_first(none, secure, "wss://"@, host);
    lemma_replace_nothing(host, secure, "wss://"@);
    assert(none + "wss://"@ + host =~= "wss://"@ + host);
}

proof fn lemma_all_parameters_stay(parameters: Seq<Seq<char>>)
    requires
        forall|i: int|
            0 <= i < parameters.len() ==> before_first(#[trigger] parameters[i], '=') != "token"@,
    ensures
        without_token(parameters) == parameters,
    decreases parameters.len(),
{
    if parameters.len() > 0 {
        let front = parameters.drop_last();
        assert forall|i: int| 0 <= i < front.len() implies before_first(#[trigger] front[i], '=')
            != "token"@ by {
            assert(front[i] == parameters[i]);
        }
        lemma_all_parameters_stay(front);
        assert(parameters.last() == parameters[parameters.len() - 1]);
        assert(front.push(parameters.last()) =~= parameters);
    } else {
        assert(without_token(parameters) =~= parameters);
    }
}

/// The address of a WebSocket connection: behind the upstream stands the path that is forwarded, or
/// the whole path where nothing of it is left; then the user as the parameter `uid`; then the
/// query, as it came in where no parameter of it is a token.
pub proof fn lemma_tunnel_address(
    upstream: Seq<char>,
    forward_path: Seq<char>,
    whole_path: Seq<char>,
    user: Seq<char>,
    query: Seq<char>,
)
    ensures
        forward_path.len() > 0 ==> tunnel_address(upstream, forward_path, whole_path, user, None)
            == websocket_scheme(upstream) + forward_path + ("?uid="@ + user),
        forward_path.len() == 0 ==> tunnel_address(upstream, forward_path, whole_path, user, None)
            == websocket_scheme(upstream) + whole_path + ("?uid="@ + user),
        (forall|i: int|
            0 <= i < split(query, '&').len() ==> before_first(#[trigger] split(query, '&')[i], '=')
                != "token"@) ==> tunnel_address(
            upstream,
            forward_path,
            whole_path,
            user,
            Some(query),
        ) == tunnel_address(upstream, forward_path, whole_path, user, None) + (seq!['&'] + query),
        (forall|i: int|
            0 <= i < split(query, '&').len() ==> before_first(#[trigger] split(query, '&')[i], '=')
                == "token"@) ==> tunnel_address(
            upstream,
            forward_path,
            whole_path,
            user,
            Some(query),
        ) == tunnel_address(upstream, forward_path, whole_path, user, None),
{
    reveal_strlit("?uid=");
    reveal_strlit("?");
    reveal_strlit("uid=");
    reveal_strlit("&");
    assert("&"@ =~= seq!['&']);
    let uid = "uid="@ + user;
    let alone = websocket_parameters(user, None);
    assert(alone =~= seq![uid]);
    assert(join(alone, "&"@) == uid);
    assert("?"@ + uid =~= "?uid="@ + user);
    let parts = split(query, '&');
    let all = websocket_parameters(user, Some(query));
    crate::text::lemma_split_nonempty(query, '&');
    if forall|i: int| 0 <= i < parts.len() ==> before_first(#[trigger] parts[i], '=') != "token"@ {
        lemma_all_parameters_stay(parts);
        assert(all.drop_first() =~= parts);
        lemma_join_front(all, "&"@);
        lemma_join_split(query, '&');
        let path = if forward_path.len() == 0 {
            whole_path
        } else {
            forward_path
        };
        assert(tunnel_address(upstream, forward_path, whole_path, user, Some(query))
            =~= websocket_scheme(upstream) + path + ("?"@ + uid) + (seq!['&'] + query));
    }
    if forall|i: int| 0 <= i < parts.len() ==> before_first(#[trigger] parts[i], '=') == "token"@ {
        lemma_token_is_not_passed_on(parts);
        let left = without_token(parts);
        lemma_left_are_given(parts);
        if left.len() > 0 {
            assert(parts.contains(left[0]));
            assert(before_first(parts[parts.index_of(left[0])], '=') == "token"@);
        }
        assert(left =~= Seq::<Seq<char>>::empty());
        assert(all =~= alone);
    }
}

proof fn lemma_left_are_given(parameters: Seq<Seq<char>>)
    ensures
        forall|i: int|
            0 <= i < without_token(parameters).len() ==> parameters.contains(
                #[trigger] without_token(parameters)[i],
            ),
    decreases parameters.len(),
{
    if parameters.len() > 0 {
        let front = parameters.drop_last();
        lemma_left_are_given(front);
        let left = without_token(parameters);
        assert forall|i: int| 0 <= i < left.len() implies parameters.contains(
            #[trigger] left[i],
        ) by {
            if i < without_token(front).len() {
                assert(front.contains(without_token(front)[i]));
                assert(parameters[front.index_of(left[i])] == left[i]);
            } else {
                assert(parameters[parameters.len() - 1] == left[i]);
            }
        }
    }
}

/// The answer has every field of the upstream's answer, then the trace; and a content type always,
/// that of the upstream where it gave one.
pub proof fn lemma_answer_values(
    trace: TraceContext,
    upstream: Seq<(Seq<char>, Seq<u8>)>,
    other: Seq<char>,
)
    ensures
        ({
            let sent = answer_fields(trace, upstream);
            &&& starts_with_fields(sent, upstream)
            &&& values_of(sent, "traceparent"@) == values_of(upstream, "traceparent"@).push(
                encode_utf8(trace.traceparent@),
            )
            &&& values_of(sent, "x-trace-id"@) == values_of(upstream, "x-trace-id"@).push(
                encode_utf8(trace.short@),
            )
            &&& values_of(sent, "content-type"@) == (if values_of(
                upstream,
                "content-type"@,
            ).len() > 0 {
                values_of(upstream, "content-type"@)
            } else {
                seq![encode_utf8("application/octet-stream"@)]
            })
            &&& !same_name("traceparent"@, other) && !same_name("x-trace-id"@, other) && !same_name(
                "content-type"@,
                other,
            ) ==> values_of(sent, other) == values_of(upstream, other)
        }),
{
    reveal_strlit("traceparent");
    reveal_strlit("x-trace-id");
    reveal_strlit("content-type");
    lemma_first_of_values(upstream, "content-type"@);
    lemma_answer_values_of(trace, upstream, "traceparent"@);
    lemma_answer_values_of(trace, upstream, "x-trace-id"@);
    lemma_answer_values_of(trace, upstream, "content-type"@);
    lemma_answer_values_of(trace, upstream, other);
    assert(answer_fields(trace, upstream).take(upstream.len() as int) =~= upstream);
}

/// The list begins with the given fields.
pub open spec fn starts_with_fields(
    list: Seq<(Seq<char>, Seq<u8>)>,
    front: Seq<(Seq<char>, Seq<u8>)>,
) -> bool {
    front.len() <= list.len() && list.take(front.len() as int) == front
}

proof fn lemma_answer_values_of(
    trace: TraceContext,
    upstream: Seq<(Seq<char>, Seq<u8>)>,
    name: Seq<char>,
)
    ensures
        ({
            let first = if same_name("traceparent"@, name) {
                values_of(upstream, name).push(encode_utf8(trace.traceparent@))
            } else {
                values_of(upstream, name)
            };
            let second = if same_name("x-trace-id"@, name) {
                first.push(encode_utf8(trace.short@))
            } else {
                first
            };
            values_of(answer_fields(trace, upstream), name) == (if !has_field(
                upstream,
                "content-type"@,
            ) && same_name("content-type"@, name) {
                second.push(encode_utf8("application/octet-stream"@))
            } else {
                second
            })
        }),
{
    let one = ("traceparent"@, encode_utf8(trace.traceparent@));
    let two = ("x-trace-id"@, encode_utf8(trace.short@));
    let three = ("content-type"@, encode_utf8("application/octet-stream"@));
    lemma_values_push(upstream, one, name);
    lemma_values_push(upstream.push(one), two, name);
    lemma_values_push(upstream.push(one).push(two), three, name);
    assert(upstream + trace_fields(trace) =~= upstream.push(one).push(two));
}

/// A request that cannot be served is answered with 502, as JSON, with the trace and the reason.
pub proof fn lemma_bad_gateway(reply: Reply, trace: TraceContext, error: Seq<char>)
    requires
        is_bad_gateway(reply, trace, error),
    ensures
        reply.status == 502,
        values_of(fields(reply.headers@), "content-type"@) == seq![
            encode_utf8("application/json; charset=utf-8"@),
        ],
        values_of(fields(reply.headers@), "traceparent"@) == seq![encode_utf8(trace.traceparent@)],
        values_of(fields(reply.headers@), "x-trace-id"@) == seq![encode_utf8(trace.short@)],
        starts_with(reply.body@, "{\"error\":\""@ + error),
{
    reveal_strlit("traceparent");
    reveal_strlit("x-trace-id");
    reveal_strlit("content-type");
    let none = Seq::<(Seq<char>, Seq<u8>)>::empty();
    let json = ("content-type"@, encode_utf8("application/json; charset=utf-8"@));
    let one = ("traceparent"@, encode_utf8(trace.traceparent@));
    let two = ("x-trace-id"@, encode_utf8(trace.short@));
    let all = none.push(json).push(one).push(two);
    assert(fields(reply.headers@) =~= all);
    assert forall|name: Seq<char>| true implies #[trigger] values_of(all, name) == {
        let first = if same_name(json.0, name) {
            seq![json.1]
        } else {
            Seq::<Seq<u8>>::empty()
        };
        let second = if same_name(one.0, name) {
            first.push(one.1)
        } else {
            first
        };
        if same_name(two.0, name) {
            second.push(two.1)
        } else {
            second
        }
    } by {
        lemma_values_push(none, json, name);
        lemma_values_push(none.push(json), one, name);
        lemma_values_push(none.push(json).push(one), two, name);
        assert(Seq::<Seq<u8>>::empty().push(json.1) =~= seq![json.1]);
    }
    assert(values_of(all, "traceparent"@) =~= seq![one.1]);
    assert(values_of(all, "x-trace-id"@) =~= seq![two.1]);
    lemma_prefix_and_rest(reply.body@, "{\"error\":\""@ + error, "\"}"@);
}

/// The answer to a request that can go nowhere names its path, and the answer to one that the
/// upstream did not answer says why.
pub proof fn lemma_errors_say_why(text: Seq<char>)
    ensures
        strip_prefix_spec(no_upstream_error(text), "No upstream configured for path: "@) == Some(
            text,
        ),
        strip_prefix_spec(upstream_failure_error(text), "Proxy error: "@) == Some(text),
{
    lemma_prefix_and_rest(text, "No upstream configured for path: "@, text);
    lemma_prefix_and_rest(text, "Proxy error: "@, text);
}

} // verus!
