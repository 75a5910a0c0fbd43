//! Health of the upstreams: when one is taken out of service and when it comes back.

use crate::config::RouteRule;
use crate::text::{
    concat2, distinct, lemma_distinct, lemma_prefix_and_rest, lists, push_distinct,
    strip_prefix_spec, texts,
};
use dashmap::DashMap;
use vstd::prelude::*;
use vstd::string::*;

verus! {

// ----- settings -----

/// Settings of the health check.
#[derive(Debug, Clone)]
pub struct HealthCheckConfig {
    pub enabled: bool,
    /// The time between two rounds, in seconds.
    pub interval_secs: u64,
    /// The time that one probe may take, in seconds.
    pub timeout_secs: u64,
    /// The path that is probed on each upstream.
    pub path: String,
    /// The number of failures in a row that takes an upstream out of service.
    pub unhealthy_threshold: u32,
    /// The number of successes in a row that brings it back.
    pub healthy_threshold: u32,
}

/// Whether the check runs where nothing is set.
pub fn default_enabled() -> (b: bool)
    ensures
        b,
{
    true
}

/// The interval where none is set.
pub fn default_interval() -> (secs: u64)
    ensures
        secs == 10,
{
    10
}

/// The timeout where none is set.
pub fn default_timeout() -> (secs: u64)
    ensures
        secs == 3,
{
    3
}

/// The path where none is set.
pub fn default_path() -> (path: String)
    ensures
        path@ == "/health"@,
{
    "/health".to_owned()
}

/// The failure threshold where none is set.
pub fn default_unhealthy_threshold() -> (n: u32)
    ensures
        n == 3,
{
    3
}

/// The recovery threshold where none is set.
pub fn default_healthy_threshold() -> (n: u32)
    ensures
        n == 2,
{
    2
}

impl HealthCheckConfig {
    /// These are the settings that hold where nothing is set.
    pub open spec fn is_default(self) -> bool {
        &&& self.enabled
        &&& self.interval_secs == 10
        &&& self.timeout_secs == 3
        &&& self.path@ == "/health"@
        &&& self.unhealthy_threshold == 3
        &&& self.healthy_threshold == 2
    }
}

impl Default for HealthCheckConfig {
    fn default() -> (c: Self)
        ensures
            c.is_default(),
    {
        HealthCheckConfig {
            enabled: default_enabled(),
            interval_secs: default_interval(),
            timeout_secs: default_timeout(),
            path: default_path(),
            unhealthy_threshold: default_unhealthy_threshold(),
            healthy_threshold: default_healthy_threshold(),
        }
    }
}

// ----- one upstream -----

/// The health of one upstream.
#[derive(Debug)]
pub struct UpstreamHealth {
    pub url: String,
    pub healthy: bool,
    pub consecutive_failures: u32,
    pub consecutive_successes: u32,
}

/// A counter after one more event; it starts over at its limit.
pub open spec fn counted(n: u32) -> u32 {
    if n == u32::MAX {
        0
    } else {
        (n + 1) as u32
    }
}

impl UpstreamHealth {
    /// The state of an upstream that has not been probed yet: in service.
    pub open spec fn is_fresh(self, url: Seq<char>) -> bool {
        &&& self.url@ == url
        &&& self.healthy
        &&& self.consecutive_failures == 0
        &&& self.consecutive_successes == 0
    }

    /// The state after a successful probe.
    pub open spec fn after_success(self, healthy_threshold: u32) -> UpstreamHealth {
        let successes = counted(self.consecutive_successes);
        UpstreamHealth {
            url: self.url,
            healthy: self.healthy || successes >= healthy_threshold,
            consecutive_failures: 0,
            consecutive_successes: successes,
        }
    }

    /// The state after a failed probe.
    pub open spec fn after_failure(self, unhealthy_threshold: u32) -> UpstreamHealth {
        let failures = counted(self.consecutive_failures);
        UpstreamHealth {
            url: self.url,
            healthy: self.healthy && failures < unhealthy_threshold,
            consecutive_failures: failures,
            consecutive_successes: 0,
        }
    }

    /// The state after a probe.
    pub open spec fn after_probe(
        self,
        success: bool,
        healthy_threshold: u32,
        unhealthy_threshold: u32,
    ) -> UpstreamHealth {
        if success {
            self.after_success(healthy_threshold)
        } else {
            self.after_failure(unhealthy_threshold)
        }
    }

    /// An upstream that has not been probed yet.
    pub fn new(url: String) -> (h: Self)
        ensures
            h.is_fresh(url@),
            h.url == url,
    {
        UpstreamHealth { url, healthy: true, consecutive_failures: 0, consecutive_successes: 0 }
    }

    /// Whether the upstream is in service.
    pub fn is_healthy(&self) -> (b: bool)
        ensures
            b == self.healthy,
    {
        self.healthy
    }

    /// Records a successful probe.
    pub fn record_success(&mut self, healthy_threshold: u32)
        ensures
            *final(self) == old(self).after_success(healthy_threshold),
    {
        self.consecutive_failures = 0;
        self.consecutive_successes = self.consecutive_successes.wrapping_add(1);
        if !self.healthy && self.consecutive_successes >= healthy_threshold {
            self.healthy = true;
        }
    }

    /// Records a failed probe.
    pub fn record_failure(&mut self, unhealthy_threshold: u32)
        ensures
            *final(self) == old(self).after_failure(unhealthy_threshold),
    {
        self.consecutive_successes = 0;
        self.consecutive_failures = self.consecutive_failures.wrapping_add(1);
        if self.healthy && self.consecutive_failures >= unhealthy_threshold {
            self.healthy = false;
        }
    }
}

// ----- the table of all upstreams -----

/// The concurrent map of the crate `dashmap`, as an opaque type.
#[verifier::external_type_specification]
#[verifier::external_body]
#[verifier::reject_recursive_types(K)]
#[verifier::reject_recursive_types(V)]
#[verifier::reject_recursive_types(S)]
pub struct ExDashMap<K, V, S>(dashmap::DashMap<K, V, S>);

/// The health of the upstreams, by their URL.
pub type SharedHealthStatus = DashMap<String, UpstreamHealth>;

/// The entries of the table.
pub uninterp spec fn health_entries(table: DashMap<String, UpstreamHealth>) -> Map<
    Seq<char>,
    UpstreamHealth,
>;

/// A table without entries.
///
/// Trusted: `dashmap::DashMap::new` makes a map that holds nothing.
#[verifier::external_body]
pub fn create_health_status() -> (table: SharedHealthStatus)
    ensures
        health_entries(table).dom() == Set::<Seq<char>>::empty(),
{
    DashMap::new()
}

/// Trusted: `dashmap::DashMap::get` finds the entry of a key, and nothing where there is none. Of
/// the entry only the flag is taken.
#[verifier::external_body]
fn recorded_health(table: &SharedHealthStatus, url: &str) -> (healthy: Option<bool>)
    ensures
        healthy == (if health_entries(*table).dom().contains(url@) {
            Some(health_entries(*table)[url@].healthy)
        } else {
            None
        }),
{
    table.get(url).map(|entry| entry.healthy)
}

/// Trusted: `dashmap::DashMap::insert` sets the entry of a key, whether or not there was one.
#[verifier::external_body]
fn insert_health(table: &mut SharedHealthStatus, url: String, health: UpstreamHealth)
    ensures
        health_entries(*final(table)) == health_entries(*old(table)).insert(url@, health),
{
    table.insert(url, health);
}

/// Trusted: `dashmap::DashMap::remove` takes the entry of a key out of the map and returns it, and
/// does nothing where there is none.
#[verifier::external_body]
fn take_health(table: &mut SharedHealthStatus, url: &str) -> (taken: Option<UpstreamHealth>)
    ensures
        taken == (if health_entries(*old(table)).dom().contains(url@) {
            Some(health_entries(*old(table))[url@])
        } else {
            None
        }),
        health_entries(*final(table)) == health_entries(*old(table)).remove(url@),
{
    table.remove(url).map(|entry| entry.1)
}

/// Trusted: `dashmap::DashMap::retain` removes the entries for whose key the closure says no, and
/// leaves the others as they are.
#[verifier::external_body]
fn retain_listed(table: &mut SharedHealthStatus, urls: &Vec<String>)
    ensures
        health_entries(*final(table)) == health_entries(*old(table)).restrict(
            texts(urls@).to_set(),
        ),
{
    table.retain(|url, _| lists(urls, url));
}

// ----- choosing among the upstreams -----

/// An upstream counts as healthy unless the table says otherwise.
pub open spec fn counts_as_healthy(
    entries: Map<Seq<char>, UpstreamHealth>,
) -> spec_fn(Seq<char>) -> bool {
    |url: Seq<char>| !entries.dom().contains(url) || entries[url].healthy
}

/// The healthy ones of `urls`, or all of them where none is healthy.
pub open spec fn usable(
    urls: Seq<Seq<char>>,
    entries: Map<Seq<char>, UpstreamHealth>,
) -> Seq<Seq<char>> {
    let healthy = urls.filter(counts_as_healthy(entries));
    if healthy.len() == 0 {
        urls
    } else {
        healthy
    }
}

/// The upstreams that requests may go to: the healthy ones, or all of them where none is healthy.
pub fn filter_healthy_upstreams(
    upstreams: &[String],
    health_status: &SharedHealthStatus,
) -> (kept: Vec<String>)
    ensures
        texts(kept@) == usable(texts(upstreams@), health_entries(*health_status)),
{
    let ghost entries = health_entries(*health_status);
    let ghost urls = texts(upstreams@);
    let mut healthy: Vec<String> = Vec::new();
    let mut all: Vec<String> = Vec::new();
    let mut i: usize = 0;
    proof {
        reveal(Seq::filter);
        assert(texts(healthy@) =~= urls.take(0).filter(counts_as_healthy(entries)));
        assert(texts(all@) =~= urls.take(0));
    }
    while i < upstreams.len()
        invariant
            i <= upstreams@.len(),
            entries == health_entries(*health_status),
            urls == texts(upstreams@),
            texts(healthy@) == urls.take(i as int).filter(counts_as_healthy(entries)),
            texts(all@) == urls.take(i as int),
        decreases upstreams@.len() - i,
    {
        let ghost seen = urls.take(i as int);
        let ghost before = healthy@;
        let ghost all_before = all@;
        let up: bool = match recorded_health(health_status, upstreams[i].as_str()) {
            Some(flag) => flag,
            None => true,
        };
        if up {
            healthy.push(upstreams[i].clone());
            assert(texts(healthy@) =~= texts(before).push(urls[i as int]));
        }
        all.push(upstreams[i].clone());
        proof {
            assert(texts(all@) =~= texts(all_before).push(urls[i as int]));
            assert(urls.take(i + 1) =~= seen.push(urls[i as int]));
            assert(seen.push(urls[i as int]).drop_last() =~= seen);
            reveal(Seq::filter);
        }
        i = i + 1;
    }
    assert(urls.take(i as int) =~= urls);
    assert(texts(healthy@).len() == healthy@.len());
    if healthy.len() == 0 {
        all
    } else {
        healthy
    }
}

// ----- one round of the check -----

/// The upstreams of all rules, one rule after the other.
pub open spec fn all_upstreams(rules: Seq<RouteRule>) -> Seq<Seq<char>>
    decreases rules.len(),
{
    if rules.len() == 0 {
        Seq::empty()
    } else {
        all_upstreams(rules.drop_last()) + texts(rules.last().upstream@)
    }
}

/// The upstreams of all rules, each once.
pub fn collect_upstreams(rules: &Vec<RouteRule>) -> (urls: Vec<String>)
    ensures
        texts(urls@) == distinct(all_upstreams(rules@)),
{
    let mut urls: Vec<String> = Vec::new();
    let mut i: usize = 0;
    assert(rules@.take(0) =~= Seq::<RouteRule>::empty());
    assert(texts(urls@) =~= Seq::<Seq<char>>::empty());
    while i < rules.len()
        invariant
            i <= rules@.len(),
            texts(urls@) == distinct(all_upstreams(rules@.take(i as int))),
        decreases rules@.len() - i,
    {
        let upstream = &rules[i].upstream;
        let ghost seen = all_upstreams(rules@.take(i as int));
        let ghost own = texts(upstream@);
        let mut j: usize = 0;
        assert(seen + own.take(0) =~= seen);
        while j < upstream.len()
            invariant
                j <= upstream@.len(),
                own == texts(upstream@),
                texts(urls@) == distinct(seen + own.take(j as int)),
            decreases upstream@.len() - j,
        {
            push_distinct(&mut urls, upstream[j].as_str());
            proof {
                let grown = seen + own.take(j + 1);
                assert(grown.drop_last() =~= seen + own.take(j as int));
                assert(grown.last() == own[j as int]);
            }
            j = j + 1;
        }
        proof {
            let grown = rules@.take(i + 1);
            assert(grown.drop_last() =~= rules@.take(i as int));
            assert(own.take(j as int) =~= own);
        }
        i = i + 1;
    }
    assert(rules@.take(i as int) =~= rules@);
    urls
}

/// `after` has an entry for each of `urls` and no other; the entries that `before` has are kept,
/// the others are fresh.
pub open spec fn synced(
    before: Map<Seq<char>, UpstreamHealth>,
    after: Map<Seq<char>, UpstreamHealth>,
    urls: Seq<Seq<char>>,
) -> bool {
    &&& forall|url: Seq<char>| #[trigger] after.dom().contains(url) <==> urls.contains(url)
    &&& forall|url: Seq<char>| #[trigger]
        after.dom().contains(url) ==> if before.dom().contains(url) {
            after[url] == before[url]
        } else {
            after[url].is_fresh(url)
        }
}

/// Takes up the upstreams that are new to the table and drops those that are gone.
pub fn sync_health_table(table: &mut SharedHealthStatus, urls: &Vec<String>)
    ensures
        synced(health_entries(*old(table)), health_entries(*final(table)), texts(urls@)),
{
    let ghost before = health_entries(*table);
    let mut i: usize = 0;
    while i < urls.len()
        invariant
            i <= urls@.len(),
            before == health_entries(*old(table)),
            forall|url: Seq<char>| #[trigger]
                health_entries(*table).dom().contains(url) <==> before.dom().contains(url)
                    || texts(urls@).take(i as int).contains(url),
            forall|url: Seq<char>| #[trigger]
                health_entries(*table).dom().contains(url) ==> if before.dom().contains(url) {
                    health_entries(*table)[url] == before[url]
                } else {
                    health_entries(*table)[url].is_fresh(url)
                },
        decreases urls@.len() - i,
    {
        let ghost now = health_entries(*table);
        let ghost seen = texts(urls@).take(i as int);
        let ghost grown = texts(urls@).take(i + 1);
        if recorded_health(table, urls[i].as_str()).is_none() {
            insert_health(table, urls[i].clone(), UpstreamHealth::new(urls[i].clone()));
        }
        proof {
            assert(grown =~= seen.push(urls@[i as int]@));
            assert forall|url: Seq<char>| #[trigger]
                health_entries(*table).dom().contains(url) <==> before.dom().contains(url)
                    || grown.contains(url) by {
                if seen.contains(url) {
                    assert(grown[seen.index_of(url)] == url);
                }
                if grown.contains(url) && grown.index_of(url) < seen.len() {
                    assert(seen[grown.index_of(url)] == url);
                }
                assert(grown[seen.len() as int] == urls@[i as int]@);
                assert(now.dom().contains(url) <==> before.dom().contains(url) || seen.contains(
                    url,
                ));
            }
        }
        i = i + 1;
    }
    let ghost now = health_entries(*table);
    assert(texts(urls@).take(i as int) =~= texts(urls@));
    retain_listed(table, urls);
    assert forall|url: Seq<char>| #[trigger]
        health_entries(*table).dom().contains(url) <==> texts(urls@).contains(url) by {
        assert(now.dom().contains(url) <==> before.dom().contains(url) || texts(urls@).contains(
            url,
        ));
    }
}

/// The address that is probed for an upstream.
pub open spec fn probe_address(url: Seq<char>, path: Seq<char>) -> Seq<char> {
    url + path
}

/// The address that is probed for an upstream.
pub fn probe_url(url: &str, path: &str) -> (address: String)
    ensures
        address@ == probe_address(url@, path@),
{
    concat2(url, path)
}

/// `after` is the table once a round has begun, and `urls` are to be probed: the upstreams of the
/// rules, each once. Where the check is not enabled there are none and the table stays as it is.
pub open spec fn round_begun(
    before: Map<Seq<char>, UpstreamHealth>,
    after: Map<Seq<char>, UpstreamHealth>,
    enabled: bool,
    rules: Seq<RouteRule>,
    urls: Seq<Seq<char>>,
) -> bool {
    if enabled {
        &&& urls == distinct(all_upstreams(rules))
        &&& synced(before, after, urls)
    } else {
        &&& urls.len() == 0
        &&& after == before
    }
}

/// Takes up a round: the table gets the upstreams of the rules, which are returned to be probed.
/// Where the check is not enabled there is nothing to probe and the table stays as it is.
pub fn begin_round(
    table: &mut SharedHealthStatus,
    config: &HealthCheckConfig,
    rules: &Vec<RouteRule>,
) -> (urls: Vec<String>)
    ensures
        round_begun(
            health_entries(*old(table)),
            health_entries(*final(table)),
            config.enabled,
            rules@,
            texts(urls@),
        ),
        !config.enabled ==> *final(table) == *old(table),
{
    if !config.enabled {
        return Vec::new();
    }
    let urls = collect_upstreams(rules);
    sync_health_table(table, &urls);
    urls
}

/// A probe with this response status, or without a response, has succeeded.
pub open spec fn is_success(status: Option<u16>) -> bool {
    status matches Some(code) && 200 <= code < 300
}

/// Whether a probe with this response status, or without a response, has succeeded.
pub fn probe_succeeded(status: Option<u16>) -> (b: bool)
    ensures
        b == is_success(status),
{
    match status {
        Some(code) => 200 <= code && code < 300,
        None => false,
    }
}

/// The entries after a probe of an upstream: its entry counts the probe, where it has one.
pub open spec fn probed(
    entries: Map<Seq<char>, UpstreamHealth>,
    url: Seq<char>,
    success: bool,
    config: HealthCheckConfig,
) -> Map<Seq<char>, UpstreamHealth> {
    if entries.dom().contains(url) {
        entries.insert(
            url,
            entries[url].after_probe(
                success,
                config.healthy_threshold,
                config.unhealthy_threshold,
            ),
        )
    } else {
        entries
    }
}

/// Records the outcome of a probe of an upstream. Nothing happens where the upstream has no entry
/// any more.
pub fn record_probe(
    table: &mut SharedHealthStatus,
    url: &str,
    success: bool,
    config: &HealthCheckConfig,
)
    ensures
        health_entries(*final(table)) == probed(
            health_entries(*old(table)),
            url@,
            success,
            *config,
        ),
{
    let ghost before = health_entries(*table);
    match take_health(table, url) {
        Some(entry) => {
            let mut health = entry;
            if success {
                health.record_success(config.healthy_threshold);
            } else {
                health.record_failure(config.unhealthy_threshold);
            }
            insert_health(table, url.to_owned(), health);
            assert(health_entries(*table) =~= before.insert(url@, health));
        },
        None => {
            assert(health_entries(*table) =~= before);
        },
    }
}

// ----- laws -----

/// The state after `n` failed probes in a row.
pub open spec fn after_failures(h: UpstreamHealth, n: nat, threshold: u32) -> UpstreamHealth
    decreases n,
{
    if n == 0 {
        h
    } else {
        after_failures(h, (n - 1) as nat, threshold).after_failure(threshold)
    }
}

/// The state after `n` successful probes in a row.
pub open spec fn after_successes(h: UpstreamHealth, n: nat, threshold: u32) -> UpstreamHealth
    decreases n,
{
    if n == 0 {
        h
    } else {
        after_successes(h, (n - 1) as nat, threshold).after_success(threshold)
    }
}

/// An upstream in service that has not failed last goes out of service with the failure that
/// reaches the threshold, not before, and stays out however many follow. A threshold of 0 acts as
/// one of 1.
pub proof fn lemma_unhealthy_at_threshold(h: UpstreamHealth, n: nat, threshold: u32)
    requires
        h.healthy,
        h.consecutive_failures == 0,
    ensures
        after_failures(h, n, threshold).healthy <==> n == 0 || n < threshold,
        n <= u32::MAX ==> after_failures(h, n, threshold).consecutive_failures == n,
    decreases n,
{
    if n > 0 {
        lemma_unhealthy_at_threshold(h, (n - 1) as nat, threshold);
    }
}

/// An upstream out of service that has not succeeded last comes back with the success that reaches
/// the threshold, not before, and stays in service however many follow. A threshold of 0 acts as
/// one of 1.
pub proof fn lemma_recovery_at_threshold(h: UpstreamHealth, n: nat, threshold: u32)
    requires
        !h.healthy,
        h.consecutive_successes == 0,
    ensures
        after_successes(h, n, threshold).healthy <==> n > 0 && n >= threshold,
        n <= u32::MAX ==> after_successes(h, n, threshold).consecutive_successes == n,
    decreases n,
{
    if n > 0 {
        lemma_recovery_at_threshold(h, (n - 1) as nat, threshold);
    }
}

/// The state after a history of probes, each of which has succeeded or not.
pub open spec fn after_history(
    h: UpstreamHealth,
    history: Seq<bool>,
    healthy_threshold: u32,
    unhealthy_threshold: u32,
) -> UpstreamHealth
    decreases history.len(),
{
    if history.len() == 0 {
        h
    } else {
        after_history(
            h,
            history.drop_last(),
            healthy_threshold,
            unhealthy_threshold,
        ).after_probe(history.last(), healthy_threshold, unhealthy_threshold)
    }
}

/// The `n` probes before position `end` had the given outcome.
pub open spec fn ends_run(history: Seq<bool>, outcome: bool, n: nat, end: int) -> bool {
    &&& n <= end <= history.len()
    &&& forall|k: int| end - n <= k < end ==> #[trigger] history[k] == outcome
}

/// A threshold as a number of probes: at least one.
pub open spec fn at_least_one(threshold: u32) -> nat {
    if threshold == 0 {
        1
    } else {
        threshold as nat
    }
}

/// There was a run of as many failures as the threshold asks for, and no run of as many successes
/// as the other threshold asks for came after it.
pub open spec fn taken_out(
    history: Seq<bool>,
    healthy_threshold: u32,
    unhealthy_threshold: u32,
) -> bool {
    exists|end: int| #[trigger]
        ends_run(history, false, at_least_one(unhealthy_threshold), end) && forall|later: int|
            end < later <= history.len() ==> !#[trigger] ends_run(
                history,
                true,
                at_least_one(healthy_threshold),
                later,
            )
}

/// How many of the last probes in a row had the given outcome.
spec fn last_run(history: Seq<bool>, outcome: bool) -> nat
    decreases history.len(),
{
    if history.len() == 0 || history.last() != outcome {
        0
    } else {
        1 + last_run(history.drop_last(), outcome)
    }
}

proof fn lemma_last_run(history: Seq<bool>, outcome: bool, n: nat)
    ensures
        last_run(history, outcome) >= n <==> ends_run(history, outcome, n, history.len() as int),
    decreases history.len(),
{
    let end = history.len() as int;
    if n > 0 && end > 0 {
        let front = history.drop_last();
        lemma_last_run(front, outcome, (n - 1) as nat);
        if ends_run(history, outcome, n, end) {
            assert(history[end - 1] == outcome);
            assert forall|k: int| end - n <= k < end - 1 implies #[trigger] front[k] == outcome by {
                assert(history[k] == outcome);
            }
            assert(ends_run(front, outcome, (n - 1) as nat, end - 1));
        }
        if last_run(history, outcome) >= n {
            assert forall|k: int| end - n <= k < end implies #[trigger] history[k] == outcome by {
                if k < end - 1 {
                    assert(front[k] == outcome);
                }
            }
        }
    }
}

proof fn lemma_run_in_front(history: Seq<bool>, outcome: bool, n: nat, end: int)
    requires
        0 <= end < history.len(),
    ensures
        ends_run(history, outcome, n, end) <==> ends_run(history.drop_last(), outcome, n, end),
{
    let front = history.drop_last();
    if ends_run(history, outcome, n, end) {
        assert forall|k: int| end - n <= k < end implies #[trigger] front[k] == outcome by {
            assert(history[k] == outcome);
        }
    }
    if ends_run(front, outcome, n, end) {
        assert forall|k: int| end - n <= k < end implies #[trigger] history[k] == outcome by {
            assert(front[k] == outcome);
        }
    }
}

/// What one more probe does to `taken_out`.
proof fn lemma_taken_out_step(
    history: Seq<bool>,
    healthy_threshold: u32,
    unhealthy_threshold: u32,
)
    requires
        history.len() > 0,
    ensures
        taken_out(history, healthy_threshold, unhealthy_threshold) <==> if history.last() {
            taken_out(history.drop_last(), healthy_threshold, unhealthy_threshold) && last_run(
                history,
                true,
            ) < at_least_one(healthy_threshold)
        } else {
            taken_out(history.drop_last(), healthy_threshold, unhealthy_threshold) || last_run(
                history,
                false,
            ) >= at_least_one(unhealthy_threshold)
        },
{
    let front = history.drop_last();
    let len = history.len() as int;
    let down = at_least_one(unhealthy_threshold);
    let up = at_least_one(healthy_threshold);
    lemma_last_run(history, true, up);
    lemma_last_run(history, false, down);
    assert(history[len - 1] == history.last());
    if taken_out(history, healthy_threshold, unhealthy_threshold) {
        let end = choose|end: int| #[trigger]
            ends_run(history, false, down, end) && forall|later: int|
                end < later <= history.len() ==> !#[trigger] ends_run(history, true, up, later);
        if end < len {
            lemma_run_in_front(history, false, down, end);
            assert forall|later: int| end < later <= front.len() implies !#[trigger] ends_run(
                front,
                true,
                up,
                later,
            ) by {
                lemma_run_in_front(history, true, up, later);
            }
            assert(taken_out(front, healthy_threshold, unhealthy_threshold));
        }
    }
    if taken_out(front, healthy_threshold, unhealthy_threshold) {
        let end = choose|end: int| #[trigger]
            ends_run(front, false, down, end) && forall|later: int|
                end < later <= front.len() ==> !#[trigger] ends_run(front, true, up, later);
        lemma_run_in_front(history, false, down, end);
        assert forall|later: int| end < later < len implies !#[trigger] ends_run(
            history,
            true,
            up,
            later,
        ) by {
            lemma_run_in_front(history, true, up, later);
        }
        if !ends_run(history, true, up, len) {
            assert(taken_out(history, healthy_threshold, unhealthy_threshold));
        }
    }
    if ends_run(history, false, down, len) {
        assert(taken_out(history, healthy_threshold, unhealthy_threshold));
    }
}

proof fn lemma_history_state(
    h: UpstreamHealth,
    history: Seq<bool>,
    healthy_threshold: u32,
    unhealthy_threshold: u32,
)
    requires
        h.is_fresh(h.url@),
    ensures
        ({
            let now = after_history(h, history, healthy_threshold, unhealthy_threshold);
            &&& now.healthy <==> !taken_out(history, healthy_threshold, unhealthy_threshold)
            &&& now.healthy ==> now.consecutive_failures == last_run(history, false)
                && last_run(history, false) < at_least_one(unhealthy_threshold)
            &&& !now.healthy ==> now.consecutive_successes == last_run(history, true)
                && last_run(history, true) < at_least_one(healthy_threshold)
        }),
    decreases history.len(),
{
    if history.len() > 0 {
        lemma_history_state(h, history.drop_last(), healthy_threshold, unhealthy_threshold);
        lemma_taken_out_step(history, healthy_threshold, unhealthy_threshold);
    }
}

/// Over any history of probes, an upstream is out of service exactly where some run of
/// `unhealthy_threshold` failures has no later run of `healthy_threshold` successes. A threshold of
/// 0 acts as one of 1.
pub proof fn lemma_health_over_history(
    h: UpstreamHealth,
    history: Seq<bool>,
    healthy_threshold: u32,
    unhealthy_threshold: u32,
)
    requires
        h.is_fresh(h.url@),
    ensures
        after_history(h, history, healthy_threshold, unhealthy_threshold).healthy <==> !taken_out(
            history,
            healthy_threshold,
            unhealthy_threshold,
        ),
{
    lemma_history_state(h, history, healthy_threshold, unhealthy_threshold);
}

/// A success takes no upstream out of service and starts the count of failures over; a failure
/// brings none back and starts the count of successes over.
pub proof fn lemma_probe_resets_other_counter(h: UpstreamHealth, threshold: u32)
    ensures
        h.healthy ==> h.after_success(threshold).healthy,
        h.after_success(threshold).consecutive_failures == 0,
        !h.healthy ==> !h.after_failure(threshold).healthy,
        h.after_failure(threshold).consecutive_successes == 0,
{
}

/// What is left to choose from comes out of the given upstreams, and is never empty unless they
/// are: with every upstream unhealthy all of them stay in use.
pub proof fn lemma_usable_nonempty(
    urls: Seq<Seq<char>>,
    entries: Map<Seq<char>, UpstreamHealth>,
)
    ensures
        urls.len() > 0 ==> usable(urls, entries).len() > 0,
        forall|url: Seq<char>| #[trigger]
            usable(urls, entries).contains(url) ==> urls.contains(url),
        (exists|i: int| 0 <= i < urls.len() && counts_as_healthy(entries)(#[trigger] urls[i]))
            ==> forall|url: Seq<char>| #[trigger]
            usable(urls, entries).contains(url) <==> urls.contains(url) && counts_as_healthy(
                entries,
            )(url),
{
    lemma_filter_members(urls, counts_as_healthy(entries));
    let healthy = urls.filter(counts_as_healthy(entries));
    if exists|i: int| 0 <= i < urls.len() && counts_as_healthy(entries)(#[trigger] urls[i]) {
        let i = choose|i: int|
            0 <= i < urls.len() && counts_as_healthy(entries)(#[trigger] urls[i]);
        assert(urls.contains(urls[i]));
        assert(healthy.contains(urls[i]));
    }
}

/// Filtering keeps the elements for which the predicate holds, and no other.
pub proof fn lemma_filter_members(s: Seq<Seq<char>>, pred: spec_fn(Seq<char>) -> bool)
    ensures
        forall|x: Seq<char>| #[trigger] s.filter(pred).contains(x) <==> s.contains(x) && pred(x),
    decreases s.len(),
{
    reveal(Seq::filter);
    if s.len() > 0 {
        let front = s.drop_last();
        lemma_filter_members(front, pred);
        assert forall|x: Seq<char>| #[trigger]
            s.filter(pred).contains(x) <==> s.contains(x) && pred(x) by {
            assert(front.filter(pred).contains(x) <==> front.contains(x) && pred(x));
            if s.contains(x) && s.index_of(x) < front.len() {
                assert(front[s.index_of(x)] == x);
            }
            if front.contains(x) {
                assert(s[front.index_of(x)] == x);
            }
            assert(s[s.len() - 1] == s.last());
            if pred(s.last()) {
                let grown = front.filter(pred).push(s.last());
                assert(grown[grown.len() - 1] == s.last());
                if front.filter(pred).contains(x) {
                    assert(grown[front.filter(pred).index_of(x)] == x);
                }
                if grown.contains(x) && grown.index_of(x) < front.filter(pred).len() {
                    assert(front.filter(pred)[grown.index_of(x)] == x);
                }
            }
        }
    }
}

/// After a round has begun, the table holds exactly the upstreams that some rule names.
pub proof fn lemma_synced_covers_rules(
    before: Map<Seq<char>, UpstreamHealth>,
    after: Map<Seq<char>, UpstreamHealth>,
    rules: Seq<RouteRule>,
)
    requires
        synced(before, after, distinct(all_upstreams(rules))),
    ensures
        forall|url: Seq<char>| #[trigger]
            after.dom().contains(url) <==> all_upstreams(rules).contains(url),
{
    lemma_distinct(all_upstreams(rules));
}

/// The entries after the upstreams have been probed in the given order; `reply` gives the status of
/// the response of each, or none where there was no response.
pub open spec fn recorded(
    entries: Map<Seq<char>, UpstreamHealth>,
    order: Seq<Seq<char>>,
    reply: spec_fn(Seq<char>) -> Option<u16>,
    config: HealthCheckConfig,
) -> Map<Seq<char>, UpstreamHealth>
    decreases order.len(),
{
    if order.len() == 0 {
        entries
    } else {
        let url = order.last();
        probed(
            recorded(entries, order.drop_last(), reply, config),
            url,
            is_success(reply(url)),
            config,
        )
    }
}

/// `after` is what a whole round makes of `before`. Where the check is enabled, the upstreams of
/// the rules have an entry and no others; known ones come with their counters, new ones begin
/// fresh, and each then counts one probe. Where it is not enabled nothing changes.
pub open spec fn is_round(
    before: Map<Seq<char>, UpstreamHealth>,
    after: Map<Seq<char>, UpstreamHealth>,
    rules: Seq<RouteRule>,
    reply: spec_fn(Seq<char>) -> Option<u16>,
    config: HealthCheckConfig,
) -> bool {
    if config.enabled {
        &&& forall|url: Seq<char>| #[trigger]
            after.dom().contains(url) <==> all_upstreams(rules).contains(url)
        &&& exists|taken_up: Map<Seq<char>, UpstreamHealth>| #[trigger]
            synced(before, taken_up, distinct(all_upstreams(rules))) && forall|url: Seq<char>|
                #[trigger]
                after.dom().contains(url) ==> after[url] == taken_up[url].after_probe(
                    is_success(reply(url)),
                    config.healthy_threshold,
                    config.unhealthy_threshold,
                )
    } else {
        after == before
    }
}

proof fn lemma_recorded(
    entries: Map<Seq<char>, UpstreamHealth>,
    order: Seq<Seq<char>>,
    reply: spec_fn(Seq<char>) -> Option<u16>,
    config: HealthCheckConfig,
)
    requires
        order.no_duplicates(),
        forall|i: int| 0 <= i < order.len() ==> entries.dom().contains(#[trigger] order[i]),
    ensures
        recorded(entries, order, reply, config).dom() == entries.dom(),
        forall|url: Seq<char>| #[trigger]
            entries.dom().contains(url) ==> recorded(entries, order, reply, config)[url] == (
            if order.contains(url) {
                entries[url].after_probe(
                    is_success(reply(url)),
                    config.healthy_threshold,
                    config.unhealthy_threshold,
                )
            } else {
                entries[url]
            }),
    decreases order.len(),
{
    if order.len() > 0 {
        let front = order.drop_last();
        let last = order.last();
        assert forall|i: int| 0 <= i < front.len() implies entries.dom().contains(
            #[trigger] front[i],
        ) by {
            assert(order[i] == front[i]);
        }
        lemma_recorded(entries, front, reply, config);
        assert(order[order.len() - 1] == last);
        assert(recorded(entries, order, reply, config).dom() =~= entries.dom());
        assert(!front.contains(last)) by {
            if front.contains(last) {
                let i = front.index_of(last);
                assert(order[i] == order[order.len() - 1]);
            }
        }
        assert forall|url: Seq<char>| url != last implies (order.contains(url)
            <==> #[trigger] front.contains(url)) by {
            if order.contains(url) {
                assert(front[order.index_of(url)] == url);
            }
            if front.contains(url) {
                assert(order[front.index_of(url)] == url);
            }
        }
    }
}

/// A whole round does what it should, in whatever order the replies come in: `taken_up` is the
/// table once the round has begun, and `order` lists the upstreams to be probed, each once.
pub proof fn lemma_whole_round(
    before: Map<Seq<char>, UpstreamHealth>,
    taken_up: Map<Seq<char>, UpstreamHealth>,
    order: Seq<Seq<char>>,
    rules: Seq<RouteRule>,
    reply: spec_fn(Seq<char>) -> Option<u16>,
    config: HealthCheckConfig,
)
    requires
        if config.enabled {
            &&& synced(before, taken_up, distinct(all_upstreams(rules)))
            &&& order.to_multiset() == distinct(all_upstreams(rules)).to_multiset()
        } else {
            &&& taken_up == before
            &&& order.len() == 0
        },
    ensures
        is_round(before, recorded(taken_up, order, reply, config), rules, reply, config),
{
    if config.enabled {
        let urls = distinct(all_upstreams(rules));
        lemma_distinct(all_upstreams(rules));
        urls.lemma_multiset_has_no_duplicates();
        order.lemma_multiset_has_no_duplicates_conv();
        order.to_multiset_ensures();
        urls.to_multiset_ensures();
        assert forall|url: Seq<char>| #[trigger] order.contains(url) <==> urls.contains(url) by {
            assert(order.to_multiset().count(url) == urls.to_multiset().count(url));
        }
        assert forall|i: int| 0 <= i < order.len() implies taken_up.dom().contains(
            #[trigger] order[i],
        ) by {
            assert(order.contains(order[i]));
        }
        lemma_recorded(taken_up, order, reply, config);
        let after = recorded(taken_up, order, reply, config);
        assert forall|url: Seq<char>| #[trigger] after.dom().contains(url) implies after[url]
            == taken_up[url].after_probe(
            is_success(reply(url)),
            config.healthy_threshold,
            config.unhealthy_threshold,
        ) by {
            assert(taken_up.dom().contains(url));
            assert(urls.contains(url));
            assert(order.contains(url));
        }
        assert(synced(before, taken_up, urls));
    }
}

/// A probe succeeds exactly where there is a response whose status is in the two hundreds.
pub proof fn lemma_success_is_two_hundred(status: Option<u16>)
    ensures
        is_success(status) <==> status is Some && status->0 as int / 100 == 2,
        status is None ==> !is_success(status),
{
}

/// The upstreams of all rules are those that some rule lists, and no others.
pub proof fn lemma_upstreams_are_those_listed(rules: Seq<RouteRule>, url: Seq<char>)
    ensures
        all_upstreams(rules).contains(url) <==> exists|i: int, k: int|
            0 <= i < rules.len() && 0 <= k < rules[i].upstream@.len() && (
            #[trigger] rules[i].upstream@[k])@ == url,
    decreases rules.len(),
{
    if rules.len() > 0 {
        let front = rules.drop_last();
        let own = texts(rules.last().upstream@);
        let before = all_upstreams(front);
        lemma_upstreams_are_those_listed(front, url);
        let all = before + own;
        if all.contains(url) {
            let at = all.index_of(url);
            if at < before.len() {
                assert(before[at] == url);
                let (i, k) = choose|i: int, k: int|
                    0 <= i < front.len() && 0 <= k < front[i].upstream@.len() && (
                    #[trigger] front[i].upstream@[k])@ == url;
                assert(rules[i].upstream@[k]@ == url);
            } else {
                let k = at - before.len();
                assert(own[k] == url);
                assert(rules[rules.len() - 1].upstream@[k]@ == url);
            }
        }
        if exists|i: int, k: int|
            0 <= i < rules.len() && 0 <= k < rules[i].upstream@.len() && (
            #[trigger] rules[i].upstream@[k])@ == url {
            let (i, k) = choose|i: int, k: int|
                0 <= i < rules.len() && 0 <= k < rules[i].upstream@.len() && (
                #[trigger] rules[i].upstream@[k])@ == url;
            if i < front.len() {
                assert(front[i].upstream@[k]@ == url);
                assert(before.contains(url));
                assert(all[before.index_of(url)] == url);
            } else {
                assert(own[k] == url);
                assert(all[before.len() + k] == url);
            }
        }
    }
}

/// A probe counts for its own upstream only: the counter of its outcome goes up by one, from the
/// limit to 0, the other starts over, and all other entries stay as they are.
pub proof fn lemma_probe_counts_once(
    entries: Map<Seq<char>, UpstreamHealth>,
    url: Seq<char>,
    success: bool,
    config: HealthCheckConfig,
)
    ensures
        ({
            let now = probed(entries, url, success, config);
            &&& now.dom() == entries.dom()
            &&& forall|other: Seq<char>| #[trigger]
                entries.contains_key(other) && other != url ==> now[other] == entries[other]
            &&& entries.contains_key(url) ==> now[url].url == entries[url].url
            &&& entries.contains_key(url) && success ==> {
                &&& now[url].consecutive_successes as int == (entries[url].consecutive_successes
                    + 1) % 0x1_0000_0000
                &&& now[url].consecutive_failures == 0
            }
            &&& entries.contains_key(url) && !success ==> {
                &&& now[url].consecutive_failures as int == (entries[url].consecutive_failures + 1)
                    % 0x1_0000_0000
                &&& now[url].consecutive_successes == 0
            }
        }),
{
    assert(probed(entries, url, success, config).dom() =~= entries.dom());
}

/// When a round begins, an upstream that was known keeps its state, and one that was not is in
/// service with both counters at 0.
pub proof fn lemma_round_begins(
    before: Map<Seq<char>, UpstreamHealth>,
    after: Map<Seq<char>, UpstreamHealth>,
    urls: Seq<Seq<char>>,
    k: int,
)
    requires
        synced(before, after, urls),
        0 <= k < urls.len(),
    ensures
        after.contains_key(urls[k]),
        before.contains_key(urls[k]) ==> after[urls[k]] == before[urls[k]],
        !before.contains_key(urls[k]) ==> {
            &&& after[urls[k]].url@ == urls[k]
            &&& after[urls[k]].healthy
            &&& after[urls[k]].consecutive_failures == 0
            &&& after[urls[k]].consecutive_successes == 0
        },
        forall|url: Seq<char>| #[trigger] after.contains_key(url) ==> urls.contains(url),
{
    assert(urls.contains(urls[k]));
    assert(after.dom().contains(urls[k]));
    assert forall|url: Seq<char>| #[trigger] after.contains_key(url) implies urls.contains(
        url,
    ) by {
        assert(after.dom().contains(url));
    }
}

/// Among the upstreams that are left to choose from, the order of the list is kept.
pub proof fn lemma_usable_in_order(
    urls: Seq<Seq<char>>,
    entries: Map<Seq<char>, UpstreamHealth>,
)
    ensures
        (exists|i: int|
            0 <= i < urls.len() && (entries.contains_key(#[trigger] urls[i])
                ==> entries[urls[i]].healthy)) ==> usable(urls, entries) == urls.filter(
            |url: Seq<char>| entries.contains_key(url) ==> entries[url].healthy,
        ),
        (forall|i: int|
            0 <= i < urls.len() ==> entries.contains_key(#[trigger] urls[i])
                && !entries[urls[i]].healthy) ==> usable(urls, entries) == urls,
{
    let pred = counts_as_healthy(entries);
    let kept = urls.filter(pred);
    lemma_filter_members(urls, pred);
    assert(pred =~= |url: Seq<char>| entries.contains_key(url) ==> entries[url].healthy);
    if exists|i: int|
        0 <= i < urls.len() && (entries.contains_key(#[trigger] urls[i])
            ==> entries[urls[i]].healthy) {
        let i = choose|i: int|
            0 <= i < urls.len() && (entries.contains_key(#[trigger] urls[i])
                ==> entries[urls[i]].healthy);
        assert(urls.contains(urls[i]));
        assert(kept.contains(urls[i]));
    }
    if forall|i: int|
        0 <= i < urls.len() ==> entries.contains_key(#[trigger] urls[i])
            && !entries[urls[i]].healthy {
        if kept.len() > 0 {
            assert(kept.contains(kept[0]));
            let k = urls.index_of(kept[0]);
            assert(entries.contains_key(urls[k]) && !entries[urls[k]].healthy);
        }
    }
}

/// An enabled round probes each upstream that a rule lists once and no other, and the table then
/// has just these; a round that is not enabled probes none.
pub proof fn lemma_round_probes_each_once(
    before: Map<Seq<char>, UpstreamHealth>,
    after: Map<Seq<char>, UpstreamHealth>,
    enabled: bool,
    rules: Seq<RouteRule>,
    urls: Seq<Seq<char>>,
    url: Seq<char>,
)
    requires
        round_begun(before, after, enabled, rules, urls),
    ensures
        urls.no_duplicates(),
        enabled ==> (urls.contains(url) <==> exists|i: int, k: int|
            0 <= i < rules.len() && 0 <= k < rules[i].upstream@.len() && (
            #[trigger] rules[i].upstream@[k])@ == url),
        enabled ==> (after.contains_key(url) <==> urls.contains(url)),
        !enabled ==> urls.len() == 0 && after == before,
{
    lemma_distinct(all_upstreams(rules));
    lemma_upstreams_are_those_listed(rules, url);
    if enabled {
        assert(after.dom().contains(url) <==> urls.contains(url));
    }
}

/// The path is probed at the upstream: behind the upstream's address stands the path, and no more.
pub proof fn lemma_probe_address(url: Seq<char>, path: Seq<char>)
    ensures
        strip_prefix_spec(probe_address(url, path), url) == Some(path),
{
    lemma_prefix_and_rest(url, url, path);
}

} // verus!
