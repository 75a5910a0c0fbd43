//! Route rules and settings of the gateway: how a rule matches a path, when it is valid, and how
//! the active set of rules is replaced.
use crate::health_check::HealthCheckConfig;
use crate::path_matcher::{
    binds, covers_greedily, is_pattern, pattern_matches, tokens_match, tokens_of, RoutePattern,
};
use crate::text::{
    all_digits, concat2, concat3, contains_text, decimal, decimal_text, digits_value, has_char,
    has_prefix, has_text, is_blank, is_blank_text, lemma_blank_iff_trims_to_empty,
    lemma_contains_text, lemma_decimal_reads_back, lemma_prefix_and_rest, opt_text, starts_with,
    str_eq, strip_prefix_spec, texts, trim, without_prefix,
};
use arc_swap::ArcSwap;
use std::sync::Arc;
use std::time::Duration;
use vstd::hash_map::StringHashMap;
use vstd::prelude::*;
use vstd::string::*;

verus! {

/// One routing rule: which paths it takes and where it sends them.
#[derive(Debug, Clone)]
pub struct RouteRule {
    /// The prefixes or patterns of the paths that the rule takes.
    pub prefix: Vec<String>,
    /// The upstreams it forwards to; `service_name` may stand in their place.
    pub upstream: Vec<String>,
    /// The name under which the registry knows the upstreams.
    pub service_name: Option<String>,
    /// The load-balancing strategy.
    pub strategy: String,
    /// The paths that need no authentication.
    pub whitelist: Option<Vec<String>>,
    /// The patterns among the prefixes, compiled.
    pub compiled_prefixes: Vec<RoutePattern>,
    /// The patterns among the whitelist entries, compiled.
    pub compiled_whitelist: Vec<RoutePattern>,
}

/// A list that may also be written as a single string.
#[derive(Debug, Clone)]
pub enum StringOrVec {
    One(String),
    Many(Vec<String>),
}

impl StringOrVec {
    /// The strings that are meant.
    pub open spec fn meant(self) -> Seq<String> {
        match self {
            StringOrVec::One(s) => seq![s],
            StringOrVec::Many(v) => v@,
        }
    }

    /// The list that is meant.
    pub fn into_list(self) -> (list: Vec<String>)
        ensures
            list@ == self.meant(),
    {
        match self {
            StringOrVec::One(s) => {
                let mut list: Vec<String> = Vec::new();
                list.push(s);
                list
            },
            StringOrVec::Many(v) => v,
        }
    }

    /// The list that is meant, where one is given.
    pub fn into_optional_list(given: Option<Self>) -> (list: Option<Vec<String>>)
        ensures
            match given {
                Some(value) => list matches Some(l) && l@ == value.meant(),
                None => list is None,
            },
    {
        match given {
            Some(value) => Some(value.into_list()),
            None => None,
        }
    }
}

/// The strategy of a rule that names none.
pub fn default_strategy() -> (s: String)
    ensures
        s@ == "robin"@,
{
    "robin".to_owned()
}

/// Settings of the gateway.
#[derive(Debug, Clone)]
pub struct Settings {
    pub gateway_bind: String,
    pub jwt_decoding_key: String,
    pub global_qps: u32,
    pub client_qps: u32,
    pub request_timeout_secs: Option<u64>,
    /// The origins allowed by CORS, separated by commas; all of them where nothing is set.
    pub cors_allowed_origins: Option<String>,
    pub nacos: Option<NacosSettings>,
}

/// Settings of the Nacos integration.
#[derive(Debug, Clone)]
pub struct NacosSettings {
    /// The main switch.
    pub enabled: bool,
    /// The addresses of the servers, separated by commas.
    pub server_addrs: String,
    pub username: Option<String>,
    pub password: Option<String>,
    /// Namespace and group of the configuration centre.
    pub config_namespace: String,
    pub config_group: String,
    /// Namespace and group of the service registry.
    pub naming_namespace: String,
    pub naming_group: String,
    /// Whether the gateway registers itself.
    pub register_enabled: bool,
    /// The name under which the gateway registers itself.
    pub service_name: Option<String>,
    /// The configuration entry that holds the route rules.
    pub routes_data_id: Option<String>,
    /// Its group; `config_group` where nothing is set.
    pub routes_group: Option<String>,
}

/// The server address used where none is set.
pub fn default_nacos_addrs() -> (s: String)
    ensures
        s@ == "127.0.0.1:8848"@,
{
    "127.0.0.1:8848".to_owned()
}

/// The namespace used where none is set.
pub fn default_nacos_namespace() -> (s: String)
    ensures
        s@ == "public"@,
{
    "public".to_owned()
}

/// The group used where none is set.
pub fn default_nacos_group() -> (s: String)
    ensures
        s@ == "DEFAULT_GROUP"@,
{
    "DEFAULT_GROUP".to_owned()
}

/// What `Duration::from_secs` returns for a number of seconds.
pub uninterp spec fn whole_seconds(secs: u64) -> Duration;

/// `std::time::Duration::from_secs`: the duration of that many whole seconds. `Duration` is opaque
/// here, so the result is named and nothing more is claimed of it.
pub assume_specification[ std::time::Duration::from_secs ](secs: u64) -> (d: Duration)
    ensures
        d == whole_seconds(secs),
;

impl Settings {
    /// How many seconds a forwarded request may take: ten unless set otherwise.
    pub open spec fn timeout_secs(self) -> u64 {
        match self.request_timeout_secs {
            Some(secs) => secs,
            None => 10,
        }
    }

    /// How long a forwarded request may take: ten seconds unless set otherwise.
    pub fn request_timeout(&self) -> (d: Duration)
        ensures
            d == whole_seconds(self.timeout_secs()),
    {
        Duration::from_secs(self.request_timeout_secs.unwrap_or(10))
    }
}

/// The name of a nested variable for one of the Nacos settings that is written with a single
/// underscore: two underscores stand behind `NACOS`. Other names have none.
pub open spec fn nested_name_of(name: Seq<char>) -> Option<Seq<char>> {
    match strip_prefix_spec(name, "NACOS_"@) {
        Some(rest) => if rest.len() > 0 && rest[0] != '_' {
            Some("NACOS__"@ + rest)
        } else {
            None
        },
        None => None,
    }
}

/// The name of a nested variable for one of the Nacos settings that is written with a single
/// underscore, such as `NACOS__ENABLED` for `NACOS_ENABLED`.
pub fn nested_name(name: &str) -> (nested: Option<String>)
    ensures
        opt_text(nested) == nested_name_of(name@),
{
    match without_prefix(name, "NACOS_") {
        Some(rest) => {
            if rest.as_str().unicode_len() > 0 && rest.as_str().get_char(0) != '_' {
                Some(concat2("NACOS__", rest.as_str()))
            } else {
                None
            }
        },
        None => None,
    }
}

// ----- matching -----

/// A prefix takes a path: a pattern where it matches the whole of it, a malformed pattern where
/// the path begins with its text, and a plain prefix where the path is the prefix or continues it
/// with a `/`.
pub open spec fn prefix_matches(prefix: Seq<char>, path: Seq<char>) -> bool {
    if is_pattern(prefix) {
        match tokens_of(prefix) {
            Some(ts) => tokens_match(ts, path),
            None => starts_with(path, prefix),
        }
    } else {
        path == prefix || starts_with(path, prefix + "/"@)
    }
}

/// A whitelist entry takes a path; a malformed pattern takes none.
pub open spec fn whitelist_matches(entry: Seq<char>, path: Seq<char>) -> bool {
    if is_pattern(entry) {
        pattern_matches(entry, path)
    } else {
        path == entry || starts_with(path, entry + "/"@)
    }
}

/// The entries of `list` that are well-formed patterns, in order.
pub open spec fn compilable(list: Seq<Seq<char>>) -> Seq<Seq<char>>
    decreases list.len(),
{
    if list.len() == 0 {
        Seq::empty()
    } else {
        let front = compilable(list.drop_last());
        if is_pattern(list.last()) && tokens_of(list.last()) is Some {
            front.push(list.last())
        } else {
            front
        }
    }
}

/// The texts of a list of compiled patterns.
pub open spec fn pattern_texts(list: Seq<RoutePattern>) -> Seq<Seq<char>> {
    list.map_values(|p: RoutePattern| p@)
}

/// `vars` holds what `prefix` binds in `path`: its variables where it is a well-formed pattern
/// that matches the whole path, nothing otherwise.
pub open spec fn prefix_binds(
    prefix: Seq<char>,
    path: Seq<char>,
    vars: Map<Seq<char>, String>,
) -> bool {
    if pattern_matches(prefix, path) {
        exists|pieces: Seq<Seq<char>>|
            covers_greedily(tokens_of(prefix)->0, path, pieces) && binds(
                vars,
                tokens_of(prefix)->0,
                pieces,
            )
    } else {
        vars == Map::<Seq<char>, String>::empty()
    }
}

/// Whether `p` holds a character that makes it a pattern.
pub(crate) fn holds_pattern(p: &str) -> (b: bool)
    ensures
        b == is_pattern(p@),
{
    has_char(p, '{') || has_char(p, '*') || has_char(p, '?')
}

fn compile_list(list: &Vec<String>) -> (compiled: Vec<RoutePattern>)
    ensures
        pattern_texts(compiled@) == compilable(texts(list@)),
{
    let mut compiled: Vec<RoutePattern> = Vec::new();
    let mut i: usize = 0;
    assert(texts(list@).take(0) =~= Seq::<Seq<char>>::empty());
    assert(pattern_texts(compiled@) =~= Seq::<Seq<char>>::empty());
    while i < list.len()
        invariant
            i <= list@.len(),
            pattern_texts(compiled@) == compilable(texts(list@).take(i as int)),
        decreases list@.len() - i,
    {
        proof {
            let next = texts(list@).take(i + 1);
            assert(next.drop_last() =~= texts(list@).take(i as int));
            assert(next.last() == list@[i as int]@);
        }
        if holds_pattern(list[i].as_str()) {
            if let Ok(pattern) = RoutePattern::from_pattern(list[i].as_str()) {
                assert(pattern_texts(compiled@.push(pattern)) =~= pattern_texts(compiled@).push(
                    pattern@,
                ));
                compiled.push(pattern);
            }
        }
        i = i + 1;
    }
    assert(texts(list@).take(i as int) =~= texts(list@));
    compiled
}

/// The pattern at `i` is the first with the text `p`.
pub open spec fn is_first_with_text(list: Seq<RoutePattern>, p: Seq<char>, i: int) -> bool {
    &&& 0 <= i < list.len()
    &&& list[i]@ == p
    &&& forall|k: int| 0 <= k < i ==> (#[trigger] list[k])@ != p
}

/// The first compiled pattern with the text `p`; none where no pattern has it.
fn find_compiled<'a>(list: &'a Vec<RoutePattern>, p: &str) -> (found: Option<&'a RoutePattern>)
    ensures
        match found {
            Some(rp) => tokens_of(p@) is Some && exists|i: int| #[trigger]
                is_first_with_text(list@, p@, i) && *rp == list@[i],
            None => forall|i: int| 0 <= i < list@.len() ==> (#[trigger] list@[i])@ != p@,
        },
{
    let mut i: usize = 0;
    while i < list.len()
        invariant
            i <= list@.len(),
            forall|k: int| 0 <= k < i ==> (#[trigger] list@[k])@ != p@,
        decreases list@.len() - i,
    {
        if str_eq(list[i].pattern(), p) {
            assert(is_first_with_text(list@, p@, i as int));
            return Some(&list[i]);
        }
        i = i + 1;
    }
    None
}

/// Whether the path is `prefix` or continues it with a `/`.
fn at_or_below(prefix: &str, path: &str) -> (b: bool)
    ensures
        b == (path@ == prefix@ || starts_with(path@, prefix@ + "/"@)),
{
    str_eq(path, prefix) || has_prefix(path, concat2(prefix, "/").as_str())
}

// ----- validation -----

/// The position of the first blank entry from `from` on.
pub open spec fn first_blank(list: Seq<Seq<char>>, from: int) -> Option<int>
    decreases list.len() - from,
{
    if from < 0 || from >= list.len() {
        None
    } else if is_blank(list[from]) {
        Some(from)
    } else {
        first_blank(list, from + 1)
    }
}

/// The strategies that a rule may name. `round_robin` is another name for `robin`.
pub open spec fn known_strategy(s: Seq<char>) -> bool {
    s == "robin"@ || s == "round_robin"@ || s == "random"@ || s == "iphash"@
}

/// What is wrong with the entry at `at` of the list called `name`.
pub open spec fn blank_entry_message(name: Seq<char>, at: nat) -> Seq<char> {
    name + "["@ + (decimal(at) + "]不能为空"@)
}

fn find_blank(list: &Vec<String>) -> (at: Option<usize>)
    ensures
        match at {
            Some(i) => first_blank(texts(list@), 0) == Some(i as int),
            None => first_blank(texts(list@), 0) is None,
        },
{
    let mut i: usize = 0;
    while i < list.len()
        invariant
            i <= list@.len(),
            first_blank(texts(list@), 0) == first_blank(texts(list@), i as int),
        decreases list@.len() - i,
    {
        assert(texts(list@)[i as int] == list@[i as int]@);
        if is_blank_text(list[i].as_str()) {
            return Some(i);
        }
        i = i + 1;
    }
    None
}

fn blank_entry_text(name: &str, at: usize) -> (message: String)
    ensures
        message@ == blank_entry_message(name@, at as nat),
{
    concat3(name, "[", concat2(decimal_text(at as u64).as_str(), "]不能为空").as_str())
}

impl RouteRule {
    /// The rule takes the path: one of its prefixes does.
    pub open spec fn takes(self, path: Seq<char>) -> bool {
        exists|i: int|
            0 <= i < self.prefix@.len() && prefix_matches((#[trigger] self.prefix@[i])@, path)
    }

    /// The path is on the rule's whitelist.
    pub open spec fn whitelists(self, path: Seq<char>) -> bool {
        self.whitelist matches Some(list) && exists|i: int|
            0 <= i < list@.len() && whitelist_matches((#[trigger] list@[i])@, path)
    }

    /// The first thing that is wrong with the rule, in words; nothing where it is valid.
    pub open spec fn flaw(self) -> Option<Seq<char>> {
        if self.prefix@.len() == 0 {
            Some("prefix不能为空"@)
        } else if let Some(i) = first_blank(texts(self.prefix@), 0) {
            Some(blank_entry_message("prefix"@, i as nat))
        } else if self.upstream@.len() == 0 && self.service_name is None {
            Some("upstream 和 service_name 不能同时为空"@)
        } else if let Some(i) = first_blank(texts(self.upstream@), 0) {
            Some(blank_entry_message("upstream"@, i as nat))
        } else if !known_strategy(self.strategy@) {
            Some("不支持的负载均衡策略: "@ + self.strategy@)
        } else {
            None
        }
    }

    /// Everything but the compiled patterns is as in `other`.
    pub open spec fn same_rule(self, other: RouteRule) -> bool {
        &&& self.prefix == other.prefix
        &&& self.upstream == other.upstream
        &&& self.service_name == other.service_name
        &&& self.strategy == other.strategy
        &&& self.whitelist == other.whitelist
    }

    /// The compiled patterns are those of the prefixes and of the whitelist.
    pub open spec fn is_compiled(self) -> bool {
        &&& pattern_texts(self.compiled_prefixes@) == compilable(texts(self.prefix@))
        &&& self.whitelist matches Some(list) ==> pattern_texts(self.compiled_whitelist@)
            == compilable(texts(list@))
    }

    /// Compiles the patterns among the prefixes and the whitelist entries.
    pub fn compile_patterns(&mut self)
        ensures
            final(self).same_rule(*old(self)),
            final(self).is_compiled(),
            old(self).whitelist is None ==> final(self).compiled_whitelist == old(
                self,
            ).compiled_whitelist,
    {
        self.compiled_prefixes = compile_list(&self.prefix);
        if let Some(list) = &self.whitelist {
            let compiled = compile_list(list);
            self.compiled_whitelist = compiled;
        }
    }

    fn matches_prefix_compiled(&self, prefix: &str, path: &str) -> (b: bool)
        ensures
            b == prefix_matches(prefix@, path@),
    {
        if holds_pattern(prefix) {
            if let Some(compiled) = find_compiled(&self.compiled_prefixes, prefix) {
                return compiled.matches(path);
            }
            match RoutePattern::from_pattern(prefix) {
                Ok(pattern) => pattern.matches(path),
                Err(_) => has_prefix(path, prefix),
            }
        } else {
            at_or_below(prefix, path)
        }
    }

    /// Whether the rule takes the path.
    pub fn matches(&self, path: &str) -> (b: bool)
        ensures
            b == self.takes(path@),
    {
        let mut i: usize = 0;
        while i < self.prefix.len()
            invariant
                i <= self.prefix@.len(),
                forall|k: int|
                    0 <= k < i ==> !prefix_matches((#[trigger] self.prefix@[k])@, path@),
            decreases self.prefix@.len() - i,
        {
            if self.matches_prefix_compiled(self.prefix[i].as_str(), path) {
                assert(prefix_matches(self.prefix@[i as int]@, path@));
                return true;
            }
            i = i + 1;
        }
        false
    }

    /// Whether the path is on the rule's whitelist.
    pub fn is_whitelist_hit(&self, path: &str) -> (b: bool)
        ensures
            b == self.whitelists(path@),
    {
        if let Some(list) = &self.whitelist {
            let mut i: usize = 0;
            while i < list.len()
                invariant
                    self.whitelist == Some(*list),
                    i <= list@.len(),
                    forall|k: int| 0 <= k < i ==> !whitelist_matches((#[trigger] list@[k])@, path@),
                decreases list@.len() - i,
            {
                let entry = list[i].as_str();
                let matched: bool = if holds_pattern(entry) {
                    if let Some(compiled) = find_compiled(&self.compiled_whitelist, entry) {
                        compiled.matches(path)
                    } else {
                        match RoutePattern::from_pattern(entry) {
                            Ok(pattern) => pattern.matches(path),
                            Err(_) => false,
                        }
                    }
                } else {
                    at_or_below(entry, path)
                };
                if matched {
                    assert(whitelist_matches(self.whitelist->0@[i as int]@, path@));
                    return true;
                }
                i = i + 1;
            }
        }
        false
    }

    /// What the first prefix that takes the path binds in it.
    pub fn extract_variables(&self, path: &str) -> (vars: StringHashMap<String>)
        ensures
            !self.takes(path@) ==> vars@ == Map::<Seq<char>, String>::empty(),
            forall|i: int|
                #![trigger self.prefix@[i]]
                0 <= i < self.prefix@.len() && prefix_matches(self.prefix@[i]@, path@) && (forall|
                    k: int,
                |
                    0 <= k < i ==> !prefix_matches((#[trigger] self.prefix@[k])@, path@))
                    ==> prefix_binds(self.prefix@[i]@, path@, vars@),
    {
        let mut i: usize = 0;
        while i < self.prefix.len()
            invariant
                i <= self.prefix@.len(),
                forall|k: int|
                    0 <= k < i ==> !prefix_matches((#[trigger] self.prefix@[k])@, path@),
            decreases self.prefix@.len() - i,
        {
            let prefix = self.prefix[i].as_str();
            if self.matches_prefix_compiled(prefix, path) {
                assert(prefix_matches(self.prefix@[i as int]@, path@));
                let found = match find_compiled(&self.compiled_prefixes, prefix) {
                    Some(compiled) => compiled.match_path(path),
                    None => match RoutePattern::from_pattern(prefix) {
                        Ok(pattern) => pattern.match_path(path),
                        Err(_) => None,
                    },
                };
                return match found {
                    Some(vars) => vars,
                    None => StringHashMap::new(),
                };
            }
            i = i + 1;
        }
        StringHashMap::new()
    }

    /// Checks the rule; the error says what is wrong with it.
    pub fn validate(&self) -> (r: Result<(), String>)
        ensures
            match r {
                Ok(_) => self.flaw() is None,
                Err(message) => self.flaw() == Some(message@),
            },
    {
        if self.prefix.len() == 0 {
            return Err("prefix不能为空".to_owned());
        }
        if let Some(i) = find_blank(&self.prefix) {
            return Err(blank_entry_text("prefix", i));
        }
        if self.upstream.len() == 0 && self.service_name.is_none() {
            return Err("upstream 和 service_name 不能同时为空".to_owned());
        }
        if let Some(i) = find_blank(&self.upstream) {
            return Err(blank_entry_text("upstream", i));
        }
        let strategy = self.strategy.as_str();
        if str_eq(strategy, "robin") || str_eq(strategy, "round_robin") || str_eq(
            strategy,
            "random",
        ) || str_eq(strategy, "iphash") {
            Ok(())
        } else {
            Err(concat2("不支持的负载均衡策略: ", strategy))
        }
    }
}

// ----- loading -----

/// The parsed contents of a routes file.
#[derive(Debug, Clone)]
pub struct RoutesFile {
    pub routes: Vec<RouteRule>,
    pub health_check: Option<HealthCheckConfig>,
}

/// A rule that is not valid: its position in the list, and what is wrong with it.
#[derive(Debug, Clone)]
pub struct RouteFlaw {
    pub index: usize,
    pub message: String,
}

/// The position of the first rule from `from` on that is not valid.
pub open spec fn first_flaw(rules: Seq<RouteRule>, from: int) -> Option<int>
    decreases rules.len() - from,
{
    if from < 0 || from >= rules.len() {
        None
    } else if rules[from].flaw() is Some {
        Some(from)
    } else {
        first_flaw(rules, from + 1)
    }
}

/// `ready` holds the rules of `rules`, in order and compiled.
pub open spec fn compiled_from(ready: Seq<RouteRule>, rules: Seq<RouteRule>) -> bool {
    &&& ready.len() == rules.len()
    &&& forall|i: int|
        0 <= i < ready.len() ==> (#[trigger] ready[i]).same_rule(rules[i]) && ready[i].is_compiled()
}

/// Checks every rule and compiles its patterns. The error names the first rule that is not valid.
pub fn prepare_routes(routes: Vec<RouteRule>) -> (r: Result<Vec<RouteRule>, RouteFlaw>)
    ensures
        match r {
            Ok(ready) => first_flaw(routes@, 0) is None && compiled_from(ready@, routes@),
            Err(e) => first_flaw(routes@, 0) == Some(e.index as int) && e.index < routes@.len()
                && e.index < usize::MAX && routes@[e.index as int].flaw() == Some(e.message@),
        },
{
    let ghost given = routes@;
    let mut ready = routes;
    let mut i: usize = 0;
    while i < ready.len()
        invariant
            i <= ready@.len(),
            given == routes@,
            ready@.len() == given.len(),
            first_flaw(given, 0) == first_flaw(given, i as int),
            forall|k: int|
                0 <= k < i ==> (#[trigger] ready@[k]).same_rule(given[k])
                    && ready@[k].is_compiled(),
            forall|k: int| i <= k < ready@.len() ==> #[trigger] ready@[k] == given[k],
        decreases ready@.len() - i,
    {
        if let Err(message) = ready[i].validate() {
            return Err(RouteFlaw { index: i, message });
        }
        ready[i].compile_patterns();
        i = i + 1;
    }
    Ok(ready)
}

/// The error of a routes file with a rule that is not valid.
pub open spec fn route_flaw_message(index: nat, message: Seq<char>) -> Seq<char> {
    "路由规则 #"@ + decimal(index + 1) + (" 配置错误: "@ + message)
}

/// What comes of a routes file: its rules, compiled, and its health-check settings, or the default
/// ones where it has none; an error where one of the rules is not valid.
pub open spec fn is_loaded(
    r: Result<(Vec<RouteRule>, HealthCheckConfig), String>,
    file: RoutesFile,
) -> bool {
    match r {
        Ok((rules, health)) => {
            &&& first_flaw(file.routes@, 0) is None
            &&& compiled_from(rules@, file.routes@)
            &&& match file.health_check {
                Some(set) => health == set,
                None => health.is_default(),
            }
        },
        Err(message) => first_flaw(file.routes@, 0) matches Some(i) && message@
            == route_flaw_message(i as nat, file.routes@[i].flaw()->0),
    }
}

/// The rules of a routes file, checked and compiled, and its health-check settings, or the default
/// ones where it has none.
pub fn load_route_rules(file: RoutesFile) -> (r: Result<
    (Vec<RouteRule>, HealthCheckConfig),
    String,
>)
    ensures
        is_loaded(r, file),
{
    match prepare_routes(file.routes) {
        Ok(rules) => {
            let health = match file.health_check {
                Some(set) => set,
                None => HealthCheckConfig::default(),
            };
            Ok((rules, health))
        },
        Err(flaw) => {
            let number: u64 = flaw.index as u64 + 1;
            let tail = concat2(" 配置错误: ", flaw.message.as_str());
            Err(concat3("路由规则 #", decimal_text(number).as_str(), tail.as_str()))
        },
    }
}

// ----- the active rules -----

/// Whether Nacos manages the routes. While it does, changes of the local routes file are ignored.
#[derive(Debug, Clone, Copy)]
pub struct NacosRoutes {
    active: bool,
}

impl NacosRoutes {
    /// Whether Nacos manages the routes.
    pub closed spec fn is_active(self) -> bool {
        self.active
    }

    /// The state at start-up: the routes are managed locally.
    pub fn new() -> (state: Self)
        ensures
            !state.is_active(),
    {
        NacosRoutes { active: false }
    }
}

/// Records whether Nacos manages the routes.
pub fn set_nacos_routes_active(state: &mut NacosRoutes, active: bool)
    ensures
        final(state).is_active() == active,
{
    state.active = active;
}

/// Whether Nacos manages the routes.
pub fn is_nacos_routes_active(state: &NacosRoutes) -> (active: bool)
    ensures
        active == state.is_active(),
{
    state.active
}

/// The active route rules, which readers take a snapshot of while they are replaced as a whole.
#[verifier::external_body]
pub struct SharedRouteRules {
    inner: ArcSwap<Vec<RouteRule>>,
}

/// The rules that the cell holds.
pub uninterp spec fn active_rules(shared: SharedRouteRules) -> Seq<RouteRule>;

/// A cell that holds the given rules.
///
/// Trusted: `arc_swap::ArcSwap::from_pointee` makes a cell that holds the given value.
#[verifier::external_body]
pub fn create_shared_route_rules(rules: Vec<RouteRule>) -> (shared: SharedRouteRules)
    ensures
        active_rules(shared) == rules@,
{
    SharedRouteRules { inner: ArcSwap::from_pointee(rules) }
}

/// Trusted: `arc_swap::ArcSwapAny::store` replaces the value of the cell by the given one.
#[verifier::external_body]
fn store_rules(shared: &mut SharedRouteRules, rules: Vec<RouteRule>)
    ensures
        active_rules(*final(shared)) == rules@,
{
    shared.inner.store(Arc::new(rules));
}

/// Trusted: `arc_swap::ArcSwapAny::load_full` returns the value that the cell holds.
#[verifier::external_body]
fn load_rules(shared: &SharedRouteRules) -> (rules: Arc<Vec<RouteRule>>)
    ensures
        rules@ == active_rules(*shared),
{
    shared.inner.load_full()
}

impl SharedRouteRules {
    /// Replaces the active rules.
    pub fn store(&mut self, rules: Vec<RouteRule>)
        ensures
            active_rules(*final(self)) == rules@,
    {
        store_rules(self, rules)
    }

    /// A snapshot of the active rules.
    pub fn snapshot(&self) -> (rules: Arc<Vec<RouteRule>>)
        ensures
            rules@ == active_rules(*self),
    {
        load_rules(self)
    }
}

/// What a reload returns, and the active rules before and after it: those that were loaded, unless
/// Nacos manages the routes or loading failed, and otherwise those from before.
pub open spec fn is_reload(
    r: Result<usize, String>,
    managed: bool,
    loaded: Result<Vec<RouteRule>, String>,
    before: Seq<RouteRule>,
    after: Seq<RouteRule>,
) -> bool {
    match r {
        Ok(count) => {
            &&& !managed
            &&& loaded matches Ok(rules) && count == rules@.len() && after == rules@
        },
        Err(message) => {
            &&& after == before
            &&& if managed {
                message@ == "Nacos 路由已激活，本地 routes.toml 变更已忽略"@
            } else {
                loaded matches Err(e) && message@ == "路由重载失败: "@ + e@
            }
        },
    }
}

/// Replaces the active rules by the ones that were loaded from the local routes file, and returns
/// their number. While Nacos manages the routes nothing is replaced, whatever was loaded; nor is
/// anything where loading failed.
pub fn reload_route_rules(
    shared: &mut SharedRouteRules,
    state: &NacosRoutes,
    loaded: Result<Vec<RouteRule>, String>,
) -> (r: Result<usize, String>)
    ensures
        is_reload(
            r,
            state.is_active(),
            loaded,
            active_rules(*old(shared)),
            active_rules(*final(shared)),
        ),
        r is Err ==> *final(shared) == *old(shared),
{
    if is_nacos_routes_active(state) {
        return Err("Nacos 路由已激活，本地 routes.toml 变更已忽略".to_owned());
    }
    match loaded {
        Ok(rules) => {
            let count: usize = rules.len();
            shared.store(rules);
            Ok(count)
        },
        Err(e) => Err(concat2("路由重载失败: ", e.as_str())),
    }
}

/// How long after one reload the next change is ignored, in nanoseconds.
pub const RELOAD_DEBOUNCE_NANOS: u128 = 2_000_000_000;

/// What a file watcher saw happen to a file.
#[derive(Debug, Clone, Copy, PartialEq, Eq, Structural)]
pub enum FileChange {
    /// Its contents have changed.
    Contents,
    /// It has changed in a way that is not known.
    Unspecified,
    /// Something else: it was made, renamed, removed or only read.
    Other,
}

/// Whether a change of the named files, seen that long after the last reload, leads to a reload:
/// the contents may have changed, one of the names has `routes` in it, and more than two seconds
/// have gone by.
pub open spec fn leads_to_reload(
    change: FileChange,
    file_names: Seq<String>,
    nanos_since_reload: u128,
) -> bool {
    &&& change != FileChange::Other
    &&& nanos_since_reload > RELOAD_DEBOUNCE_NANOS
    &&& exists|i: int|
        0 <= i < file_names.len() && contains_text((#[trigger] file_names[i])@, "routes"@)
}

/// Whether a change of the named files, seen that long after the last reload, leads to a reload.
pub fn triggers_reload(
    change: FileChange,
    file_names: &Vec<String>,
    nanos_since_reload: u128,
) -> (b: bool)
    ensures
        b == leads_to_reload(change, file_names@, nanos_since_reload),
{
    if change == FileChange::Other {
        return false;
    }
    let mut i: usize = 0;
    while i < file_names.len()
        invariant
            i <= file_names@.len(),
            change != FileChange::Other,
            forall|k: int|
                0 <= k < i ==> !contains_text((#[trigger] file_names@[k])@, "routes"@),
        decreases file_names@.len() - i,
    {
        if has_text(file_names[i].as_str(), "routes") {
            assert(contains_text(file_names@[i as int]@, "routes"@));
            return nanos_since_reload > RELOAD_DEBOUNCE_NANOS;
        }
        i = i + 1;
    }
    false
}

// ----- laws -----

/// Compiling the patterns of a rule changes neither the paths that it takes, nor those that it
/// whitelists, nor whether it is valid.
pub proof fn lemma_compiling_keeps_behaviour(before: RouteRule, after: RouteRule, path: Seq<char>)
    requires
        after.same_rule(before),
    ensures
        after.takes(path) == before.takes(path),
        after.whitelists(path) == before.whitelists(path),
        after.flaw() == before.flaw(),
{
}

/// A rule takes its own plain prefixes and every path below them.
pub proof fn lemma_plain_prefix_takes_subtree(rule: RouteRule, i: int, rest: Seq<char>)
    requires
        0 <= i < rule.prefix@.len(),
        !is_pattern(rule.prefix@[i]@),
    ensures
        rule.takes(rule.prefix@[i]@),
        rule.takes(rule.prefix@[i]@ + "/"@ + rest),
{
    let prefix = rule.prefix@[i]@;
    let below = prefix + "/"@ + rest;
    assert(below.take((prefix + "/"@).len() as int) =~= prefix + "/"@);
    assert(prefix_matches(rule.prefix@[i]@, prefix));
    assert(prefix_matches(rule.prefix@[i]@, below));
}

/// The path is the prefix, or goes on behind it with a `/`.
pub open spec fn is_at_or_under(path: Seq<char>, prefix: Seq<char>) -> bool {
    &&& prefix.len() <= path.len()
    &&& forall|k: int| 0 <= k < prefix.len() ==> #[trigger] path[k] == prefix[k]
    &&& prefix.len() < path.len() ==> path[prefix.len() as int] == '/'
}

proof fn lemma_at_or_under(path: Seq<char>, prefix: Seq<char>)
    ensures
        is_at_or_under(path, prefix) <==> path == prefix || starts_with(path, prefix + "/"@),
{
    reveal_strlit("/");
    let longer = prefix + "/"@;
    lemma_prefix_and_rest(path, longer, path);
    if is_at_or_under(path, prefix) {
        if path.len() == prefix.len() {
            assert(path =~= prefix);
        } else {
            assert forall|k: int| 0 <= k < longer.len() implies #[trigger] path[k] == longer[k] by {
                if k < prefix.len() {
                    assert(path[k] == prefix[k]);
                }
            }
        }
    }
    if starts_with(path, longer) {
        assert forall|k: int| 0 <= k < prefix.len() implies #[trigger] path[k] == prefix[k] by {
            assert(path[k] == longer[k]);
        }
        assert(path[prefix.len() as int] == longer[prefix.len() as int]);
    }
}

/// A rule with plain prefixes takes those paths that are one of them or go on behind one with a
/// `/`, and no others.
pub proof fn lemma_plain_rule_takes(rule: RouteRule, path: Seq<char>)
    requires
        forall|i: int| 0 <= i < rule.prefix@.len() ==> !is_pattern((#[trigger] rule.prefix@[i])@),
    ensures
        rule.takes(path) <==> exists|i: int|
            0 <= i < rule.prefix@.len() && is_at_or_under(path, (#[trigger] rule.prefix@[i])@),
{
    assert forall|i: int| 0 <= i < rule.prefix@.len() implies prefix_matches(
        (#[trigger] rule.prefix@[i])@,
        path,
    ) == is_at_or_under(path, rule.prefix@[i]@) by {
        lemma_at_or_under(path, rule.prefix@[i]@);
    }
}

/// A rule with one pattern as its prefix takes the paths that the pattern matches as a whole, and
/// no others; where the pattern cannot be read, those that begin with its text.
pub proof fn lemma_pattern_rule_takes(rule: RouteRule, path: Seq<char>)
    requires
        rule.prefix@.len() == 1,
        is_pattern(rule.prefix@[0]@),
    ensures
        tokens_of(rule.prefix@[0]@) is Some ==> (rule.takes(path) <==> pattern_matches(
            rule.prefix@[0]@,
            path,
        )),
        tokens_of(rule.prefix@[0]@) is None ==> (rule.takes(path) <==> starts_with(
            path,
            rule.prefix@[0]@,
        )),
{
    assert(rule.takes(path) <==> prefix_matches(rule.prefix@[0]@, path));
}

/// One more prefix adds the paths that it takes, and takes none away.
pub proof fn lemma_one_more_prefix(
    rule: RouteRule,
    more: RouteRule,
    one: RouteRule,
    path: Seq<char>,
)
    requires
        one.prefix@.len() == 1,
        more.prefix@ == rule.prefix@.push(one.prefix@[0]),
    ensures
        more.takes(path) <==> rule.takes(path) || one.takes(path),
{
    let n = rule.prefix@.len() as int;
    assert(more.prefix@[n] == one.prefix@[0]);
    if rule.takes(path) {
        let i = choose|i: int|
            0 <= i < rule.prefix@.len() && prefix_matches((#[trigger] rule.prefix@[i])@, path);
        assert(more.prefix@[i] == rule.prefix@[i]);
    }
    if more.takes(path) {
        let i = choose|i: int|
            0 <= i < more.prefix@.len() && prefix_matches((#[trigger] more.prefix@[i])@, path);
        if i < n {
            assert(rule.prefix@[i] == more.prefix@[i]);
        } else {
            assert(prefix_matches(one.prefix@[0]@, path));
        }
    }
    if one.takes(path) {
        assert(prefix_matches(more.prefix@[n]@, path));
    }
}

/// A rule exempts nothing without a whitelist; with plain entries it exempts those paths that are
/// one of them or go on behind one with a `/`, and with one pattern those that it matches.
pub proof fn lemma_whitelist_exempts(rule: RouteRule, path: Seq<char>)
    ensures
        rule.whitelist is None ==> !rule.whitelists(path),
        rule.whitelist matches Some(list) ==> {
            &&& (forall|i: int| 0 <= i < list@.len() ==> !is_pattern((#[trigger] list@[i])@)) ==> (
            rule.whitelists(path) <==> exists|i: int|
                0 <= i < list@.len() && is_at_or_under(path, (#[trigger] list@[i])@))
            &&& list@.len() == 1 && is_pattern(list@[0]@) ==> (rule.whitelists(path)
                <==> pattern_matches(list@[0]@, path))
        },
{
    if rule.whitelist is Some {
        let list = rule.whitelist->0;
        assert forall|i: int|
            0 <= i < list@.len() && !is_pattern((#[trigger] list@[i])@) implies whitelist_matches(
            list@[i]@,
            path,
        ) == is_at_or_under(path, list@[i]@) by {
            lemma_at_or_under(path, list@[i]@);
        }
        if list@.len() == 1 && is_pattern(list@[0]@) {
            assert(rule.whitelists(path) <==> whitelist_matches(list@[0]@, path));
        }
    }
}

proof fn lemma_first_blank(list: Seq<Seq<char>>, from: int)
    requires
        0 <= from <= list.len(),
    ensures
        match first_blank(list, from) {
            Some(i) => from <= i < list.len() && is_blank(list[i]) && forall|k: int|
                from <= k < i ==> !is_blank(#[trigger] list[k]),
            None => forall|k: int| from <= k < list.len() ==> !is_blank(#[trigger] list[k]),
        },
    decreases list.len() - from,
{
    if from < list.len() {
        lemma_first_blank(list, from + 1);
    }
}

/// A rule is valid exactly where it has a prefix and none is blank, names upstreams or a service,
/// has no blank upstream, and names one of the known strategies.
pub proof fn lemma_valid_rules(rule: RouteRule)
    ensures
        rule.flaw() is None <==> {
            &&& rule.prefix@.len() > 0
            &&& forall|i: int|
                0 <= i < rule.prefix@.len() ==> trim((#[trigger] rule.prefix@[i])@).len() > 0
            &&& rule.upstream@.len() > 0 || rule.service_name is Some
            &&& forall|i: int|
                0 <= i < rule.upstream@.len() ==> trim((#[trigger] rule.upstream@[i])@).len() > 0
            &&& rule.strategy@ == "robin"@ || rule.strategy@ == "round_robin"@ || rule.strategy@
                == "random"@ || rule.strategy@ == "iphash"@
        },
{
    let prefix = texts(rule.prefix@);
    let upstream = texts(rule.upstream@);
    lemma_first_blank(prefix, 0);
    lemma_first_blank(upstream, 0);
    assert forall|i: int| 0 <= i < prefix.len() implies (trim((#[trigger] rule.prefix@[i])@).len()
        > 0 <==> !is_blank(prefix[i])) by {
        lemma_blank_iff_trims_to_empty(prefix[i]);
    }
    assert forall|i: int| 0 <= i < upstream.len() implies (trim(
        (#[trigger] rule.upstream@[i])@,
    ).len() > 0 <==> !is_blank(upstream[i])) by {
        lemma_blank_iff_trims_to_empty(upstream[i]);
    }
    if first_blank(prefix, 0) is Some {
        let i = first_blank(prefix, 0)->0;
        assert(prefix[i] == rule.prefix@[i]@);
    }
    if first_blank(upstream, 0) is Some {
        let i = first_blank(upstream, 0)->0;
        assert(upstream[i] == rule.upstream@[i]@);
    }
}

/// The first flaw of a list is at the first rule that is not valid, and there is none where all
/// are.
pub proof fn lemma_first_flaw(rules: Seq<RouteRule>, from: int)
    requires
        0 <= from <= rules.len(),
    ensures
        match first_flaw(rules, from) {
            Some(i) => from <= i < rules.len() && rules[i].flaw() is Some && forall|k: int|
                from <= k < i ==> (#[trigger] rules[k]).flaw() is None,
            None => forall|k: int| from <= k < rules.len() ==> (#[trigger] rules[k]).flaw() is None,
        },
    decreases rules.len() - from,
{
    if from < rules.len() {
        lemma_first_flaw(rules, from + 1);
    }
}

/// A setting with a single underscore behind `NACOS` is the nested one with two; no other name
/// stands for a nested one.
pub proof fn lemma_nested_names(rest: Seq<char>, name: Seq<char>)
    ensures
        rest.len() > 0 && rest[0] != '_' ==> nested_name_of("NACOS_"@ + rest) == Some(
            "NACOS__"@ + rest,
        ),
        nested_name_of("NACOS__"@ + rest) is None,
        !starts_with(name, "NACOS_"@) ==> nested_name_of(name) is None,
{
    lemma_prefix_and_rest(name, "NACOS_"@, rest);
    reveal_strlit("NACOS_");
    reveal_strlit("NACOS__");
    let tail = seq!['_'] + rest;
    assert("NACOS__"@ + rest =~= "NACOS_"@ + tail);
    lemma_prefix_and_rest("NACOS__"@ + rest, "NACOS_"@, tail);
}

/// The message on a blank entry names the list and the entry: no two entries have the same one.
pub proof fn lemma_blank_entry_is_named(name: Seq<char>, a: nat, b: nat)
    ensures
        starts_with(blank_entry_message(name, a), name + "["@ + decimal(a) + "]"@),
        blank_entry_message(name, a) == blank_entry_message(name, b) ==> a == b,
{
    reveal_strlit("[");
    reveal_strlit("]");
    reveal_strlit("]不能为空");
    lemma_decimal_reads_back(a);
    lemma_decimal_reads_back(b);
    let first = blank_entry_message(name, a);
    let front = name + "["@ + decimal(a) + "]"@;
    lemma_prefix_and_rest(first, front, first);
    assert forall|k: int| 0 <= k < front.len() implies #[trigger] first[k] == front[k] by {}
    if first == blank_entry_message(name, b) {
        let n = name.len() as int + 1;
        assert(decimal(a) =~= first.subrange(n, n + decimal(a).len()));
        assert(decimal(b) =~= first.subrange(n, n + decimal(b).len()));
        assert(decimal(a).len() == decimal(b).len());
    }
}

/// What is said to be wrong with a rule: first that it has no prefix, then which prefix is the
/// first blank one, then that it names neither upstreams nor a service, then which upstream is the
/// first blank one, then the strategy that is not known.
pub proof fn lemma_flaw_is_the_first(rule: RouteRule, i: int)
    ensures
        rule.prefix@.len() == 0 ==> rule.flaw() == Some("prefix不能为空"@),
        0 <= i < rule.prefix@.len() && trim(rule.prefix@[i]@).len() == 0 && (forall|k: int|
            0 <= k < i ==> trim((#[trigger] rule.prefix@[k])@).len() > 0) ==> rule.flaw() == Some(
            blank_entry_message("prefix"@, i as nat),
        ),
        has_entries(rule.prefix@) && rule.upstream@.len() == 0 && rule.service_name is None
            ==> rule.flaw() == Some("upstream 和 service_name 不能同时为空"@),
        has_entries(rule.prefix@) && 0 <= i < rule.upstream@.len() && trim(
            rule.upstream@[i]@,
        ).len() == 0 && (forall|k: int|
            0 <= k < i ==> trim((#[trigger] rule.upstream@[k])@).len() > 0) ==> rule.flaw() == Some(
            blank_entry_message("upstream"@, i as nat),
        ),
        has_entries(rule.prefix@) && has_entries(rule.upstream@) ==> rule.flaw() == (if
        rule.strategy@ == "robin"@ || rule.strategy@ == "round_robin"@ || rule.strategy@
            == "random"@ || rule.strategy@ == "iphash"@ {
            None
        } else {
            Some("不支持的负载均衡策略: "@ + rule.strategy@)
        }),
{
    lemma_blank_entries(rule.prefix@, i);
    lemma_blank_entries(rule.upstream@, i);
}

/// The list has an entry, and none that is blank.
pub open spec fn has_entries(list: Seq<String>) -> bool {
    list.len() > 0 && forall|k: int| 0 <= k < list.len() ==> trim((#[trigger] list[k])@).len() > 0
}

proof fn lemma_blank_entries(list: Seq<String>, i: int)
    ensures
        has_entries(list) ==> first_blank(texts(list), 0) is None,
        0 <= i < list.len() && trim(list[i]@).len() == 0 && (forall|k: int|
            0 <= k < i ==> trim((#[trigger] list[k])@).len() > 0) ==> first_blank(texts(list), 0)
            == Some(i),
{
    let all = texts(list);
    lemma_first_blank(all, 0);
    assert forall|k: int| 0 <= k < list.len() implies (trim((#[trigger] list[k])@).len() > 0
        <==> !is_blank(all[k])) by {
        lemma_blank_iff_trims_to_empty(all[k]);
    }
    if first_blank(all, 0) is Some {
        let found = first_blank(all, 0)->0;
        assert(list[found]@ == all[found]);
        if 0 <= i < list.len() && trim(list[i]@).len() == 0 && (forall|k: int|
            0 <= k < i ==> trim((#[trigger] list[k])@).len() > 0) {
            if i < found {
                assert(!is_blank(all[i]));
            }
        }
    } else if 0 <= i < list.len() {
        assert(!is_blank(all[i]));
    }
}

/// The message on a routes file counts the rules from 1 on and says what is wrong with the rule.
pub proof fn lemma_flawed_rule_is_numbered(index: nat, message: Seq<char>)
    ensures
        exists|number: Seq<char>| #[trigger]
            all_digits(number) && digits_value(number) == index + 1 && route_flaw_message(
                index,
                message,
            ) == "路由规则 #"@ + number + (" 配置错误: "@ + message),
{
    lemma_decimal_reads_back(index + 1);
    assert(all_digits(decimal(index + 1)));
}

/// After a reload, changes are ignored for two seconds.
pub proof fn lemma_two_seconds()
    ensures
        RELOAD_DEBOUNCE_NANOS == 2 * 1_000 * 1_000 * 1_000,
{
}

/// A single string stands for a list with only that string.
pub proof fn lemma_single_string(s: String, list: Vec<String>)
    requires
        list@ == seq![s],
    ensures
        StringOrVec::One(s).meant() == StringOrVec::Many(list).meant(),
{
}

/// Compiled are, in their order, the patterns that can be read, and no other entries.
pub proof fn lemma_compiled_entries(a: Seq<Seq<char>>, b: Seq<Seq<char>>, one: Seq<char>)
    ensures
        compilable(a + b) == compilable(a) + compilable(b),
        compilable(seq![one]) == (if is_pattern(one) && tokens_of(one) is Some {
            seq![one]
        } else {
            Seq::<Seq<char>>::empty()
        }),
    decreases b.len(),
{
    if b.len() == 0 {
        assert(a + b =~= a);
        assert(compilable(a + b) =~= compilable(a) + compilable(b));
    } else {
        assert((a + b).drop_last() =~= a + b.drop_last());
        lemma_compiled_entries(a, b.drop_last(), one);
        assert(compilable(a + b) =~= compilable(a) + compilable(b));
    }
    assert(seq![one].drop_last() =~= Seq::<Seq<char>>::empty());
    assert(compilable(seq![one].drop_last()) =~= Seq::<Seq<char>>::empty());
    assert(Seq::<Seq<char>>::empty().push(one) =~= seq![one]);
}

/// The time that is set is the time that a request may take, and without one it is ten seconds.
pub proof fn lemma_timeout(settings: Settings)
    ensures
        settings.request_timeout_secs matches Some(secs) ==> settings.timeout_secs() == secs,
        settings.request_timeout_secs is None ==> settings.timeout_secs() == 10,
{
}

/// A change leads to a reload where a file with `routes` in its name may have other contents, and
/// two seconds have gone by; not where only other files have changed, nor within the two seconds.
pub proof fn lemma_reload_on_change(
    change: FileChange,
    names: Seq<String>,
    k: int,
    before: Seq<char>,
    after: Seq<char>,
    nanos: u128,
)
    requires
        0 <= k < names.len(),
    ensures
        names[k]@ == before + "routes"@ + after && nanos > 2_000_000_000 && (change
            == FileChange::Contents || change == FileChange::Unspecified) ==> leads_to_reload(
            change,
            names,
            nanos,
        ),
        nanos <= 2_000_000_000 ==> !leads_to_reload(change, names, nanos),
        !leads_to_reload(FileChange::Other, names, nanos),
        leads_to_reload(change, names, nanos) ==> exists|i: int, a: Seq<char>, b: Seq<char>|
            0 <= i < names.len() && (#[trigger] names[i])@ == #[trigger] (a + "routes"@ + b),
{
    lemma_contains_text(names[k]@, before, "routes"@, after);
    if leads_to_reload(change, names, nanos) {
        let i = choose|i: int|
            0 <= i < names.len() && contains_text((#[trigger] names[i])@, "routes"@);
        lemma_contains_text(names[i]@, before, "routes"@, after);
        let (a, b) = choose|a: Seq<char>, b: Seq<char>| names[i]@ == #[trigger] (a + "routes"@ + b);
        assert(names[i]@ == a + "routes"@ + b);
    }
}

/// A routes file is taken exactly where each of its rules is valid; its rules then come out in
/// their order, with the same prefixes, upstreams, services, strategies and whitelists.
pub proof fn lemma_valid_file_is_taken(
    r: Result<(Vec<RouteRule>, HealthCheckConfig), String>,
    file: RoutesFile,
    k: int,
)
    requires
        is_loaded(r, file),
    ensures
        r is Ok <==> forall|i: int|
            0 <= i < file.routes@.len() ==> (#[trigger] file.routes@[i]).flaw() is None,
        r matches Ok(pair) ==> pair.0@.len() == file.routes@.len(),
        r matches Ok(pair) ==> (0 <= k < file.routes@.len() ==> {
            &&& pair.0@[k].prefix == file.routes@[k].prefix
            &&& pair.0@[k].upstream == file.routes@[k].upstream
            &&& pair.0@[k].service_name == file.routes@[k].service_name
            &&& pair.0@[k].strategy == file.routes@[k].strategy
            &&& pair.0@[k].whitelist == file.routes@[k].whitelist
        }),
        r matches Ok(pair) ==> (file.health_check matches Some(set) ==> pair.1 == set),
        r matches Ok(pair) ==> (file.health_check is None ==> pair.1.enabled && pair.1.path@
            == "/health"@),
{
    lemma_first_flaw(file.routes@, 0);
    match r {
        Ok((rules, health)) => {
            if 0 <= k < file.routes@.len() {
                assert(rules@[k].same_rule(file.routes@[k]));
            }
        },
        Err(_) => {},
    }
}

/// A reload takes the loaded rules as they are, and counts them; while Nacos manages the routes,
/// and where loading has failed, the active rules stay as they were.
pub proof fn lemma_reload_takes_effect(
    r: Result<usize, String>,
    managed: bool,
    loaded: Result<Vec<RouteRule>, String>,
    before: Seq<RouteRule>,
    after: Seq<RouteRule>,
)
    requires
        is_reload(r, managed, loaded, before, after),
    ensures
        r is Ok <==> !managed && loaded is Ok,
        r is Ok ==> after == loaded->Ok_0@ && r->Ok_0 == after.len(),
        managed || loaded is Err ==> after == before,
        !managed && loaded is Err ==> strip_prefix_spec(r->Err_0@, "路由重载失败: "@) == Some(
            loaded->Err_0@,
        ),
{
    if !managed && loaded is Err {
        lemma_prefix_and_rest(r->Err_0@, "路由重载失败: "@, loaded->Err_0@);
    }
}

} // verus!
