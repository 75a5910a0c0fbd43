//! Routes and service instances that come from a Nacos server.

use crate::config::{
    active_rules, compiled_from, first_flaw, is_nacos_routes_active, lemma_first_flaw,
    prepare_routes, set_nacos_routes_active, NacosRoutes, NacosSettings, RouteRule, Settings,
    SharedRouteRules,
};
use crate::load_balancer::{pairs, WeightedUpstream};
use crate::text::{
    all_digits, concat2, concat3, decimal, decimal_text, distinct, is_last_index, last_index,
    lemma_decimal_reads_back, lemma_distinct, lemma_parsed_numbers, lemma_prefix_and_rest,
    number_of, opt_text, parse_u32, push_distinct, str_eq, strip_prefix_spec, texts,
};
use dashmap::DashMap;
use vstd::prelude::*;
use vstd::string::*;

verus! {

// ----- service instances -----

/// One instance of a service.
#[derive(Debug)]
pub struct ServiceInstance {
    pub ip: String,
    pub port: u32,
    pub healthy: bool,
    /// The weight, rounded to a whole number.
    pub weight: u32,
}

impl Clone for ServiceInstance {
    fn clone(&self) -> (copy: Self)
        ensures
            copy == *self,
    {
        ServiceInstance {
            ip: self.ip.clone(),
            port: self.port,
            healthy: self.healthy,
            weight: self.weight,
        }
    }
}

/// The instances of each service, by the name of the service.
pub type ServiceTable = DashMap<String, Vec<ServiceInstance>>;

/// The entries of the table.
pub uninterp spec fn service_entries(table: DashMap<String, Vec<ServiceInstance>>) -> Map<
    Seq<char>,
    Seq<ServiceInstance>,
>;

/// Trusted: `dashmap::DashMap::new` makes a map that holds nothing.
#[verifier::external_body]
fn new_service_map() -> (table: ServiceTable)
    ensures
        service_entries(table).dom() == Set::<Seq<char>>::empty(),
{
    DashMap::new()
}

/// A table without entries.
pub fn create_service_table() -> (table: ServiceTable)
    ensures
        service_entries(table).dom() == Set::<Seq<char>>::empty(),
{
    new_service_map()
}

/// The instances of a service, and nothing where the service is not known.
///
/// Trusted: `dashmap::DashMap::get` finds the entry of a key, and nothing where there is none. The
/// list that it holds is cloned.
#[verifier::external_body]
pub fn get_service_instances(table: &ServiceTable, service_name: &str) -> (list: Option<
    Vec<ServiceInstance>,
>)
    ensures
        match list {
            Some(instances) => service_entries(*table).dom().contains(service_name@)
                && instances@ == service_entries(*table)[service_name@],
            None => !service_entries(*table).dom().contains(service_name@),
        },
{
    table.get(service_name).map(|entry| entry.value().clone())
}

/// Trusted: `dashmap::DashMap::insert` sets the entry of a key, whether or not there was one.
#[verifier::external_body]
fn insert_instances(table: &mut ServiceTable, service_name: String, list: Vec<ServiceInstance>)
    ensures
        service_entries(*final(table)) == service_entries(*old(table)).insert(
            service_name@,
            list@,
        ),
{
    table.insert(service_name, list);
}

/// Replaces the instances of a service.
pub fn update_service_instances(
    table: &mut ServiceTable,
    service_name: &str,
    instances: Vec<ServiceInstance>,
)
    ensures
        service_entries(*final(table)) == service_entries(*old(table)).insert(
            service_name@,
            instances@,
        ),
{
    insert_instances(table, service_name.to_owned(), instances);
}

/// The instance is healthy.
pub open spec fn is_up() -> spec_fn(ServiceInstance) -> bool {
    |i: ServiceInstance| i.healthy
}

/// The upstream that an instance stands for: its address, and its weight but at least 1.
pub open spec fn upstream_of(i: ServiceInstance) -> (Seq<char>, u32) {
    (
        "http://"@ + i.ip@ + (":"@ + decimal(i.port as nat)),
        if i.weight == 0 {
            1
        } else {
            i.weight
        },
    )
}

/// The upstreams that the healthy instances stand for.
pub open spec fn upstreams_of(instances: Seq<ServiceInstance>) -> Seq<(Seq<char>, u32)> {
    let up = instances.filter(is_up());
    Seq::new(up.len(), |i: int| upstream_of(up[i]))
}

/// The upstreams of a service: none where it is not known.
pub open spec fn service_upstreams(
    entries: Map<Seq<char>, Seq<ServiceInstance>>,
    service_name: Seq<char>,
) -> Seq<(Seq<char>, u32)> {
    if entries.dom().contains(service_name) {
        upstreams_of(entries[service_name])
    } else {
        Seq::empty()
    }
}

/// The upstream that an instance stands for.
fn to_upstream(i: &ServiceInstance) -> (u: WeightedUpstream)
    ensures
        (u.url@, u.weight) == upstream_of(*i),
{
    let port = concat2(":", decimal_text(i.port as u64).as_str());
    let url = concat3("http://", i.ip.as_str(), port.as_str());
    let weight: u32 = if i.weight == 0 {
        1
    } else {
        i.weight
    };
    WeightedUpstream { url, weight }
}

/// The upstreams that the healthy instances stand for.
pub fn weighted_upstreams(instances: &Vec<ServiceInstance>) -> (list: Vec<WeightedUpstream>)
    ensures
        pairs(list@) == upstreams_of(instances@),
{
    let mut list: Vec<WeightedUpstream> = Vec::new();
    let mut i: usize = 0;
    proof {
        reveal(Seq::filter);
        assert(pairs(list@) =~= upstreams_of(instances@.take(0)));
    }
    while i < instances.len()
        invariant
            i <= instances@.len(),
            pairs(list@) == upstreams_of(instances@.take(i as int)),
        decreases instances@.len() - i,
    {
        let ghost before = list@;
        let ghost seen = instances@.take(i as int);
        proof {
            assert(instances@.take(i + 1) =~= seen.push(instances@[i as int]));
            assert(seen.push(instances@[i as int]).drop_last() =~= seen);
            reveal(Seq::filter);
        }
        if instances[i].healthy {
            list.push(to_upstream(&instances[i]));
            proof {
                let up = seen.filter(is_up()).push(instances@[i as int]);
                assert(instances@.take(i + 1).filter(is_up()) == up);
                assert(pairs(list@) =~= pairs(before).push(upstream_of(instances@[i as int])));
                assert(pairs(list@) =~= upstreams_of(instances@.take(i + 1)));
            }
        }
        i = i + 1;
    }
    assert(instances@.take(i as int) =~= instances@);
    list
}

/// The upstreams of a service: its healthy instances with their weights.
pub fn instances_to_weighted_upstreams(table: &ServiceTable, service_name: &str) -> (list: Vec<
    WeightedUpstream,
>)
    ensures
        pairs(list@) == service_upstreams(service_entries(*table), service_name@),
{
    match get_service_instances(table, service_name) {
        Some(instances) => weighted_upstreams(&instances),
        None => {
            let list: Vec<WeightedUpstream> = Vec::new();
            assert(pairs(list@) =~= Seq::empty());
            list
        },
    }
}

// ----- the connection -----

/// User and password for the server, where both are set and neither is empty.
pub open spec fn login(settings: NacosSettings) -> Option<(String, String)> {
    match (settings.username, settings.password) {
        (Some(user), Some(password)) => if user@.len() > 0 && password@.len() > 0 {
            Some((user, password))
        } else {
            None
        },
        _ => None,
    }
}

/// User and password for the server, where both are set and neither is empty.
pub fn credentials(settings: &NacosSettings) -> (r: Option<(String, String)>)
    ensures
        r == login(*settings),
{
    match (&settings.username, &settings.password) {
        (Some(user), Some(password)) => {
            if user.as_str().unicode_len() > 0 && password.as_str().unicode_len() > 0 {
                Some((user.clone(), password.clone()))
            } else {
                None
            }
        },
        _ => None,
    }
}

/// The name under which the gateway is registered.
pub open spec fn own_name(settings: NacosSettings) -> Seq<char> {
    match settings.service_name {
        Some(name) => name@,
        None => "ms-gateway"@,
    }
}

/// The name under which the gateway is registered.
pub fn registered_name(settings: &NacosSettings) -> (name: String)
    ensures
        name@ == own_name(*settings),
{
    match &settings.service_name {
        Some(name) => name.clone(),
        None => "ms-gateway".to_owned(),
    }
}

/// Address and port that stand in a bind address. Without a colon there is neither; a port that is
/// no number counts as 8080.
pub open spec fn bind_parts(bind: Seq<char>) -> (Seq<char>, u32) {
    if bind.contains(':') {
        let at = choose|at: int| is_last_index(bind, ':', at);
        (
            bind.take(at),
            match parse_u32(bind.skip(at + 1)) {
                Some(port) => port,
                None => 8080,
            },
        )
    } else {
        ("127.0.0.1"@, 8080)
    }
}

/// The address under which the gateway can be reached: in place of `0.0.0.0` the machine's own one,
/// where that is known.
pub open spec fn announced_ip(bound: Seq<char>, local_ip: Option<Seq<char>>) -> Seq<char> {
    if bound == "0.0.0.0"@ {
        match local_ip {
            Some(ip) => ip,
            None => "127.0.0.1"@,
        }
    } else {
        bound
    }
}

/// Address and port under which the gateway can be reached. In place of `0.0.0.0` it is the
/// machine's own address, where that is known.
pub fn parse_bind_addr(bind: &str, local_ip: Option<String>) -> (r: (String, u32))
    ensures
        r.1 == bind_parts(bind@).1,
        r.0@ == announced_ip(bind_parts(bind@).0, opt_text(local_ip)),
{
    match last_index(bind, ':') {
        Some(at) => {
            let len: usize = bind.unicode_len();
            let ip = bind.substring_char(0, at);
            let rest = bind.substring_char(at + 1, len);
            proof {
                let chosen = choose|k: int| is_last_index(bind@, ':', k);
                assert(is_last_index(bind@, ':', at as int));
                assert(bind@.contains(':'));
                assert(chosen == at);
                assert(ip@ =~= bind@.take(at as int));
                assert(rest@ =~= bind@.skip(at + 1));
            }
            let port: u32 = match number_of(rest) {
                Some(n) => n,
                None => 8080,
            };
            if str_eq(ip, "0.0.0.0") {
                match local_ip {
                    Some(own) => (own, port),
                    None => ("127.0.0.1".to_owned(), port),
                }
            } else {
                (ip.to_owned(), port)
            }
        },
        None => {
            proof {
                reveal_strlit("127.0.0.1");
                reveal_strlit("0.0.0.0");
                assert("127.0.0.1"@.len() != "0.0.0.0"@.len());
            }
            ("127.0.0.1".to_owned(), 8080)
        },
    }
}

// ----- the routes -----

/// Where the route rules stand in the configuration centre.
#[derive(Debug, Clone)]
pub struct RoutesKey {
    pub data_id: String,
    pub group: String,
    pub tenant: String,
}

/// Where the route rules stand in the configuration centre, if anywhere.
pub open spec fn routes_place(settings: NacosSettings) -> Option<RoutesKey> {
    match settings.routes_data_id {
        Some(data_id) => Some(
            RoutesKey {
                data_id,
                group: match settings.routes_group {
                    Some(group) => group,
                    None => settings.config_group,
                },
                tenant: settings.config_namespace,
            },
        ),
        None => None,
    }
}

/// Where the route rules stand in the configuration centre, if anywhere.
pub fn routes_key(settings: &NacosSettings) -> (key: Option<RoutesKey>)
    ensures
        key == routes_place(*settings),
{
    match &settings.routes_data_id {
        Some(data_id) => {
            let group = match &settings.routes_group {
                Some(group) => group.clone(),
                None => settings.config_group.clone(),
            };
            Some(
                RoutesKey {
                    data_id: data_id.clone(),
                    group,
                    tenant: settings.config_namespace.clone(),
                },
            )
        },
        None => None,
    }
}

/// The services that the rules name, rule after rule.
pub open spec fn named_services(rules: Seq<RouteRule>) -> Seq<Seq<char>>
    decreases rules.len(),
{
    if rules.len() == 0 {
        Seq::empty()
    } else {
        match rules.last().service_name {
            Some(name) => named_services(rules.drop_last()).push(name@),
            None => named_services(rules.drop_last()),
        }
    }
}

/// The services that the rules name, each once.
pub fn collect_services(rules: &Vec<RouteRule>) -> (names: Vec<String>)
    ensures
        texts(names@) == distinct(named_services(rules@)),
{
    let mut names: Vec<String> = Vec::new();
    let mut i: usize = 0;
    assert(rules@.take(0) =~= Seq::<RouteRule>::empty());
    assert(texts(names@) =~= Seq::<Seq<char>>::empty());
    while i < rules.len()
        invariant
            i <= rules@.len(),
            texts(names@) == distinct(named_services(rules@.take(i as int))),
        decreases rules@.len() - i,
    {
        let ghost seen = named_services(rules@.take(i as int));
        assert(rules@.take(i + 1).drop_last() =~= rules@.take(i as int));
        match &rules[i].service_name {
            Some(name) => {
                push_distinct(&mut names, name.as_str());
                assert(seen.push(name@).drop_last() =~= seen);
            },
            None => {},
        }
        i = i + 1;
    }
    assert(rules@.take(i as int) =~= rules@);
    names
}

proof fn lemma_same_services(a: Seq<RouteRule>, b: Seq<RouteRule>)
    requires
        compiled_from(a, b),
    ensures
        named_services(a) == named_services(b),
    decreases a.len(),
{
    if a.len() > 0 {
        assert(a[a.len() - 1].same_rule(b[a.len() - 1]));
        assert(compiled_from(a.drop_last(), b.drop_last())) by {
            assert forall|i: int| 0 <= i < a.drop_last().len() implies (#[trigger] a.drop_last()[i])
                .same_rule(b.drop_last()[i]) && a.drop_last()[i].is_compiled() by {
                assert(a[i].same_rule(b[i]) && a[i].is_compiled());
            }
        }
        lemma_same_services(a.drop_last(), b.drop_last());
    }
}

/// What comes of rules from the server: `before` and `after` hold the active rules and whether the
/// server manages the routes. Valid rules become the active ones; others change nothing.
pub open spec fn is_applied(
    r: Result<Vec<String>, String>,
    parsed: Result<Vec<RouteRule>, String>,
    before: (Seq<RouteRule>, bool),
    after: (Seq<RouteRule>, bool),
) -> bool {
    match r {
        Ok(services) => {
            &&& parsed matches Ok(rules) && first_flaw(rules@, 0) is None && compiled_from(
                after.0,
                rules@,
            ) && texts(services@) == distinct(named_services(rules@))
            &&& after.1
        },
        Err(message) => {
            &&& after == before
            &&& match parsed {
                Ok(rules) => first_flaw(rules@, 0) matches Some(i) && message@
                    == "Nacos 路由规则 #"@ + decimal((i + 1) as nat) + (" 校验失败: "@
                    + rules@[i].flaw()->0),
                Err(e) => message@ == "Nacos 路由配置解析失败: "@ + e@,
            }
        },
    }
}

/// Makes the rules that came from the server the active ones and returns the services that they
/// name. Rules that could not be read, or of which one is not valid, change nothing: the error says
/// what was wrong.
pub fn apply_routes(
    shared: &mut SharedRouteRules,
    state: &mut NacosRoutes,
    parsed: Result<Vec<RouteRule>, String>,
) -> (r: Result<Vec<String>, String>)
    ensures
        is_applied(
            r,
            parsed,
            (active_rules(*old(shared)), old(state).is_active()),
            (active_rules(*final(shared)), final(state).is_active()),
        ),
        r is Err ==> *final(shared) == *old(shared) && *final(state) == *old(state),
{
    match parsed {
        Ok(rules) => match prepare_routes(rules) {
            Ok(ready) => {
                let services = collect_services(&ready);
                proof {
                    lemma_same_services(ready@, rules@);
                }
                shared.store(ready);
                set_nacos_routes_active(state, true);
                Ok(services)
            },
            Err(flaw) => {
                let number: u64 = flaw.index as u64 + 1;
                let tail = concat2(" 校验失败: ", flaw.message.as_str());
                Err(concat3("Nacos 路由规则 #", decimal_text(number).as_str(), tail.as_str()))
            },
        },
        Err(e) => Err(concat2("Nacos 路由配置解析失败: ", e.as_str())),
    }
}

// ----- start-up -----

/// How far the start-up has come: what is to be done now.
#[derive(Debug, Clone, Copy, PartialEq, Eq, Structural)]
pub enum Startup {
    Begin,
    /// Connect to the server.
    Connect,
    /// Subscribe to the route rules.
    SubscribeRoutes,
    /// Register the gateway and subscribe to its own name.
    Register,
    /// Nothing more; the flag says whether the server manages the routes.
    Finished(bool),
}

/// The step that follows once one has been done, and gone well or not.
pub open spec fn step_after(
    step: Startup,
    done: bool,
    settings: Settings,
    active: bool,
) -> Startup {
    match settings.nacos {
        Some(nacos) => if !nacos.enabled {
            Startup::Finished(false)
        } else {
            match step {
                Startup::Begin => Startup::Connect,
                Startup::Connect => if done {
                    Startup::SubscribeRoutes
                } else {
                    Startup::Finished(false)
                },
                Startup::SubscribeRoutes => if nacos.register_enabled {
                    Startup::Register
                } else {
                    Startup::Finished(active)
                },
                Startup::Register => Startup::Finished(active),
                Startup::Finished(b) => Startup::Finished(b),
            }
        },
        None => Startup::Finished(false),
    }
}

/// The step that follows once one has been done, and gone well or not. Where Nacos is not enabled,
/// or cannot be reached, the routes stay local.
pub fn next_step(step: Startup, done: bool, settings: &Settings, state: &NacosRoutes) -> (next:
    Startup)
    ensures
        next == step_after(step, done, *settings, state.is_active()),
{
    match &settings.nacos {
        Some(nacos) => {
            if !nacos.enabled {
                return Startup::Finished(false);
            }
            match step {
                Startup::Begin => Startup::Connect,
                Startup::Connect => if done {
                    Startup::SubscribeRoutes
                } else {
                    Startup::Finished(false)
                },
                Startup::SubscribeRoutes => if nacos.register_enabled {
                    Startup::Register
                } else {
                    Startup::Finished(is_nacos_routes_active(state))
                },
                Startup::Register => Startup::Finished(is_nacos_routes_active(state)),
                Startup::Finished(b) => Startup::Finished(b),
            }
        },
        None => Startup::Finished(false),
    }
}

// ----- laws -----

/// The start-up after four steps; `done` and `active` say how the step at each position went and
/// whether the server managed the routes after it.
pub open spec fn startup_result(
    settings: Settings,
    done: spec_fn(int) -> bool,
    active: spec_fn(int) -> bool,
    steps: nat,
) -> Startup
    decreases steps,
{
    if steps == 0 {
        Startup::Begin
    } else {
        let n = (steps - 1) as nat;
        step_after(
            startup_result(settings, done, active, n),
            done(n as int),
            settings,
            active(n as int),
        )
    }
}

/// The start-up ends after four steps at the latest. Without the main switch, and with a server
/// that cannot be reached, the routes are then local ones.
pub proof fn lemma_startup_ends(
    settings: Settings,
    done: spec_fn(int) -> bool,
    active: spec_fn(int) -> bool,
)
    ensures
        startup_result(settings, done, active, 4) is Finished,
        settings.nacos is None || !settings.nacos->0.enabled || !done(1) ==> startup_result(
            settings,
            done,
            active,
            4,
        ) == Startup::Finished(false),
        settings.nacos is Some && settings.nacos->0.enabled && done(1) ==> startup_result(
            settings,
            done,
            active,
            4,
        ) == Startup::Finished(
            if settings.nacos->0.register_enabled {
                active(3)
            } else {
                active(2)
            },
        ),
{
    reveal_with_fuel(startup_result, 5);
}

/// What the services of a rule list are is decided by the rules alone: each service that a rule
/// names is subscribed to once.
pub proof fn lemma_every_service_once(rules: Seq<RouteRule>)
    ensures
        distinct(named_services(rules)).no_duplicates(),
        forall|name: Seq<char>| #[trigger]
            distinct(named_services(rules)).contains(name) <==> named_services(rules).contains(
                name,
            ),
{
    lemma_distinct(named_services(rules));
}

/// Only healthy instances become upstreams, and every upstream has a weight.
pub proof fn lemma_upstreams_come_from_healthy(instances: Seq<ServiceInstance>, k: int)
    requires
        0 <= k < upstreams_of(instances).len(),
    ensures
        upstreams_of(instances)[k].1 >= 1,
        exists|i: int|
            0 <= i < instances.len() && (#[trigger] instances[i]).healthy
                && upstreams_of(instances)[k] == upstream_of(instances[i]),
    decreases instances.len(),
{
    reveal(Seq::filter);
    if instances.len() > 0 {
        let front = instances.drop_last();
        if k < upstreams_of(front).len() {
            lemma_upstreams_come_from_healthy(front, k);
            let i = choose|i: int|
                0 <= i < front.len() && (#[trigger] front[i]).healthy && upstreams_of(front)[k]
                    == upstream_of(front[i]);
            assert(instances[i] == front[i]);
        } else {
            assert(instances[instances.len() - 1] == instances.last());
        }
    }
}

/// The upstream of an instance is reached over HTTP at the address and the port of the instance,
/// and has its weight, or 1 where that is 0.
pub proof fn lemma_instance_address(i: ServiceInstance)
    ensures
        strip_prefix_spec(upstream_of(i).0, "http://"@ + i.ip@ + ":"@) matches Some(port)
            && all_digits(port) && parse_u32(port) == Some(i.port),
        i.weight > 0 ==> upstream_of(i).1 == i.weight,
        i.weight == 0 ==> upstream_of(i).1 == 1,
{
    let port = decimal(i.port as nat);
    let front = "http://"@ + i.ip@ + ":"@;
    lemma_decimal_reads_back(i.port as nat);
    assert(upstream_of(i).0 =~= front + port);
    lemma_prefix_and_rest(front + port, front, port);
}

/// One more instance adds its upstream at the end where it is healthy, and nothing where it is not.
pub proof fn lemma_one_more_instance(instances: Seq<ServiceInstance>, i: ServiceInstance)
    ensures
        upstreams_of(Seq::<ServiceInstance>::empty()).len() == 0,
        i.healthy ==> upstreams_of(instances.push(i)) == upstreams_of(instances).push(
            upstream_of(i),
        ),
        !i.healthy ==> upstreams_of(instances.push(i)) == upstreams_of(instances),
{
    reveal(Seq::filter);
    assert(instances.push(i).drop_last() =~= instances);
    if i.healthy {
        assert(upstreams_of(instances.push(i)) =~= upstreams_of(instances).push(upstream_of(i)));
    }
}

/// A service sends to its healthy instances as they were set last; an unknown one to none, and
/// setting the instances of another service makes no difference.
pub proof fn lemma_service_sees_its_instances(
    entries: Map<Seq<char>, Seq<ServiceInstance>>,
    name: Seq<char>,
    other: Seq<char>,
    list: Seq<ServiceInstance>,
)
    ensures
        service_upstreams(entries.insert(name, list), name) == upstreams_of(list),
        other != name ==> service_upstreams(entries.insert(name, list), other) == service_upstreams(
            entries,
            other,
        ),
        !entries.contains_key(name) ==> service_upstreams(entries, name).len() == 0,
{
}

/// A bind address is an address and a port with the last colon between them. A port that is no
/// number, and a bind address without a colon, stand for the port 8080.
pub proof fn lemma_bind_address(ip: Seq<char>, port: u32, text: Seq<char>, bare: Seq<char>)
    ensures
        bind_parts(ip + seq![':'] + decimal(port as nat)) == (ip, port),
        !text.contains(':') ==> bind_parts(ip + seq![':'] + text).0 == ip,
        !text.contains(':') && parse_u32(text) is None ==> bind_parts(ip + seq![':'] + text).1
            == 8080,
        !bare.contains(':') ==> bind_parts(bare) == ("127.0.0.1"@, 8080u32),
{
    lemma_decimal_reads_back(port as nat);
    let digits = decimal(port as nat);
    assert(!digits.contains(':')) by {
        if digits.contains(':') {
            let k = digits.index_of(':');
            assert('0' <= digits[k] <= '9');
        }
    }
    lemma_bind_parts(ip, digits);
    if !text.contains(':') {
        lemma_bind_parts(ip, text);
    }
}

proof fn lemma_bind_parts(ip: Seq<char>, text: Seq<char>)
    requires
        !text.contains(':'),
    ensures
        bind_parts(ip + seq![':'] + text) == (
            ip,
            match parse_u32(text) {
                Some(port) => port,
                None => 8080u32,
            },
        ),
{
    let bind = ip + seq![':'] + text;
    let at = ip.len() as int;
    assert(bind[at] == ':');
    assert forall|k: int| at < k < bind.len() implies bind[k] != ':' by {
        assert(text.contains(text[k - at - 1]));
    }
    assert(is_last_index(bind, ':', at));
    assert(bind.contains(':'));
    let chosen = choose|k: int| is_last_index(bind, ':', k);
    assert(chosen == at);
    assert(bind.take(at) =~= ip);
    assert(bind.skip(at + 1) =~= text);
}

/// The address that is announced is the one that is bound, but never `0.0.0.0` unless that is the
/// machine's own: then it is the machine's own address, or that of the loopback where it is not
/// known.
pub proof fn lemma_announced_address(bound: Seq<char>, local: Seq<char>)
    ensures
        announced_ip("0.0.0.0"@, Some(local)) == local,
        announced_ip("0.0.0.0"@, None) == "127.0.0.1"@,
        bound != "0.0.0.0"@ ==> announced_ip(bound, Some(local)) == bound && announced_ip(
            bound,
            None,
        ) == bound,
{
}

/// The services of a list of rules are those that some rule names, and no others.
pub proof fn lemma_services_are_those_named(rules: Seq<RouteRule>, name: Seq<char>)
    ensures
        named_services(rules).contains(name) <==> exists|i: int|
            0 <= i < rules.len() && ((#[trigger] rules[i]).service_name matches Some(own) && own@
                == name),
    decreases rules.len(),
{
    if rules.len() > 0 {
        let front = rules.drop_last();
        let before = named_services(front);
        let all = named_services(rules);
        lemma_services_are_those_named(front, name);
        if all.contains(name) {
            let at = all.index_of(name);
            if at < before.len() {
                assert(before[at] == name);
                let i = choose|i: int|
                    0 <= i < front.len() && ((#[trigger] front[i]).service_name matches Some(own)
                        && own@ == name);
                assert(rules[i] == front[i]);
            } else {
                assert(rules[rules.len() - 1] == rules.last());
            }
        }
        if exists|i: int|
            0 <= i < rules.len() && ((#[trigger] rules[i]).service_name matches Some(own) && own@
                == name) {
            let i = choose|i: int|
                0 <= i < rules.len() && ((#[trigger] rules[i]).service_name matches Some(own)
                    && own@ == name);
            if i < front.len() {
                assert(front[i] == rules[i]);
                assert(before.contains(name));
                assert(all[before.index_of(name)] == name);
            } else {
                assert(all[all.len() - 1] == name);
            }
        }
    }
}

/// The gateway is registered only where that is switched on, and the routes are subscribed to only
/// once the server has been reached.
pub proof fn lemma_startup_steps(step: Startup, done: bool, settings: Settings, active: bool)
    ensures
        step_after(step, done, settings, active) == Startup::Register <==> {
            &&& step == Startup::SubscribeRoutes
            &&& settings.nacos matches Some(nacos) && nacos.enabled && nacos.register_enabled
        },
        step_after(step, done, settings, active) == Startup::SubscribeRoutes <==> {
            &&& step == Startup::Connect
            &&& done
            &&& settings.nacos matches Some(nacos) && nacos.enabled
        },
        step_after(step, done, settings, active) == Startup::Connect <==> {
            &&& step == Startup::Begin
            &&& settings.nacos matches Some(nacos) && nacos.enabled
        },
        step_after(step, done, settings, active) != Startup::Begin,
{
}

/// The gateway goes by the name that is set.
pub proof fn lemma_own_name(settings: NacosSettings)
    ensures
        settings.service_name matches Some(name) ==> own_name(settings) == name@,
        settings.service_name is None ==> own_name(settings) == "ms-gateway"@,
{
}

/// The gateway logs in with the user and the password that are set, and only where both are and
/// neither is empty.
pub proof fn lemma_login(settings: NacosSettings)
    ensures
        login(settings) is Some <==> {
            &&& settings.username is Some
            &&& settings.username->0@.len() > 0
            &&& settings.password is Some
            &&& settings.password->0@.len() > 0
        },
        login(settings) matches Some(pair) ==> Some(pair.0) == settings.username && Some(pair.1)
            == settings.password,
{
}

/// Rules from the server are taken exactly where they can be read and each is valid. They are then
/// the active ones, in their order, the server manages the routes, and each service that one of
/// them names is subscribed to, once; otherwise all stays as it was.
pub proof fn lemma_valid_rules_are_applied(
    r: Result<Vec<String>, String>,
    parsed: Result<Vec<RouteRule>, String>,
    before: (Seq<RouteRule>, bool),
    after: (Seq<RouteRule>, bool),
    name: Seq<char>,
    k: int,
)
    requires
        is_applied(r, parsed, before, after),
    ensures
        r is Ok <==> parsed is Ok && forall|i: int|
            0 <= i < parsed->Ok_0@.len() ==> (#[trigger] parsed->Ok_0@[i]).flaw() is None,
        r is Err ==> after == before,
        r is Ok ==> after.1 && after.0.len() == parsed->Ok_0@.len(),
        r is Ok && 0 <= k < after.0.len() ==> {
            &&& after.0[k].prefix == parsed->Ok_0@[k].prefix
            &&& after.0[k].upstream == parsed->Ok_0@[k].upstream
            &&& after.0[k].service_name == parsed->Ok_0@[k].service_name
            &&& after.0[k].strategy == parsed->Ok_0@[k].strategy
            &&& after.0[k].whitelist == parsed->Ok_0@[k].whitelist
        },
        r matches Ok(services) ==> texts(services@).no_duplicates() && (texts(services@).contains(
            name,
        ) <==> exists|i: int|
            0 <= i < parsed->Ok_0@.len() && ((
            #[trigger] parsed->Ok_0@[i]).service_name matches Some(own) && own@ == name)),
{
    if parsed is Ok {
        let rules = parsed->Ok_0@;
        lemma_first_flaw(rules, 0);
        lemma_every_service_once(rules);
        lemma_services_are_those_named(rules, name);
        if r is Ok && 0 <= k < after.0.len() {
            assert(after.0[k].same_rule(rules[k]));
        }
    }
}

/// The route rules stand in the configuration centre exactly where an entry is named for them: in
/// the namespace of the configuration, and in their own group or else in that of the configuration.
pub proof fn lemma_routes_place(settings: NacosSettings)
    ensures
        routes_place(settings) is Some <==> settings.routes_data_id is Some,
        routes_place(settings) matches Some(key) ==> {
            &&& key.data_id@ == settings.routes_data_id->0@
            &&& key.tenant@ == settings.config_namespace@
            &&& settings.routes_group matches Some(group) ==> key.group@ == group@
            &&& settings.routes_group is None ==> key.group@ == settings.config_group@
        },
{
}

} // verus!
