//! The balancers of all routes.

use crate::load_balancer::ip_hash::hash_of;
use crate::load_balancer::round_robin::{
    advanced, choice_after, gets_a_turn, lemma_each_chosen_once,
};
use crate::load_balancer::weighted_random::{active, falls_on, lemma_weight_can_be_drawn, total};
use crate::load_balancer::{
    copy_upstreams, urls, urls_of, ClientAddr, IpHashBalancer, LoadBalancer, RoundRobinBalancer,
    WeightedRandomBalancer, WeightedUpstream,
};
use crate::text::{
    before_first, concat3, join, join_texts, lemma_before_first, lemma_split_join, opt_text, str_eq,
    texts,
};
use dashmap::DashMap;
use vstd::prelude::*;
use vstd::string::*;

verus! {

// ----- one balancer -----

/// A balancer of one of the known strategies.
#[derive(Debug)]
pub enum Balancer {
    RoundRobin(RoundRobinBalancer),
    Random(WeightedRandomBalancer),
    IpHash(IpHashBalancer),
}

/// What decides the choices of a balancer.
pub enum BalancerState {
    RoundRobin { urls: Seq<Seq<char>>, position: usize },
    Random { upstreams: Seq<WeightedUpstream> },
    IpHash { urls: Seq<Seq<char>> },
}

/// The state of a new balancer. A strategy that is not known counts as round robin.
pub open spec fn fresh_state(
    strategy: Seq<char>,
    upstreams: Seq<WeightedUpstream>,
) -> BalancerState {
    if strategy == "random"@ {
        BalancerState::Random { upstreams: active(upstreams) }
    } else if strategy == "iphash"@ {
        BalancerState::IpHash { urls: urls_of(upstreams) }
    } else {
        BalancerState::RoundRobin { urls: urls_of(upstreams), position: 0 }
    }
}

/// Whether a balancer can take the upstreams: drawing at random needs weights whose sum fits.
pub open spec fn accepts(state: BalancerState, upstreams: Seq<WeightedUpstream>) -> bool {
    state is Random ==> total(upstreams) <= u32::MAX
}

/// The state after an update: the upstreams are new, the turn is kept.
pub open spec fn updated(state: BalancerState, upstreams: Seq<WeightedUpstream>) -> BalancerState {
    match state {
        BalancerState::RoundRobin { urls: _, position } => BalancerState::RoundRobin {
            urls: urls_of(upstreams),
            position,
        },
        BalancerState::Random { upstreams: _ } => BalancerState::Random {
            upstreams: active(upstreams),
        },
        BalancerState::IpHash { urls: _ } => BalancerState::IpHash { urls: urls_of(upstreams) },
    }
}

/// A balancer in this state may choose the given upstream for the client with this address. Round
/// robin and the hash leave no choice; a random draw may fall on every upstream with a weight.
pub open spec fn chooses(
    state: BalancerState,
    client: Option<Seq<u8>>,
    chosen: Option<Seq<char>>,
) -> bool {
    match state {
        BalancerState::RoundRobin { urls, position } => chosen == (if urls.len() == 0 {
            None
        } else {
            Some(urls[position as int % urls.len() as int])
        }),
        BalancerState::Random { upstreams } => match chosen {
            None => upstreams.len() == 0,
            Some(url) => exists|draw: int, index: int|
                #[trigger] falls_on(upstreams, draw, index) && url == upstreams[index].url@,
        },
        BalancerState::IpHash { urls } => chosen == (if urls.len() == 0 || client is None {
            None
        } else {
            Some(urls[hash_of(client->0) as int % urls.len() as int])
        }),
    }
}

/// The state after a choice.
pub open spec fn after_choice(state: BalancerState) -> BalancerState {
    match state {
        BalancerState::RoundRobin { urls, position } => if urls.len() == 0 {
            state
        } else {
            BalancerState::RoundRobin { urls, position: advanced(position) }
        },
        _ => state,
    }
}

/// The address of the client, where it is known.
pub open spec fn client_ip_of(client: Option<&ClientAddr>) -> Option<Seq<u8>> {
    match client {
        Some(addr) => Some(addr.ip@),
        None => None,
    }
}

impl Balancer {
    /// What decides the choices.
    pub open spec fn view(&self) -> BalancerState {
        match *self {
            Balancer::RoundRobin(b) => BalancerState::RoundRobin {
                urls: b.urls(),
                position: b.position(),
            },
            Balancer::Random(b) => BalancerState::Random { upstreams: b@ },
            Balancer::IpHash(b) => BalancerState::IpHash { urls: b.urls() },
        }
    }

    /// A new balancer of the strategy.
    pub fn for_strategy(strategy: &str, upstreams: &Vec<WeightedUpstream>) -> (b: Self)
        requires
            accepts(fresh_state(strategy@, upstreams@), upstreams@),
        ensures
            b@ == fresh_state(strategy@, upstreams@),
    {
        if str_eq(strategy, "random") {
            Balancer::Random(WeightedRandomBalancer::new(copy_upstreams(upstreams)))
        } else if str_eq(strategy, "iphash") {
            Balancer::IpHash(IpHashBalancer::new(urls(upstreams)))
        } else {
            Balancer::RoundRobin(RoundRobinBalancer::new(urls(upstreams)))
        }
    }

    /// Replaces the upstreams.
    pub fn update(self, upstreams: &Vec<WeightedUpstream>) -> (b: Self)
        requires
            accepts(self@, upstreams@),
        ensures
            b@ == updated(self@, upstreams@),
    {
        let list = copy_upstreams(upstreams);
        match self {
            Balancer::RoundRobin(inner) => {
                let mut b = inner;
                b.update_upstreams(list);
                Balancer::RoundRobin(b)
            },
            Balancer::Random(inner) => {
                let mut b = inner;
                b.update_upstreams(list);
                Balancer::Random(b)
            },
            Balancer::IpHash(inner) => {
                let mut b = inner;
                b.update_upstreams(list);
                Balancer::IpHash(b)
            },
        }
    }

    /// Chooses an upstream; the balancer comes back with the choice.
    pub fn choose_next(self, client: Option<&ClientAddr>) -> (r: (Self, Option<String>))
        ensures
            chooses(self@, client_ip_of(client), opt_text(r.1)),
            r.0@ == after_choice(self@),
    {
        let ghost state = self@;
        match self {
            Balancer::RoundRobin(inner) => {
                let mut b = inner;
                let chosen = b.select(client);
                (Balancer::RoundRobin(b), chosen)
            },
            Balancer::Random(inner) => {
                let chosen = inner.select_inner();
                proof {
                    if chosen is Some {
                        let (draw, index) = choose|draw: int, index: int|
                            #[trigger] falls_on(inner@, draw, index) && chosen->0@
                                == inner@[index].url@;
                        assert(state->upstreams == inner@);
                        assert(falls_on(state->upstreams, draw, index));
                        assert(opt_text(chosen) == Some(state->upstreams[index].url@));
                    }
                }
                (Balancer::Random(inner), chosen)
            },
            Balancer::IpHash(inner) => {
                let mut b = inner;
                let chosen = b.select(client);
                (Balancer::IpHash(b), chosen)
            },
        }
    }
}

// ----- the balancers of all routes -----

/// The balancers of all routes, by the key of the route.
pub type BalancerTable = DashMap<String, Balancer>;

/// The entries of the table.
pub uninterp spec fn balancer_entries(table: DashMap<String, Balancer>) -> Map<
    Seq<char>,
    Balancer,
>;

/// Trusted: `dashmap::DashMap::new` makes a map that holds nothing.
#[verifier::external_body]
fn new_balancer_map() -> (table: BalancerTable)
    ensures
        balancer_entries(table).dom() == Set::<Seq<char>>::empty(),
{
    DashMap::new()
}

/// A table without entries.
pub fn create_balancer_table() -> (table: BalancerTable)
    ensures
        balancer_entries(table).dom() == Set::<Seq<char>>::empty(),
{
    new_balancer_map()
}

/// Trusted: `dashmap::DashMap::insert` sets the entry of a key, whether or not there was one.
#[verifier::external_body]
fn insert_balancer(table: &mut BalancerTable, key: String, balancer: Balancer)
    ensures
        balancer_entries(*final(table)) == balancer_entries(*old(table)).insert(key@, balancer),
{
    table.insert(key, balancer);
}

/// Trusted: `dashmap::DashMap::remove` takes the entry of a key out of the map and returns it, and
/// does nothing where there is none.
#[verifier::external_body]
fn take_balancer(table: &mut BalancerTable, key: &str) -> (taken: Option<Balancer>)
    ensures
        taken == (if balancer_entries(*old(table)).dom().contains(key@) {
            Some(balancer_entries(*old(table))[key@])
        } else {
            None
        }),
        balancer_entries(*final(table)) == balancer_entries(*old(table)).remove(key@),
{
    table.remove(key).map(|entry| entry.1)
}

/// The key of a route: its strategy and its prefixes, whatever its upstreams are.
pub open spec fn balancer_key(strategy: Seq<char>, prefix: Seq<Seq<char>>) -> Seq<char> {
    strategy + ":"@ + join(prefix, ","@)
}

/// The state that the route's balancer is in, or would begin in.
pub open spec fn slot(
    entries: Map<Seq<char>, Balancer>,
    strategy: Seq<char>,
    prefix: Seq<Seq<char>>,
    upstreams: Seq<WeightedUpstream>,
) -> BalancerState {
    let key = balancer_key(strategy, prefix);
    if entries.dom().contains(key) {
        entries[key]@
    } else {
        fresh_state(strategy, upstreams)
    }
}

/// Whether the sum of the weights fits.
pub fn total_fits(upstreams: &Vec<WeightedUpstream>) -> (b: bool)
    ensures
        b == (total(upstreams@) <= u32::MAX),
{
    let mut sum: u32 = 0;
    let mut i: usize = 0;
    assert(upstreams@.take(0) =~= Seq::<WeightedUpstream>::empty());
    while i < upstreams.len()
        invariant
            i <= upstreams@.len(),
            sum == total(upstreams@.take(i as int)),
        decreases upstreams@.len() - i,
    {
        assert(upstreams@.take(i + 1).drop_last() =~= upstreams@.take(i as int));
        if u32::MAX - sum < upstreams[i].weight {
            proof {
                crate::load_balancer::weighted_random::lemma_total_monotonic(
                    upstreams@,
                    i + 1,
                    upstreams@.len() as int,
                );
                assert(upstreams@.take(upstreams@.len() as int) =~= upstreams@);
            }
            return false;
        }
        sum = sum + upstreams[i].weight;
        i = i + 1;
    }
    assert(upstreams@.take(i as int) =~= upstreams@);
    true
}

/// Whether the route's balancer can take the upstreams. The table is as before afterwards.
pub fn accepts_upstreams(
    table: &mut BalancerTable,
    route_prefix: &Vec<String>,
    upstreams: &Vec<WeightedUpstream>,
    strategy: &str,
) -> (b: bool)
    ensures
        b == accepts(
            slot(balancer_entries(*old(table)), strategy@, texts(route_prefix@), upstreams@),
            upstreams@,
        ),
        balancer_entries(*final(table)) == balancer_entries(*old(table)),
{
    let ghost before = balancer_entries(*table);
    let key = concat3(strategy, ":", join_texts(route_prefix, ",").as_str());
    match take_balancer(table, key.as_str()) {
        Some(found) => {
            let random: bool = match &found {
                Balancer::Random(_) => true,
                _ => false,
            };
            insert_balancer(table, key, found);
            assert(balancer_entries(*table) =~= before);
            !random || total_fits(upstreams)
        },
        None => {
            assert(balancer_entries(*table) =~= before);
            !str_eq(strategy, "random") || total_fits(upstreams)
        },
    }
}

/// Makes sure that the route has a balancer over the given upstreams, and returns its key. One that
/// is there already is updated in place, so that changes take effect at once.
pub fn get_or_create_balancer(
    table: &mut BalancerTable,
    route_prefix: &Vec<String>,
    upstreams: &Vec<WeightedUpstream>,
    strategy: &str,
) -> (key: String)
    requires
        accepts(
            slot(balancer_entries(*old(table)), strategy@, texts(route_prefix@), upstreams@),
            upstreams@,
        ),
    ensures
        key@ == balancer_key(strategy@, texts(route_prefix@)),
        balancer_entries(*final(table)).dom() == balancer_entries(*old(table)).dom().insert(key@),
        balancer_entries(*final(table))[key@]@ == updated(
            slot(balancer_entries(*old(table)), strategy@, texts(route_prefix@), upstreams@),
            upstreams@,
        ),
        balancer_entries(*final(table)).remove(key@) == balancer_entries(*old(table)).remove(key@),
{
    let ghost before = balancer_entries(*table);
    let key = concat3(strategy, ":", join_texts(route_prefix, ",").as_str());
    let found = match take_balancer(table, key.as_str()) {
        Some(found) => found,
        None => Balancer::for_strategy(strategy, upstreams),
    };
    insert_balancer(table, key.clone(), found.update(upstreams));
    assert(balancer_entries(*table).dom() =~= before.dom().insert(key@));
    assert(balancer_entries(*table).remove(key@) =~= before.remove(key@));
    key
}

/// `url` is what the route's balancer may choose among the upstreams, and `after` is the table once
/// it has: the balancer has the upstreams and has made a choice, and all others are as before.
pub open spec fn selected(
    before: Map<Seq<char>, Balancer>,
    after: Map<Seq<char>, Balancer>,
    strategy: Seq<char>,
    prefix: Seq<Seq<char>>,
    upstreams: Seq<WeightedUpstream>,
    client: Option<Seq<u8>>,
    url: Seq<char>,
) -> bool {
    let key = balancer_key(strategy, prefix);
    let ready = updated(slot(before, strategy, prefix, upstreams), upstreams);
    &&& exists|chosen: Option<Seq<char>>| #[trigger]
        chooses(ready, client, chosen) && url == (match chosen {
            Some(text) => text,
            None => upstreams[0].url@,
        })
    &&& after.dom() == before.dom().insert(key)
    &&& after[key]@ == after_choice(ready)
    &&& after.remove(key) == before.remove(key)
}

/// Chooses an upstream with the route's balancer: the first one where the balancer has no choice.
pub fn select_upstream(
    table: &mut BalancerTable,
    route_prefix: &Vec<String>,
    upstreams: &Vec<WeightedUpstream>,
    strategy: &str,
    client: Option<&ClientAddr>,
) -> (url: String)
    requires
        upstreams@.len() > 0,
        accepts(
            slot(balancer_entries(*old(table)), strategy@, texts(route_prefix@), upstreams@),
            upstreams@,
        ),
    ensures
        selected(
            balancer_entries(*old(table)),
            balancer_entries(*final(table)),
            strategy@,
            texts(route_prefix@),
            upstreams@,
            client_ip_of(client),
            url@,
        ),
        urls_of(upstreams@).contains(url@),
{
    let ghost before = balancer_entries(*table);
    let key = get_or_create_balancer(table, route_prefix, upstreams, strategy);
    let ghost between = balancer_entries(*table);
    assert(urls_of(upstreams@)[0] == upstreams@[0].url@);
    match take_balancer(table, key.as_str()) {
        Some(balancer) => {
            let (next, chosen) = balancer.choose_next(client);
            assert(chooses(balancer@, client_ip_of(client), opt_text(chosen)));
            insert_balancer(table, key, next);
            proof {
                assert(balancer_entries(*table).dom() =~= before.dom().insert(key@));
                assert(balancer_entries(*table).remove(key@) =~= between.remove(key@));
                if chosen is Some {
                    lemma_choice_is_an_upstream(
                        slot(before, strategy@, texts(route_prefix@), upstreams@),
                        upstreams@,
                        client_ip_of(client),
                        chosen->0@,
                    );
                }
            }
            match chosen {
                Some(url) => url,
                None => upstreams[0].url.clone(),
            }
        },
        None => {
            assert(between.dom().contains(key@));
            upstreams[0].url.clone()
        },
    }
}

// ----- laws -----

/// Whatever is chosen is one of the upstreams.
pub proof fn lemma_choice_is_an_upstream(
    state: BalancerState,
    upstreams: Seq<WeightedUpstream>,
    client: Option<Seq<u8>>,
    chosen: Seq<char>,
)
    requires
        chooses(updated(state, upstreams), client, Some(chosen)),
    ensures
        urls_of(upstreams).contains(chosen),
{
    match updated(state, upstreams) {
        BalancerState::RoundRobin { urls, position } => {
            let k = position as int % urls.len() as int;
            assert(urls_of(upstreams)[k] == chosen);
        },
        BalancerState::Random { upstreams: kept } => {
            let (draw, index) = choose|draw: int, index: int|
                #[trigger] falls_on(kept, draw, index) && chosen == kept[index].url@;
            crate::load_balancer::weighted_random::lemma_active_members(upstreams, index);
            let i = choose|i: int|
                0 <= i < upstreams.len() && #[trigger] upstreams[i] == kept[index];
            assert(urls_of(upstreams)[i] == chosen);
        },
        BalancerState::IpHash { urls } => {
            let k = hash_of(client->0) as int % urls.len() as int;
            assert(urls_of(upstreams)[k] == chosen);
        },
    }
}

/// The state after `n` choices.
pub open spec fn after_choices(state: BalancerState, n: nat) -> BalancerState
    decreases n,
{
    if n == 0 {
        state
    } else {
        after_choice(after_choices(state, (n - 1) as nat))
    }
}

/// Round robin chooses the upstreams in turn: the choice after `n` others is the one `n` places
/// further on, and in as many choices in a row as there are upstreams each is chosen once. The
/// counter is taken not to reach its limit meanwhile.
pub proof fn lemma_round_robin_takes_turns(
    urls: Seq<Seq<char>>,
    position: usize,
    client: Option<Seq<u8>>,
    n: nat,
)
    requires
        urls.len() > 0,
        position + n + urls.len() <= usize::MAX,
    ensures
        ({
            let now = after_choices(BalancerState::RoundRobin { urls, position }, n);
            &&& forall|chosen: Option<Seq<char>>| #[trigger]
                chooses(now, client, chosen) <==> chosen == Some(
                    urls[choice_after(urls.len(), position, n)],
                )
            &&& now == BalancerState::RoundRobin { urls, position: (position + n) as usize }
        }),
        forall|i: int|
            0 <= i < urls.len() ==> #[trigger] gets_a_turn(urls.len(), position, i),
        forall|k1: nat, k2: nat|
            k1 < urls.len() && k2 < urls.len() && #[trigger] choice_after(urls.len(), position, k1)
                == #[trigger] choice_after(urls.len(), position, k2) ==> k1 == k2,
    decreases n,
{
    if n > 0 {
        lemma_round_robin_takes_turns(urls, position, client, (n - 1) as nat);
    }
    assert forall|i: int| 0 <= i < urls.len() implies #[trigger] gets_a_turn(
        urls.len(),
        position,
        i,
    ) by {
        lemma_each_chosen_once(urls.len(), position, i);
    }
    lemma_each_chosen_once(urls.len(), position, 0);
}

/// With the address of the client as the strategy, a client is sent to the same upstream as long as
/// the upstreams stay the same.
pub proof fn lemma_client_keeps_its_upstream(
    urls: Seq<Seq<char>>,
    client: Option<Seq<u8>>,
    first: Option<Seq<char>>,
    second: Option<Seq<char>>,
)
    requires
        chooses(BalancerState::IpHash { urls }, client, first),
        chooses(after_choice(BalancerState::IpHash { urls }), client, second),
    ensures
        first == second,
{
}

/// An update keeps the kind of a balancer and, in round robin, its turn; updating again with the
/// same upstreams changes nothing.
pub proof fn lemma_update_twice(
    state: BalancerState,
    first: Seq<WeightedUpstream>,
    second: Seq<WeightedUpstream>,
)
    ensures
        updated(updated(state, first), second) == updated(state, second),
        updated(updated(state, first), first) == updated(state, first),
{
}

/// Routes that differ in their strategy or in their prefixes have different balancers.
pub proof fn lemma_keys_differ(
    first: Seq<char>,
    a: Seq<Seq<char>>,
    second: Seq<char>,
    b: Seq<Seq<char>>,
)
    requires
        !first.contains(':'),
        !second.contains(':'),
        a.len() > 0,
        b.len() > 0,
        forall|i: int| 0 <= i < a.len() ==> !(#[trigger] a[i]).contains(','),
        forall|i: int| 0 <= i < b.len() ==> !(#[trigger] b[i]).contains(','),
        balancer_key(first, a) == balancer_key(second, b),
    ensures
        first == second,
        a == b,
{
    reveal_strlit(",");
    assert(","@ =~= seq![',']);
    lemma_key_parts(first, a);
    lemma_key_parts(second, b);
    lemma_split_join(a, ',');
    lemma_split_join(b, ',');
}

proof fn lemma_key_parts(strategy: Seq<char>, prefix: Seq<Seq<char>>)
    requires
        !strategy.contains(':'),
    ensures
        before_first(balancer_key(strategy, prefix), ':') == strategy,
        balancer_key(strategy, prefix).skip(strategy.len() as int + 1) == join(prefix, ","@),
{
    reveal_strlit(":");
    let key = balancer_key(strategy, prefix);
    let n = strategy.len() as int;
    assert forall|k: int| 0 <= k < n implies key[k] != ':' by {
        assert(strategy.contains(strategy[k]));
    }
    lemma_before_first(key, ':', n);
    assert(key.take(n) =~= strategy);
    assert(key.skip(n + 1) =~= join(prefix, ","@));
}

/// What a new balancer chooses first: at random any upstream with a weight; by the client's address
/// none where that is not known; and otherwise, also under a strategy that is not known, the first
/// upstream of the list.
pub proof fn lemma_first_choice(
    strategy: Seq<char>,
    upstreams: Seq<WeightedUpstream>,
    client: Option<Seq<u8>>,
    i: int,
)
    requires
        0 <= i < upstreams.len(),
    ensures
        strategy != "random"@ && strategy != "iphash"@ ==> forall|chosen: Option<Seq<char>>|
            #[trigger]
            chooses(fresh_state(strategy, upstreams), client, chosen) <==> chosen == Some(
                upstreams[0].url@,
            ),
        strategy == "iphash"@ && client is None ==> forall|chosen: Option<Seq<char>>| #[trigger]
            chooses(fresh_state(strategy, upstreams), client, chosen) <==> chosen is None,
        strategy == "iphash"@ ==> forall|chosen: Option<Seq<char>>|
            #![trigger chooses(fresh_state(strategy, upstreams), client, chosen)]
            client matches Some(ip) ==> (chooses(fresh_state(strategy, upstreams), client, chosen)
                <==> chosen == Some(upstreams[hash_of(ip) as int % upstreams.len() as int].url@)),
        strategy == "random"@ && upstreams[i].weight > 0 ==> chooses(
            fresh_state(strategy, upstreams),
            client,
            Some(upstreams[i].url@),
        ),
        strategy == "random"@ ==> forall|url: Seq<char>| #[trigger]
            chooses(fresh_state(strategy, upstreams), client, Some(url)) ==> exists|k: int|
                0 <= k < upstreams.len() && (#[trigger] upstreams[k]).url@ == url
                    && upstreams[k].weight > 0,
        strategy == "random"@ && upstreams[i].weight > 0 ==> !chooses(
            fresh_state(strategy, upstreams),
            client,
            None,
        ),
{
    reveal_strlit("random");
    reveal_strlit("iphash");
    assert("random"@ != "iphash"@) by {
        assert("random"@[0] != "iphash"@[0]);
    }
    let kept = active(upstreams);
    if strategy == "random"@ {
        let state = BalancerState::Random { upstreams: kept };
        assert(fresh_state(strategy, upstreams) == state);
        if upstreams[i].weight > 0 {
            lemma_weight_can_be_drawn(upstreams, i);
            let (draw, index) = choose|draw: int, index: int| #[trigger]
                falls_on(kept, draw, index) && 1 <= draw <= total(upstreams) && kept[index]
                    == upstreams[i];
            let url = upstreams[i].url@;
            assert(state->upstreams == kept);
            assert(falls_on(state->upstreams, draw, index));
            assert(url == state->upstreams[index].url@);
            let chosen = Some(url);
            assert(chosen->0 == state->upstreams[index].url@);
            assert(chooses(state, client, chosen));
        }
        assert forall|url: Seq<char>| #[trigger]
            chooses(fresh_state(strategy, upstreams), client, Some(url)) implies exists|k: int|
            0 <= k < upstreams.len() && (#[trigger] upstreams[k]).url@ == url && upstreams[k].weight
                > 0 by {
            let (draw, index) = choose|draw: int, index: int| #[trigger]
                falls_on(kept, draw, index) && url == kept[index].url@;
            crate::load_balancer::weighted_random::lemma_active_members(upstreams, index);
            crate::load_balancer::weighted_random::lemma_active_keeps_total(upstreams);
            let k = choose|k: int|
                0 <= k < upstreams.len() && #[trigger] upstreams[k] == kept[index];
            assert(kept[index].weight > 0);
            assert(upstreams[k].url@ == url);
        }
    } else {
        vstd::arithmetic::div_mod::lemma_small_mod(0, upstreams.len());
        assert(urls_of(upstreams)[0] == upstreams[0].url@);
    }
}

/// After an update the turn stands where it stood, over the new upstreams: the next choice in round
/// robin is the one at that position, counted round.
pub proof fn lemma_turn_over_new_upstreams(
    urls: Seq<Seq<char>>,
    position: usize,
    upstreams: Seq<WeightedUpstream>,
    client: Option<Seq<u8>>,
    chosen: Option<Seq<char>>,
)
    requires
        upstreams.len() > 0,
    ensures
        chooses(
            updated(BalancerState::RoundRobin { urls, position }, upstreams),
            client,
            chosen,
        ) <==> chosen == Some(upstreams[position as int % upstreams.len() as int].url@),
{
    let k = position as int % upstreams.len() as int;
    assert(urls_of(upstreams)[k] == upstreams[k].url@);
}

/// What a route with a new balancer is sent to, and one whose turn stands at a position: the first
/// upstream, and the one at that position, counted round. The turn then goes on, and the balancers
/// of other routes are as before. Without a client's address the first upstream stands in.
pub proof fn lemma_selected_in_turn(
    before: Map<Seq<char>, Balancer>,
    after: Map<Seq<char>, Balancer>,
    strategy: Seq<char>,
    prefix: Seq<Seq<char>>,
    upstreams: Seq<WeightedUpstream>,
    client: Option<Seq<u8>>,
    url: Seq<char>,
)
    requires
        selected(before, after, strategy, prefix, upstreams, client, url),
        upstreams.len() > 0,
    ensures
        ({
            let key = balancer_key(strategy, prefix);
            &&& after.contains_key(key)
            &&& forall|other: Seq<char>| #[trigger]
                before.contains_key(other) && other != key ==> after.contains_key(other)
                    && after[other] == before[other]
            &&& !before.contains_key(key) && strategy != "random"@ && strategy != "iphash"@ ==> url
                == upstreams[0].url@
            &&& before.contains_key(key) ==> (before[key]@ matches BalancerState::RoundRobin {
                urls,
                position,
            } ==> {
                &&& url == upstreams[position as int % upstreams.len() as int].url@
                &&& after[key]@ == BalancerState::RoundRobin {
                    urls: urls_of(upstreams),
                    position: advanced(position),
                }
            })
            &&& before.contains_key(key) && before[key]@ is IpHash && client is None ==> url
                == upstreams[0].url@
        }),
{
    let key = balancer_key(strategy, prefix);
    let ready = updated(slot(before, strategy, prefix, upstreams), upstreams);
    let chosen = choose|chosen: Option<Seq<char>>| #[trigger]
        chooses(ready, client, chosen) && url == (match chosen {
            Some(text) => text,
            None => upstreams[0].url@,
        });
    assert(urls_of(upstreams)[0] == upstreams[0].url@);
    vstd::arithmetic::div_mod::lemma_small_mod(0, upstreams.len());
    assert(after.dom().contains(key));
    assert forall|other: Seq<char>| #[trigger]
        before.contains_key(other) && other != key implies after.contains_key(other)
        && after[other] == before[other] by {
        assert(before.remove(key).dom().contains(other));
        assert(after.remove(key)[other] == before.remove(key)[other]);
        assert(after.remove(key).dom().contains(other));
    }
    if before.contains_key(key) {
        match before[key]@ {
            BalancerState::RoundRobin { urls, position } => {
                lemma_turn_over_new_upstreams(urls, position, upstreams, client, chosen);
            },
            _ => {},
        }
    }
}

/// Only the address of a client counts, not its port.
pub proof fn lemma_port_has_no_part(client: ClientAddr, other: ClientAddr)
    requires
        client.ip@ == other.ip@,
    ensures
        client_ip_of(Some(&client)) == client_ip_of(Some(&other)),
        client_ip_of(Some(&client)) == Some(client.ip@),
        client_ip_of(None) is None,
{
}

/// Only a balancer that draws at random refuses upstreams, and only where their weights add up to
/// more than 32 bits hold.
pub proof fn lemma_refused_upstreams(state: BalancerState, upstreams: Seq<WeightedUpstream>)
    ensures
        !accepts(state, upstreams) <==> state is Random && total(upstreams) > 0xffff_ffff,
{
}

} // verus!
