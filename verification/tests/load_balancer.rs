use ms_gateway::load_balancer::pool::{
    accepts_upstreams, create_balancer_table, get_or_create_balancer, select_upstream, total_fits,
    Balancer,
};
use ms_gateway::load_balancer::weighted_random::WeightedRandomBalancerInner;
use ms_gateway::load_balancer::{
    ClientAddr, IpHashBalancer, LoadBalancer, RoundRobinBalancer, WeightedRandomBalancer,
    WeightedUpstream,
};

fn up(url: &str, weight: u32) -> WeightedUpstream {
    WeightedUpstream { url: url.to_string(), weight }
}

fn client(last: u8) -> ClientAddr {
    ClientAddr { ip: vec![10, 0, 0, last], port: 4000 }
}

#[test]
fn test_round_robin_cycling() {
    let mut balancer = RoundRobinBalancer::new(vec![
        "http://a:3000".into(),
        "http://b:3000".into(),
        "http://c:3000".into(),
    ]);

    assert_eq!(balancer.select(None).unwrap(), "http://a:3000");
    assert_eq!(balancer.select(None).unwrap(), "http://b:3000");
    assert_eq!(balancer.select(None).unwrap(), "http://c:3000");
    assert_eq!(balancer.select(None).unwrap(), "http://a:3000");
}

#[test]
fn test_empty_upstreams() {
    let mut balancer = RoundRobinBalancer::new(vec![]);
    assert!(balancer.select(None).is_none());
}

#[test]
fn round_robin_test_dynamic_update() {
    let mut balancer =
        RoundRobinBalancer::new(vec!["http://a:3000".into(), "http://b:3000".into()]);
    assert_eq!(balancer.select(None).unwrap(), "http://a:3000");

    balancer.update_upstreams(vec![
        WeightedUpstream { url: "http://c:3000".into(), weight: 1 },
        WeightedUpstream { url: "http://d:3000".into(), weight: 1 },
    ]);

    let next = balancer.select(None).unwrap();
    assert!(next == "http://c:3000" || next == "http://d:3000");
}

#[test]
fn round_robin_test_update_to_empty() {
    let mut balancer = RoundRobinBalancer::new(vec!["http://a:3000".into()]);
    assert!(balancer.select(None).is_some());

    balancer.update_upstreams(vec![] as Vec<WeightedUpstream>);
    assert!(balancer.select(None).is_none());
}

#[test]
fn test_basic_selection() {
    let mut balancer = WeightedRandomBalancer::new(vec![
        WeightedUpstream { url: "http://localhost:30000".to_string(), weight: 1 },
        WeightedUpstream { url: "http://localhost:30001".to_string(), weight: 2 },
        WeightedUpstream { url: "http://localhost:30002".to_string(), weight: 3 },
    ]);

    let mut counts = std::collections::HashMap::new();
    for _ in 0..6000 {
        let url = balancer.select(None).unwrap();
        *counts.entry(url).or_insert(0) += 1;
    }

    println!("{:?}", counts);
    assert!(counts["http://localhost:30000"] < counts["http://localhost:30001"]);
    assert!(counts["http://localhost:30001"] < counts["http://localhost:30002"]);
}

#[test]
fn weighted_random_test_dynamic_update() {
    let mut balancer = WeightedRandomBalancer::new(vec![WeightedUpstream {
        url: "http://localhost:30000".to_string(),
        weight: 1,
    }]);
    assert_eq!(balancer.select(None).unwrap(), "http://localhost:30000");

    balancer.update_upstreams(vec![
        WeightedUpstream { url: "http://localhost:30001".to_string(), weight: 1 },
        WeightedUpstream { url: "http://localhost:30002".to_string(), weight: 1 },
    ]);

    let selected = balancer.select(None).unwrap();
    assert!(selected == "http://localhost:30001" || selected == "http://localhost:30002");
}

#[test]
fn weighted_random_test_update_to_empty() {
    let mut balancer = WeightedRandomBalancer::new(vec![WeightedUpstream {
        url: "http://localhost:30000".to_string(),
        weight: 1,
    }]);
    assert!(balancer.select(None).is_some());

    balancer.update_upstreams(vec![] as Vec<WeightedUpstream>);
    assert!(balancer.select(None).is_none());
}

#[test]
fn the_turn_is_kept_over_an_update() {
    let mut balancer = RoundRobinBalancer::new(vec!["a".into(), "b".into(), "c".into()]);
    balancer.select(None);
    balancer.update_upstreams(vec![up("x", 0), up("y", 9)]);
    assert_eq!(balancer.select(None).unwrap(), "y");
    assert_eq!(balancer.select(None).unwrap(), "x");
}

#[test]
fn each_upstream_has_one_turn_per_round() {
    let mut balancer = RoundRobinBalancer::new(vec!["a".into(), "b".into(), "c".into()]);
    balancer.select(None);
    let mut round: Vec<String> = (0..3).map(|_| balancer.select(None).unwrap()).collect();
    round.sort();
    assert_eq!(round, vec!["a", "b", "c"]);
}

#[test]
fn draws_fall_in_proportion() {
    let inner =
        WeightedRandomBalancerInner::new(vec![up("a", 1), up("none", 0), up("b", 2), up("c", 3)]);
    let picks: Vec<usize> = (1..=6).map(|draw| inner.pick(draw)).collect();
    assert_eq!(picks, vec![0, 1, 1, 2, 2, 2]);
    assert_eq!(inner.draw_bound(), 6);
}

#[test]
fn without_weight_nothing_is_drawn() {
    let inner = WeightedRandomBalancerInner::new(vec![up("a", 0), up("b", 0)]);
    assert_eq!(inner.select(), None);
    let one = WeightedRandomBalancerInner::new(vec![up("a", 0), up("b", 5)]);
    for _ in 0..50 {
        assert_eq!(one.select(), Some("b".to_string()));
    }
    assert_eq!(WeightedRandomBalancer::new(vec![]).select_inner(), None);
}

#[test]
fn draws_reach_every_upstream() {
    let balancer = WeightedRandomBalancer::new(vec![up("a", 1), up("b", 1)]);
    let picks: Vec<String> = (0..200).map(|_| balancer.select_inner().unwrap()).collect();
    assert!(picks.contains(&"a".to_string()));
    assert!(picks.contains(&"b".to_string()));
}

#[test]
fn a_client_keeps_its_upstream() {
    let mut balancer = IpHashBalancer::new(vec!["a".into(), "b".into(), "c".into()]);
    let first = balancer.select(Some(&client(7))).unwrap();
    for port in 0..20 {
        let addr = ClientAddr { ip: vec![10, 0, 0, 7], port };
        assert_eq!(balancer.select(Some(&addr)).unwrap(), first);
    }
    assert_eq!(balancer.select(None), None);
    balancer.update_upstreams(vec![up("z", 1)]);
    assert_eq!(balancer.select(Some(&client(7))).unwrap(), "z");
    balancer.update_upstreams(vec![]);
    assert_eq!(balancer.select(Some(&client(7))), None);
}

#[test]
fn the_hash_is_fnv() {
    // The 64-bit FNV-1a hash of the single byte 'a' is 0xaf63dc4c8601ec8c.
    let urls: Vec<String> = (0..16).map(|i| format!("u{}", i)).collect();
    let mut balancer = IpHashBalancer::new(urls);
    let addr = ClientAddr { ip: vec![b'a'], port: 1 };
    assert_eq!(balancer.select(Some(&addr)).unwrap(), "u12");
    let empty = ClientAddr { ip: vec![], port: 1 };
    assert_eq!(balancer.select(Some(&empty)).unwrap(), "u5");
}

#[test]
fn strategies_choose_the_balancer() {
    let list = vec![up("a", 1)];
    assert!(matches!(Balancer::for_strategy("random", &list), Balancer::Random(_)));
    assert!(matches!(Balancer::for_strategy("iphash", &list), Balancer::IpHash(_)));
    assert!(matches!(Balancer::for_strategy("robin", &list), Balancer::RoundRobin(_)));
    assert!(matches!(Balancer::for_strategy("other", &list), Balancer::RoundRobin(_)));
}

#[test]
fn a_route_keeps_its_balancer() {
    let mut table = create_balancer_table();
    let prefix = vec!["/a".to_string(), "/b".to_string()];
    let list = vec![up("x", 1), up("y", 1)];
    let key = get_or_create_balancer(&mut table, &prefix, &list, "robin");
    assert_eq!(key, "robin:/a,/b");
    assert_eq!(table.len(), 1);
    assert_eq!(select_upstream(&mut table, &prefix, &list, "robin", None), "x");
    assert_eq!(select_upstream(&mut table, &prefix, &list, "robin", None), "y");
    let grown = vec![up("p", 1), up("q", 1), up("r", 1)];
    assert_eq!(select_upstream(&mut table, &prefix, &grown, "robin", None), "r");
    assert_eq!(table.len(), 1);
    let other = vec!["/c".to_string()];
    assert_eq!(select_upstream(&mut table, &other, &list, "robin", None), "x");
    assert_eq!(table.len(), 2);
}

#[test]
fn without_a_choice_the_first_upstream_is_taken() {
    let mut table = create_balancer_table();
    let prefix = vec!["/a".to_string()];
    let list = vec![up("x", 1), up("y", 1)];
    assert_eq!(select_upstream(&mut table, &prefix, &list, "iphash", None), "x");
    let weightless = vec![up("x", 0), up("y", 0)];
    assert_eq!(select_upstream(&mut table, &prefix, &weightless, "random", None), "x");
    let one = vec![up("x", 0), up("y", 3)];
    assert_eq!(select_upstream(&mut table, &prefix, &one, "random", None), "y");
}

#[test]
fn weights_have_to_fit() {
    let fits = vec![up("x", u32::MAX - 1), up("y", 1)];
    let too_much = vec![up("x", u32::MAX), up("y", 1)];
    assert!(total_fits(&fits));
    assert!(!total_fits(&too_much));
    let mut table = create_balancer_table();
    let prefix = vec!["/a".to_string()];
    assert!(accepts_upstreams(&mut table, &prefix, &fits, "random"));
    assert!(!accepts_upstreams(&mut table, &prefix, &too_much, "random"));
    assert!(accepts_upstreams(&mut table, &prefix, &too_much, "robin"));
    get_or_create_balancer(&mut table, &prefix, &fits, "random");
    assert!(!accepts_upstreams(&mut table, &prefix, &too_much, "random"));
    assert_eq!(table.len(), 1);
}
