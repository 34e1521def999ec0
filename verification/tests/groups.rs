use serde_yaml::Value;
use std::collections::BTreeMap;
use subwash::groups::alive_airports;
use subwash::groups::build_groups;
use subwash::groups::url_test_fields;
use subwash::groups::Airport;
use subwash::model::ProxyGroup;
use subwash::model::ProxyNode;
use subwash::model::Subscription;
use subwash::model::SubscriptionTier;

fn airport(name: &str, tier: SubscriptionTier) -> Airport {
    Airport { name: name.to_string(), tier }
}

fn subscription(name: &str, tier: SubscriptionTier) -> Subscription {
    Subscription {
        name: name.to_string(),
        url: String::new(),
        tier,
        max_nodes: None,
        select_mode: None,
        min_per_region: None,
        max_per_region: None,
    }
}

fn node(name: &str, group: &str) -> ProxyNode {
    ProxyNode {
        name: name.to_string(),
        kind: "ss".to_string(),
        server: "s".to_string(),
        port: 1,
        source_tier: SubscriptionTier::Standard,
        group_name: group.to_string(),
        latency: Some(1),
        other_fields: BTreeMap::new(),
    }
}

fn shape(group: &ProxyGroup) -> (String, String, Vec<String>) {
    (group.name.clone(), group.kind.clone(), group.proxies.clone())
}

fn expected(name: &str, kind: &str, proxies: Vec<&str>) -> (String, String, Vec<String>) {
    (name.to_string(), kind.to_string(), proxies.into_iter().map(|p| p.to_string()).collect())
}

fn fields(list: Vec<(&str, Value)>) -> Vec<(String, Value)> {
    list.into_iter().map(|(k, v)| (k.to_string(), v)).collect()
}

fn number(n: u64) -> Value {
    Value::Number(serde_yaml::Number::from(n))
}

#[test]
fn all_tiers_get_their_groups() {
    let airports = vec![
        airport("back", SubscriptionTier::Backup),
        airport("std1", SubscriptionTier::Standard),
        airport("prem", SubscriptionTier::Premium),
        airport("std2", SubscriptionTier::Standard),
    ];
    let nodes = vec![
        node("back-a", "back"),
        node("std1-a", "std1"),
        node("std1-b", "std1"),
        node("prem-a", "prem"),
        node("std2-a", "std2"),
    ];
    let groups = build_groups(&airports, &nodes, vec!["label".to_string()]);
    let shapes: Vec<_> = groups.iter().map(shape).collect();
    assert_eq!(
        shapes,
        vec![
            expected(
                "节点选择",
                "select",
                vec!["故障转移", "自动选择", "back", "std1", "prem", "std2", "DIRECT"]
            ),
            expected("自动选择", "url-test", vec!["std1", "std2"]),
            expected("故障转移", "fallback", vec!["自动选择", "prem", "back"]),
            expected("LLM", "select", vec!["prem", "故障转移"]),
            expected("Steam", "select", vec!["DIRECT"]),
            expected("订阅信息", "select", vec!["label"]),
            expected("back", "url-test", vec!["back-a"]),
            expected("std1", "url-test", vec!["std1-a", "std1-b"]),
            expected("prem", "url-test", vec!["prem-a"]),
            expected("std2", "url-test", vec!["std2-a"]),
        ]
    );
}

#[test]
fn without_the_standard_tier_nothing_is_automatic() {
    let airports = vec![airport("p", SubscriptionTier::Premium)];
    let groups = build_groups(&airports, &vec![node("p-a", "p")], Vec::new());
    let shapes: Vec<_> = groups.iter().map(shape).collect();
    assert_eq!(
        shapes,
        vec![
            expected("节点选择", "select", vec!["故障转移", "p", "DIRECT"]),
            expected("故障转移", "fallback", vec!["p"]),
            expected("LLM", "select", vec!["p", "故障转移"]),
            expected("Steam", "select", vec!["DIRECT"]),
            expected("p", "url-test", vec!["p-a"]),
        ]
    );
}

#[test]
fn without_the_premium_tier_models_fall_back() {
    let airports = vec![airport("s", SubscriptionTier::Standard)];
    let groups = build_groups(&airports, &vec![node("s-a", "s")], Vec::new());
    let shapes: Vec<_> = groups.iter().map(shape).collect();
    assert_eq!(shapes[2], expected("故障转移", "fallback", vec!["自动选择"]));
    assert_eq!(shapes[3], expected("LLM", "select", vec!["故障转移"]));
}

#[test]
fn an_airport_that_stands_twice_falls_back_once() {
    let airports = vec![
        airport("b", SubscriptionTier::Backup),
        airport("b", SubscriptionTier::Backup),
    ];
    let groups = build_groups(&airports, &vec![node("b-a", "b")], Vec::new());
    let shapes: Vec<_> = groups.iter().map(shape).collect();
    assert_eq!(shapes[0], expected("节点选择", "select", vec!["故障转移", "b", "b", "DIRECT"]));
    assert_eq!(shapes[1], expected("故障转移", "fallback", vec!["b"]));
    assert_eq!(shapes.len(), 6);
}

#[test]
fn an_airport_may_be_called_like_a_group() {
    let airports = vec![airport("故障转移", SubscriptionTier::Premium)];
    let groups = build_groups(&airports, &vec![node("x", "故障转移")], Vec::new());
    assert_eq!(groups[2].name, "LLM");
    assert_eq!(groups[2].proxies, vec!["故障转移"]);
}

#[test]
fn an_airport_without_nodes_gets_no_group() {
    let airports = vec![
        airport("a", SubscriptionTier::Backup),
        airport("b", SubscriptionTier::Backup),
    ];
    let groups = build_groups(&airports, &vec![node("b-x", "b")], Vec::new());
    assert_eq!(groups.len(), 5);
    assert_eq!(groups[4].name, "b");
}

#[test]
fn labels_change_no_other_group() {
    let airports = vec![airport("a", SubscriptionTier::Standard)];
    let nodes = vec![node("a-x", "a")];
    let without = build_groups(&airports, &nodes, Vec::new());
    let with = build_groups(&airports, &nodes, vec!["l1".to_string(), "l2".to_string()]);
    assert_eq!(with.len(), without.len() + 1);
    let rest: Vec<_> = with.iter().filter(|g| g.name != "订阅信息").map(shape).collect();
    let all: Vec<_> = without.iter().map(shape).collect();
    assert_eq!(rest, all);
}

#[test]
fn tests_have_their_fields() {
    let url = Value::String("http://www.YouTube.com".to_string());
    let wanted = fields(vec![
        ("interval", number(600)),
        ("tolerance", number(200)),
        ("url", url.clone()),
    ]);
    assert_eq!(url_test_fields(600, 200), wanted);
    assert_eq!(url_test_fields(1, 2)[0].1, number(1));
    assert_eq!(url_test_fields(1, 2)[1].1, number(2));

    let airports = vec![airport("s", SubscriptionTier::Standard)];
    let groups = build_groups(&airports, &vec![node("s-a", "s")], Vec::new());
    assert!(groups[0].other_fields.is_empty());
    assert_eq!(groups[1].other_fields, wanted);
    assert_eq!(
        groups[2].other_fields,
        fields(vec![("interval", number(700)), ("lazy", Value::Bool(true)), ("url", url)])
    );
    assert!(groups[3].other_fields.is_empty());
    assert!(groups[4].other_fields.is_empty());
    assert_eq!(groups[5].other_fields, wanted);
}

#[test]
fn fields_are_in_order() {
    let keys: Vec<String> = url_test_fields(1, 1).into_iter().map(|f| f.0).collect();
    let mut sorted = keys.clone();
    sorted.sort();
    assert_eq!(keys, sorted);
}

#[test]
fn airports_are_alive_with_a_node() {
    let subs = vec![
        subscription("a", SubscriptionTier::Premium),
        subscription("b", SubscriptionTier::Standard),
        subscription("c", SubscriptionTier::Backup),
    ];
    let found = alive_airports(&subs, &vec![node("x", "c"), node("y", "a"), node("z", "q")]);
    let names: Vec<_> = found.iter().map(|a| (a.name.as_str(), a.tier)).collect();
    assert_eq!(names, vec![("a", SubscriptionTier::Premium), ("c", SubscriptionTier::Backup)]);
}
