use serde_yaml::Value;
use std::collections::BTreeMap;
use subwash::model::AppConfig;
use subwash::model::Config;
use subwash::model::MySubscritption;
use subwash::model::ProxyNode;
use subwash::model::SelectMode;
use subwash::model::Subscription;
use subwash::model::SubscriptionTier;
use subwash::model::SubscriptionTraffic;
use subwash::pipeline::collect_results;
use subwash::pipeline::drop_excluded;
use subwash::pipeline::fetch_result;
use subwash::pipeline::fill_template;
use subwash::pipeline::get_subscription;
use subwash::pipeline::info_display_node;
use subwash::pipeline::record_answers;
use subwash::pipeline::settings_for;
use subwash::pipeline::FetchOutcome;
use subwash::pipeline::SubscriptionError;

fn node(name: &str, group: &str, latency: Option<u64>) -> ProxyNode {
    ProxyNode {
        name: name.to_string(),
        kind: "ss".to_string(),
        server: format!("{}.example", name),
        port: 443,
        source_tier: SubscriptionTier::Standard,
        group_name: group.to_string(),
        latency,
        other_fields: BTreeMap::new(),
    }
}

fn subscription(name: &str, tier: SubscriptionTier, max_nodes: Option<usize>) -> Subscription {
    Subscription {
        name: name.to_string(),
        url: format!("http://{}", name),
        tier,
        max_nodes,
        select_mode: None,
        min_per_region: None,
        max_per_region: None,
    }
}

fn plain_config() -> Config {
    Config {
        speed_test: 1500,
        exclude_keyword: None,
        select_mode: None,
        min_per_region: None,
        max_per_region: None,
        listen: None,
        refresh_interval: None,
    }
}

fn config(subscriptions: Vec<Subscription>) -> AppConfig {
    AppConfig { config: plain_config(), subscriptions }
}

fn names(nodes: &Vec<ProxyNode>) -> Vec<String> {
    nodes.iter().map(|n| n.name.clone()).collect()
}

fn some_traffic(upload: u64) -> SubscriptionTraffic {
    SubscriptionTraffic { upload: Some(upload), download: None, total: None, expire: None }
}

#[test]
fn fetched_nodes_belong_to_their_subscription() {
    let sub = subscription("air", SubscriptionTier::Premium, None);
    let result = fetch_result(
        &sub,
        FetchOutcome::Nodes {
            userinfo: Some("upload=5".to_string()),
            nodes: vec![node("x", "", None), node("y", "other", Some(3))],
        },
    );
    assert_eq!(result.name, "air");
    assert_eq!(names(&result.nodes), vec!["x", "y"]);
    for node in &result.nodes {
        assert_eq!(node.group_name, "air");
        assert_eq!(node.source_tier, SubscriptionTier::Premium);
        assert_eq!(node.port, 443);
    }
    assert_eq!(result.traffic, Some(some_traffic(5)));
}

#[test]
fn failures_leave_no_nodes() {
    let sub = subscription("air", SubscriptionTier::Backup, None);
    let header = || Some("upload=5".to_string());
    let cases = vec![
        (FetchOutcome::NoResponse, None),
        (FetchOutcome::BadStatus, None),
        (FetchOutcome::NoText { userinfo: header() }, Some(some_traffic(5))),
        (FetchOutcome::NotNodes { userinfo: header() }, Some(some_traffic(5))),
        (FetchOutcome::NotNodes { userinfo: None }, None),
        (FetchOutcome::NotNodes { userinfo: Some("nothing".to_string()) }, None),
    ];
    for (outcome, traffic) in cases {
        let result = fetch_result(&sub, outcome);
        assert_eq!(result.name, "air");
        assert!(result.nodes.is_empty());
        assert_eq!(result.traffic, traffic);
    }
}

#[test]
fn results_are_put_together_in_order() {
    let a = subscription("a", SubscriptionTier::Standard, None);
    let b = subscription("b", SubscriptionTier::Standard, None);
    let results = vec![
        fetch_result(&a, FetchOutcome::Nodes { userinfo: None, nodes: vec![node("1", "", None)] }),
        fetch_result(&b, FetchOutcome::NoText { userinfo: Some("upload=7".to_string()) }),
        fetch_result(
            &b,
            FetchOutcome::Nodes {
                userinfo: Some("upload=8".to_string()),
                nodes: vec![node("2", "", None), node("3", "", None)],
            },
        ),
    ];
    let (nodes, traffic) = collect_results(results);
    assert_eq!(names(&nodes), vec!["1", "2", "3"]);
    assert_eq!(traffic, vec![("b".to_string(), some_traffic(7)), ("b".to_string(), some_traffic(8))]);
}

#[test]
fn keywords_drop_nodes() {
    let nodes = || vec![node("香港 官网", "", None), node("香港", "", None), node("流量 1", "", None)];
    let words = |list: Vec<&str>| Some(list.into_iter().map(|w| w.to_string()).collect::<Vec<_>>());
    assert_eq!(names(&drop_excluded(nodes(), &words(vec!["官网", "流量"]))), vec!["香港"]);
    assert_eq!(drop_excluded(nodes(), &words(vec![])).len(), 3);
    assert_eq!(drop_excluded(nodes(), &None).len(), 3);
    assert_eq!(drop_excluded(nodes(), &words(vec![""])).len(), 0);
    assert_eq!(names(&drop_excluded(nodes(), &words(vec!["香港"]))), vec!["流量 1"]);
}

#[test]
fn answers_are_recorded() {
    let nodes = vec![
        node("a", "g", None),
        node("b", "g", Some(9)),
        node("c", "g", None),
        node("d", "g", Some(9)),
    ];
    let left = record_answers(nodes, &vec![Some(0), None, Some(70)]);
    let found: Vec<_> = left.iter().map(|n| (n.name.as_str(), n.latency)).collect();
    assert_eq!(found, vec![("a", Some(0)), ("c", Some(70))]);
}

#[test]
fn own_settings_come_before_common_ones() {
    let mut common = plain_config();
    let mut own = subscription("a", SubscriptionTier::Standard, Some(8));
    let usual = settings_for(&common, &own);
    assert_eq!(usual.limit, Some(8));
    assert_eq!(usual.mode, SelectMode::RegionDiverse);
    assert_eq!(usual.min_per_region, 1);
    assert_eq!(usual.max_per_region, None);

    common.select_mode = Some(SelectMode::LatencyTop);
    common.min_per_region = Some(3);
    common.max_per_region = Some(4);
    let set = settings_for(&common, &own);
    assert_eq!(set.mode, SelectMode::LatencyTop);
    assert_eq!(set.min_per_region, 3);
    assert_eq!(set.max_per_region, Some(4));

    own.select_mode = Some(SelectMode::RegionDiverse);
    own.min_per_region = Some(5);
    own.max_per_region = Some(6);
    let set = settings_for(&common, &own);
    assert_eq!(set.mode, SelectMode::RegionDiverse);
    assert_eq!(set.min_per_region, 5);
    assert_eq!(set.max_per_region, Some(6));
}

#[test]
fn defaults_are_the_usual_ones() {
    assert_eq!(SubscriptionTier::default(), SubscriptionTier::Standard);
    assert_eq!(SelectMode::default(), SelectMode::RegionDiverse);
    let none = SubscriptionTraffic { upload: None, download: None, total: None, expire: None };
    assert_eq!(SubscriptionTraffic::default(), none);
}

#[test]
fn the_whole_way() {
    let config = config(vec![
        subscription("prem", SubscriptionTier::Premium, Some(2)),
        subscription("dead", SubscriptionTier::Standard, None),
        subscription("std", SubscriptionTier::Standard, None),
    ]);
    let nodes = vec![
        node("JP 1", "std", Some(30)),
        node("HK 3", "prem", Some(3)),
        node("HK 1", "prem", Some(1)),
        node("US 1", "prem", Some(200)),
        node("HK 9", "dead", None),
        node("HK 2", "std", Some(20)),
        node("stray", "nobody", Some(1)),
        node("HK 5", "std", Some(25)),
    ];
    let traffic = vec![
        ("std".to_string(), some_traffic(1 << 30)),
        ("dead".to_string(), some_traffic(0)),
        ("std".to_string(), some_traffic(2 << 30)),
    ];
    let outcome = get_subscription(&config, nodes, &traffic).unwrap();
    assert_eq!(
        names(&outcome.proxies),
        vec![
            "prem-香港",
            "prem-美国",
            "std-香港",
            "std-香港-2",
            "std-日本",
            "dead | 0.00GB used",
            "std | 2.00GB used",
        ]
    );
    assert_eq!(outcome.proxies[1].server, "US 1.example");
    assert_eq!(outcome.proxies[1].latency, Some(200));
    let groups: Vec<_> =
        outcome.proxy_groups.iter().map(|g| (g.name.as_str(), g.proxies.clone())).collect();
    let list = |l: Vec<&str>| l.into_iter().map(|p| p.to_string()).collect::<Vec<_>>();
    assert_eq!(
        groups,
        vec![
            ("节点选择", list(vec!["故障转移", "自动选择", "prem", "std", "DIRECT"])),
            ("自动选择", list(vec!["std"])),
            ("故障转移", list(vec!["自动选择", "prem"])),
            ("LLM", list(vec!["prem", "故障转移"])),
            ("Steam", list(vec!["DIRECT"])),
            ("订阅信息", list(vec!["dead | 0.00GB used", "std | 2.00GB used"])),
            ("prem", list(vec!["prem-香港", "prem-美国"])),
            ("std", list(vec!["std-香港", "std-香港-2", "std-日本"])),
        ]
    );
}

#[test]
fn the_first_of_equal_names_decides() {
    let config = config(vec![
        subscription("a", SubscriptionTier::Standard, Some(1)),
        subscription("a", SubscriptionTier::Premium, None),
    ]);
    let nodes = vec![node("HK", "a", Some(2)), node("JP", "a", Some(1))];
    let outcome = get_subscription(&config, nodes, &Vec::new()).unwrap();
    assert_eq!(names(&outcome.proxies), vec!["a-日本"]);
}

#[test]
fn the_cap_of_a_region_holds_under_the_limit() {
    let mut config = config(vec![subscription("a", SubscriptionTier::Standard, Some(8))]);
    config.config.max_per_region = Some(2);
    let nodes = || {
        vec![
            node("HK 1", "a", Some(1)),
            node("HK 2", "a", Some(2)),
            node("HK 3", "a", Some(3)),
            node("JP 1", "a", Some(4)),
        ]
    };
    let outcome = get_subscription(&config, nodes(), &Vec::new()).unwrap();
    assert_eq!(names(&outcome.proxies), vec!["a-香港", "a-日本", "a-香港-2"]);

    config.subscriptions[0].select_mode = Some(SelectMode::LatencyTop);
    let outcome = get_subscription(&config, nodes(), &Vec::new()).unwrap();
    assert_eq!(outcome.proxies.len(), 4);
}

#[test]
fn nothing_usable_is_an_error() {
    let message = "所有订阅均无可用节点，拒绝生成空配置";
    let subs = || vec![subscription("a", SubscriptionTier::Standard, None)];
    let unanswered = vec![node("HK", "a", None)];
    let error = get_subscription(&config(subs()), unanswered, &Vec::new()).unwrap_err();
    assert_eq!(error, SubscriptionError::NoUsableNodes);
    assert_eq!(error.message(), message);

    let stray = vec![node("HK", "b", Some(1))];
    assert!(get_subscription(&config(subs()), stray, &Vec::new()).is_err());
    assert!(get_subscription(&config(Vec::new()), Vec::new(), &Vec::new()).is_err());

    let none_allowed = vec![subscription("a", SubscriptionTier::Standard, Some(0))];
    let nodes = vec![node("HK", "a", Some(1))];
    let traffic = vec![("a".to_string(), some_traffic(1))];
    assert!(get_subscription(&config(none_allowed), nodes, &traffic).is_err());
}

#[test]
fn every_member_is_known() {
    let config = config(vec![
        subscription("a", SubscriptionTier::Standard, Some(3)),
        subscription("b", SubscriptionTier::Backup, None),
    ]);
    let mut nodes = Vec::new();
    for i in 0..6 {
        nodes.push(node(&format!("HK {}", i), "a", Some(i)));
        nodes.push(node(&format!("US {}", i), "b", Some(i)));
    }
    let traffic = vec![("b".to_string(), some_traffic(1))];
    let outcome = get_subscription(&config, nodes, &traffic).unwrap();
    let proxies = names(&outcome.proxies);
    let groups: Vec<String> = outcome.proxy_groups.iter().map(|g| g.name.clone()).collect();
    for group in &outcome.proxy_groups {
        assert!(!group.proxies.is_empty());
        for member in &group.proxies {
            assert!(member == "DIRECT" || groups.contains(member) || proxies.contains(member));
        }
    }
    assert_eq!(proxies.iter().filter(|p| p.starts_with("a-")).count(), 3);
    assert_eq!(proxies.iter().filter(|p| p.starts_with("b-")).count(), 6);
}

#[test]
fn a_label_is_shown_by_a_node() {
    let shown = info_display_node("a | 1".to_string());
    assert_eq!(shown.name, "a | 1");
    assert_eq!(shown.kind, "socks5");
    assert_eq!(shown.server, "127.0.0.1");
    assert_eq!(shown.port, 1);
    assert_eq!(shown.source_tier, SubscriptionTier::Backup);
    assert_eq!(shown.group_name, "订阅信息");
    assert_eq!(shown.latency, None);
    assert!(shown.other_fields.is_empty());
}

#[test]
fn the_template_keeps_the_rest() {
    let mut other_fields = BTreeMap::new();
    other_fields.insert("dns".to_string(), Value::String("keep".to_string()));
    let template = MySubscritption {
        proxies: vec![node("old", "x", None)],
        proxy_groups: Vec::new(),
        other_fields: other_fields.clone(),
    };
    let config = config(vec![subscription("a", SubscriptionTier::Standard, None)]);
    let nodes = vec![node("HK", "a", Some(2))];
    let outcome = get_subscription(&config, nodes, &Vec::new()).unwrap();
    let filled = fill_template(template, outcome);
    assert_eq!(names(&filled.proxies), vec!["a-香港"]);
    assert_eq!(filled.proxy_groups.len(), 6);
    assert_eq!(filled.other_fields, other_fields);
}
