use std::collections::BTreeMap;
use subwash::latency::sort_by_latency;
use subwash::model::ProxyNode;
use subwash::model::SelectMode;
use subwash::model::SubscriptionTier;
use subwash::region::detect_region;
use subwash::select::select_region_diverse;
use subwash::select::select_subscription_nodes;

fn node(name: &str, latency: u64) -> ProxyNode {
    ProxyNode {
        name: name.to_string(),
        kind: "ss".to_string(),
        server: "127.0.0.1".to_string(),
        port: 1,
        source_tier: SubscriptionTier::Standard,
        group_name: "test".to_string(),
        latency: Some(latency),
        other_fields: BTreeMap::new(),
    }
}

fn names(nodes: &Vec<ProxyNode>) -> Vec<String> {
    nodes.iter().map(|n| n.name.clone()).collect()
}

#[test]
fn region_diverse_keeps_us_when_asia_faster() {
    let nodes = vec![
        node("香港01", 20),
        node("香港02", 25),
        node("香港03", 30),
        node("日本01", 40),
        node("日本02", 45),
        node("韩国01", 50),
        node("韩国02", 55),
        node("美国01", 180),
        node("美国02", 200),
        node("新加坡01", 60),
    ];

    let selected = select_subscription_nodes(nodes, Some(5), SelectMode::RegionDiverse, 1, Some(2));
    let regions: Vec<_> = selected.iter().map(|n| detect_region(&n.name)).collect();

    assert_eq!(selected.len(), 5);
    assert!(regions.contains(&"美国"), "应保留美区，实际: {:?}", regions);
    assert!(regions.contains(&"香港"));
    let hk = regions.iter().filter(|r| **r == "香港").count();
    assert!(hk <= 2);
}

#[test]
fn latency_top_still_prefers_lowest_rtt() {
    let nodes = vec![
        node("香港01", 20),
        node("香港02", 25),
        node("美国01", 180),
        node("日本01", 40),
    ];
    let selected = select_subscription_nodes(nodes, Some(2), SelectMode::LatencyTop, 1, None);
    assert_eq!(selected.len(), 2);
    assert_eq!(selected[0].name, "香港01");
    assert_eq!(selected[1].name, "香港02");
}

#[test]
fn max_per_region_caps_bucket() {
    let nodes = vec![
        node("香港01", 10),
        node("香港02", 11),
        node("香港03", 12),
        node("美国01", 100),
        node("日本01", 40),
    ];
    let selected = select_subscription_nodes(nodes, Some(4), SelectMode::RegionDiverse, 1, Some(1));
    let hk = selected.iter().filter(|n| detect_region(&n.name) == "香港").count();
    assert_eq!(hk, 1);
    assert_eq!(selected.len(), 3);
}

#[test]
fn no_limit_keeps_all_by_latency() {
    let nodes = vec![node("c", 3), node("a", 1), node("b", 2)];
    let selected = select_subscription_nodes(nodes, None, SelectMode::LatencyTop, 1, Some(0));
    assert_eq!(names(&selected), vec!["a", "b", "c"]);
}

#[test]
fn a_limit_that_is_not_exceeded_keeps_all_within_the_cap() {
    let build = || vec![node("香港1", 3), node("美国1", 2), node("香港2", 1)];
    for cap in [None, Some(2), Some(9)] {
        let selected = select_subscription_nodes(build(), Some(3), SelectMode::RegionDiverse, 1, cap);
        assert_eq!(names(&selected), vec!["香港2", "美国1", "香港1"]);
    }
    let selected = select_subscription_nodes(build(), Some(3), SelectMode::LatencyTop, 1, Some(1));
    assert_eq!(names(&selected), vec!["香港2", "美国1", "香港1"]);
    let selected = select_subscription_nodes(build(), None, SelectMode::RegionDiverse, 1, Some(1));
    assert_eq!(names(&selected), vec!["香港2", "美国1", "香港1"]);
}

#[test]
fn the_cap_holds_whatever_the_limit() {
    let two = vec![node("香港01", 10), node("香港02", 11)];
    let selected = select_subscription_nodes(two, Some(5), SelectMode::RegionDiverse, 1, Some(1));
    assert_eq!(names(&selected), vec!["香港01"]);

    for limit in [3, 4, 5, 6, usize::MAX] {
        let nodes = vec![
            node("香港01", 10),
            node("香港02", 11),
            node("香港03", 12),
            node("美国01", 100),
            node("日本01", 40),
        ];
        let selected =
            select_subscription_nodes(nodes, Some(limit), SelectMode::RegionDiverse, 1, Some(1));
        assert_eq!(names(&selected), vec!["香港01", "日本01", "美国01"]);
    }

    let nodes = vec![node("香港01", 10), node("线路", 11)];
    let selected = select_subscription_nodes(nodes, Some(5), SelectMode::RegionDiverse, 1, Some(0));
    assert!(selected.is_empty());
}

#[test]
fn mixing_regions_changes_nothing() {
    let hk = [("香港1", 5), ("香港2", 5), ("香港3", 9)];
    let jp = [("日本1", 5), ("日本2", 9)];
    let us = [("美国1", 5)];
    let orders = vec![vec![0, 0, 0, 1, 1, 2], vec![2, 1, 1, 0, 0, 0], vec![1, 0, 2, 0, 1, 0]];
    for limit in 0..7 {
        let mut results = Vec::new();
        for order in &orders {
            let mut next = [0usize; 3];
            let mut nodes = Vec::new();
            for region in order {
                let (name, latency) = match region {
                    0 => hk[next[0]],
                    1 => jp[next[1]],
                    _ => us[next[2]],
                };
                next[*region] += 1;
                nodes.push(node(name, latency));
            }
            results.push(names(&select_region_diverse(nodes, limit, 1, Some(2))));
        }
        assert_eq!(results[0], results[1]);
        assert_eq!(results[0], results[2]);
        assert_eq!(results[0].len(), limit.min(5));
    }
}

#[test]
fn equal_latencies_keep_their_order() {
    let sorted = sort_by_latency(vec![node("x", 5), node("y", 4), node("z", 5), node("w", 4)]);
    assert_eq!(names(&sorted), vec!["y", "w", "x", "z"]);
}

#[test]
fn unknown_latency_comes_last() {
    let mut late = node("late", 0);
    late.latency = None;
    let sorted = sort_by_latency(vec![late, node("x", 1_000_000), node("y", 7)]);
    assert_eq!(names(&sorted), vec!["y", "x", "late"]);
}

#[test]
fn latency_top_cuts_at_the_limit() {
    let nodes = vec![node("a", 9), node("b", 8), node("c", 7), node("d", 6)];
    let selected = select_subscription_nodes(nodes, Some(3), SelectMode::LatencyTop, 5, Some(1));
    assert_eq!(names(&selected), vec!["d", "c", "b"]);
}

#[test]
fn a_limit_of_nothing_keeps_nothing() {
    for mode in [SelectMode::LatencyTop, SelectMode::RegionDiverse] {
        let selected = select_subscription_nodes(vec![node("香港", 1)], Some(0), mode, 1, None);
        assert!(selected.is_empty());
    }
}

#[test]
fn the_share_of_each_region_comes_first() {
    let nodes = vec![
        node("香港1", 1),
        node("香港2", 2),
        node("香港3", 3),
        node("日本1", 10),
        node("日本2", 11),
        node("美国1", 100),
    ];
    let selected = select_subscription_nodes(nodes, Some(5), SelectMode::RegionDiverse, 2, None);
    assert_eq!(names(&selected), vec!["香港1", "日本1", "美国1", "香港2", "日本2"]);
}

#[test]
fn then_fewer_and_faster_come_first() {
    let nodes = vec![
        node("香港1", 1),
        node("香港2", 50),
        node("香港3", 51),
        node("日本1", 10),
        node("日本2", 20),
        node("日本3", 21),
        node("美国1", 100),
    ];
    let selected = select_region_diverse(nodes, 6, 1, None);
    assert_eq!(names(&selected), vec!["香港1", "日本1", "美国1", "日本2", "香港2", "日本3"]);
}

#[test]
fn unnamed_regions_are_served_last() {
    let nodes = vec![
        node("mystery1", 1),
        node("mystery2", 2),
        node("香港1", 30),
        node("日本1", 40),
        node("香港2", 50),
    ];
    let selected = select_region_diverse(nodes, 3, 1, None);
    assert_eq!(names(&selected), vec!["香港1", "日本1", "mystery1"]);

    let nodes = vec![node("mystery1", 1), node("香港1", 30), node("日本1", 40)];
    let selected = select_region_diverse(nodes, 2, 1, None);
    assert_eq!(names(&selected), vec!["香港1", "日本1"]);
}

#[test]
fn equally_fast_regions_go_by_name() {
    let nodes = vec![node("香港1", 5), node("日本1", 5), node("美国1", 5), node("韩国1", 5)];
    let mut expected = vec!["香港1", "日本1", "美国1", "韩国1"];
    expected.sort();
    let selected = select_region_diverse(nodes, 3, 1, None);
    assert_eq!(names(&selected), expected[..3].to_vec());
}

#[test]
fn a_share_of_nothing_counts_as_one() {
    let build = || vec![node("香港1", 1), node("香港2", 2), node("美国1", 9)];
    let zero = select_subscription_nodes(build(), Some(2), SelectMode::RegionDiverse, 0, None);
    let one = select_subscription_nodes(build(), Some(2), SelectMode::RegionDiverse, 1, None);
    assert_eq!(names(&zero), names(&one));
    assert_eq!(names(&zero), vec!["香港1", "美国1"]);
}

#[test]
fn a_region_cap_of_nothing_keeps_nothing() {
    let nodes = vec![node("香港1", 1), node("美国1", 9)];
    assert!(select_region_diverse(nodes, 1, 1, Some(0)).is_empty());
}

#[test]
fn the_cap_bounds_the_share() {
    let nodes = vec![
        node("香港1", 1),
        node("香港2", 2),
        node("香港3", 3),
        node("日本1", 10),
        node("日本2", 11),
    ];
    let selected = select_region_diverse(nodes, 5, 3, Some(2));
    assert_eq!(names(&selected), vec!["香港1", "日本1", "香港2", "日本2"]);
}

#[test]
fn a_huge_share_ends_with_the_nodes() {
    let nodes = vec![node("香港1", 1), node("日本1", 2)];
    let selected = select_region_diverse(nodes, usize::MAX, usize::MAX, None);
    assert_eq!(names(&selected), vec!["香港1", "日本1"]);
}

#[test]
fn the_rest_of_a_node_stays() {
    let mut first = node("香港1", 4);
    first.server = "9.9.9.9".to_string();
    first.port = 4242;
    first.other_fields.insert("udp".to_string(), serde_yaml::Value::Bool(true));
    let selected =
        select_subscription_nodes(vec![node("x", 9), first], Some(1), SelectMode::LatencyTop, 1, None);
    assert_eq!(selected[0].server, "9.9.9.9");
    assert_eq!(selected[0].port, 4242);
    assert_eq!(selected[0].other_fields.get("udp"), Some(&serde_yaml::Value::Bool(true)));
}

// A plain restatement of the selection, kept close to how it is described in words.
fn picked_plainly(
    mut nodes: Vec<(String, u64)>,
    limit: usize,
    min: usize,
    max: Option<usize>,
) -> Vec<String> {
    nodes.sort_by_key(|n| n.1);
    let mut order: Vec<String> = Vec::new();
    for (name, _) in &nodes {
        let region = detect_region(name).to_string();
        if !order.contains(&region) {
            order.push(region);
        }
    }
    let first = |region: &String| nodes.iter().find(|n| detect_region(&n.0) == region).unwrap().1;
    order.sort_by_key(|r| (r == "其他", first(r), r.clone()));
    let mut left: Vec<Vec<(String, u64)>> = order
        .iter()
        .map(|r| nodes.iter().filter(|n| detect_region(&n.0) == r).cloned().collect())
        .collect();
    let mut taken = vec![0usize; order.len()];
    let mut out = Vec::new();
    for _ in 0..min.min(nodes.len()) {
        for r in 0..order.len() {
            if out.len() < limit && !left[r].is_empty() && max.map_or(true, |m| taken[r] < m) {
                out.push(left[r].remove(0).0);
                taken[r] += 1;
            }
        }
    }
    while out.len() < limit {
        let next = (0..order.len())
            .filter(|r| !left[*r].is_empty() && max.map_or(true, |m| taken[*r] < m))
            .min_by_key(|r| (taken[*r], left[*r][0].1, order[*r].clone()));
        match next {
            Some(r) => {
                out.push(left[r].remove(0).0);
                taken[r] += 1;
            }
            None => break,
        }
    }
    out
}

#[test]
fn many_selections_agree_with_the_plain_one() {
    let places = vec!["香港", "日本", "美国", "韩国", "德国", "线路"];
    let mut seed: u64 = 12345;
    let mut next = |bound: u64| {
        seed = seed.wrapping_mul(6364136223846793005).wrapping_add(1442695040888963407);
        (seed >> 33) % bound
    };
    for _ in 0..400 {
        let count = next(16);
        let plain: Vec<(String, u64)> = (0..count)
            .map(|i| (format!("{}#{}", places[next(6) as usize], i), next(12)))
            .collect();
        let limit = next(12) as usize;
        let min = 1 + next(3) as usize;
        let max = if next(3) == 0 { None } else { Some(next(4) as usize) };
        let nodes: Vec<ProxyNode> = plain.iter().map(|n| node(&n.0, n.1)).collect();
        let selected = select_region_diverse(sort_by_latency(nodes), limit, min, max);
        assert_eq!(names(&selected), picked_plainly(plain, limit, min, max));
    }
}
