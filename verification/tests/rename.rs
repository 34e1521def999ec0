use std::collections::BTreeMap;
use subwash::model::ProxyNode;
use subwash::model::SubscriptionTier;
use subwash::rename::uniquify_proxy_names;

fn node(name: &str, server: &str, group: &str, latency: u64) -> ProxyNode {
    ProxyNode {
        name: name.to_string(),
        kind: "ss".to_string(),
        server: server.to_string(),
        port: 1,
        source_tier: SubscriptionTier::Standard,
        group_name: group.to_string(),
        latency: Some(latency),
        other_fields: BTreeMap::new(),
    }
}

#[test]
fn uniquify_proxy_names_uses_airport_and_region() {
    let mut nodes = vec![
        node("香港 IEPL 01", "1.1.1.1", "大米", 10),
        node("US-LAX-2", "2.2.2.2", "飞鸟云", 20),
        node("香港 BGP 02", "3.3.3.3", "大米", 30),
        node("神秘线路", "4.4.4.4", "大米", 40),
    ];
    uniquify_proxy_names(&mut nodes);
    assert_eq!(nodes[0].name, "大米-香港");
    assert_eq!(nodes[1].name, "飞鸟云-美国");
    assert_eq!(nodes[2].name, "大米-香港-2");
    assert_eq!(nodes[3].name, "大米-其他");
}

#[test]
fn only_the_names_change() {
    let mut nodes = vec![node("香港", "1.2.3.4", "a", 7)];
    uniquify_proxy_names(&mut nodes);
    assert_eq!(nodes[0].server, "1.2.3.4");
    assert_eq!(nodes[0].group_name, "a");
    assert_eq!(nodes[0].latency, Some(7));
    assert_eq!(nodes[0].kind, "ss");
}

#[test]
fn many_nodes_get_different_names() {
    let mut nodes = Vec::new();
    for i in 0..25 {
        nodes.push(node(&format!("香港{}", i), "s", "a", 1));
        nodes.push(node("x", "s", "a-香港", 1));
        nodes.push(node("x", "s", "", 1));
    }
    uniquify_proxy_names(&mut nodes);
    let mut names: Vec<String> = nodes.iter().map(|n| n.name.clone()).collect();
    assert_eq!(names[72], "a-香港-25");
    assert_eq!(names[2], "-其他");
    names.sort();
    names.dedup();
    assert_eq!(names.len(), 75);
}
