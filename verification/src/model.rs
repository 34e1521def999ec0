//! Subscriptions, nodes and groups, and the values that contracts speak of in their place.
use serde_yaml::Value;
use std::collections::BTreeMap;
use vstd::prelude::*;

verus! {

/// How much a subscription is worth; it decides which groups the subscription joins.
#[derive(Debug, Clone, Copy, PartialEq, Eq, PartialOrd, Ord, Structural)]
pub enum SubscriptionTier {
    Premium,
    Standard,
    Backup,
}

impl Default for SubscriptionTier {
    fn default() -> (tier: Self)
        ensures
            tier == SubscriptionTier::Standard,
    {
        SubscriptionTier::Standard
    }
}

/// How the nodes of a subscription are cut down to its limit.
#[derive(Debug, Clone, Copy, PartialEq, Eq, Structural)]
pub enum SelectMode {
    /// Every region gets its share first; then regions with fewer nodes, and faster nodes.
    RegionDiverse,
    /// The fastest nodes, whatever their region.
    LatencyTop,
}

impl Default for SelectMode {
    fn default() -> (mode: Self)
        ensures
            mode == SelectMode::RegionDiverse,
    {
        SelectMode::RegionDiverse
    }
}

/// The settings that hold for every subscription.
#[derive(Debug)]
pub struct Config {
    /// How long a node may take to answer, in milliseconds.
    pub speed_test: u64,
    /// A node whose name holds one of these is dropped.
    pub exclude_keyword: Option<Vec<String>>,
    /// The mode of a subscription that names none.
    pub select_mode: Option<SelectMode>,
    /// How many nodes a region gets before others get more; 1 where nothing is said.
    pub min_per_region: Option<usize>,
    /// How many nodes a region gets at most, with `RegionDiverse` and a limit; no bound where
    /// nothing is said.
    pub max_per_region: Option<usize>,
    /// The address to listen on.
    pub listen: Option<String>,
    /// Seconds between two refreshes in the background; none without a value, or with 0.
    pub refresh_interval: Option<u64>,
}

/// The whole configuration.
#[derive(Debug)]
pub struct AppConfig {
    pub config: Config,
    pub subscriptions: Vec<Subscription>,
}

/// A source of nodes.
#[derive(Debug, Clone)]
pub struct Subscription {
    pub name: String,
    pub url: String,
    pub tier: SubscriptionTier,
    pub max_nodes: Option<usize>,
    pub select_mode: Option<SelectMode>,
    pub min_per_region: Option<usize>,
    pub max_per_region: Option<usize>,
}

/// A proxy node. `kind` is the protocol, `other_fields` whatever else its source says of it.
#[derive(Debug)]
pub struct ProxyNode {
    pub name: String,
    pub kind: String,
    pub server: String,
    pub port: u16,
    pub source_tier: SubscriptionTier,
    pub group_name: String,
    /// How long the node took to answer, in milliseconds.
    pub latency: Option<u64>,
    pub other_fields: BTreeMap<String, Value>,
}

/// What a `ProxyNode` holds.
#[verifier::ext_equal]
pub struct NodeView {
    pub name: Seq<char>,
    pub kind: Seq<char>,
    pub server: Seq<char>,
    pub port: u16,
    pub source_tier: SubscriptionTier,
    pub group_name: Seq<char>,
    pub latency: Option<u64>,
    pub other_fields: Map<String, Value>,
}

impl View for ProxyNode {
    type V = NodeView;

    open spec fn view(&self) -> NodeView {
        NodeView {
            name: self.name@,
            kind: self.kind@,
            server: self.server@,
            port: self.port,
            source_tier: self.source_tier,
            group_name: self.group_name@,
            latency: self.latency,
            other_fields: self.other_fields@,
        }
    }
}

/// What each of `nodes` holds.
pub open spec fn node_views(nodes: Seq<ProxyNode>) -> Seq<NodeView> {
    nodes.map_values(|node: ProxyNode| node@)
}

/// A group of proxies. Its other fields stand in ascending order of their keys, and no key
/// stands twice.
#[derive(Debug)]
pub struct ProxyGroup {
    pub name: String,
    pub kind: String,
    pub proxies: Vec<String>,
    pub other_fields: Vec<(String, Value)>,
}

/// What a `ProxyGroup` holds.
#[verifier::ext_equal]
pub struct GroupView {
    pub name: Seq<char>,
    pub kind: Seq<char>,
    pub proxies: Seq<Seq<char>>,
    pub other_fields: Seq<(Seq<char>, Value)>,
}

/// The characters of each of `texts`.
pub open spec fn text_views(texts: Seq<String>) -> Seq<Seq<char>> {
    texts.map_values(|text: String| text@)
}

/// The keys, as characters, with their values.
pub open spec fn field_views(fields: Seq<(String, Value)>) -> Seq<(Seq<char>, Value)> {
    fields.map_values(|field: (String, Value)| (field.0@, field.1))
}

impl View for ProxyGroup {
    type V = GroupView;

    open spec fn view(&self) -> GroupView {
        GroupView {
            name: self.name@,
            kind: self.kind@,
            proxies: text_views(self.proxies@),
            other_fields: field_views(self.other_fields@),
        }
    }
}

/// What each of `groups` holds.
pub open spec fn group_views(groups: Seq<ProxyGroup>) -> Seq<GroupView> {
    groups.map_values(|group: ProxyGroup| group@)
}

/// A Clash configuration: what is read as a template and what is handed out.
#[derive(Debug)]
pub struct MySubscritption {
    pub proxies: Vec<ProxyNode>,
    pub proxy_groups: Vec<ProxyGroup>,
    pub other_fields: BTreeMap<String, Value>,
}

/// What a subscription's response header `subscription-userinfo` says: bytes, and a Unix time in
/// seconds.
#[derive(Debug, Clone, Copy, PartialEq, Eq, Structural)]
pub struct SubscriptionTraffic {
    pub upload: Option<u64>,
    pub download: Option<u64>,
    pub total: Option<u64>,
    pub expire: Option<i64>,
}

impl Default for SubscriptionTraffic {
    fn default() -> (traffic: Self)
        ensures
            traffic == (SubscriptionTraffic {
                upload: None,
                download: None,
                total: None,
                expire: None,
            }),
    {
        SubscriptionTraffic { upload: None, download: None, total: None, expire: None }
    }
}

/// What contracts speak of in place of a node or a group leaves nothing of it out.
pub proof fn law_views_are_complete(node: ProxyNode, group: ProxyGroup, i: int)
    ensures
        node@.name == node.name@,
        node@.kind == node.kind@,
        node@.server == node.server@,
        node@.port == node.port,
        node@.source_tier == node.source_tier,
        node@.group_name == node.group_name@,
        node@.latency == node.latency,
        node@.other_fields == node.other_fields@,
        group@.name == group.name@,
        group@.kind == group.kind@,
        group@.proxies.len() == group.proxies@.len(),
        0 <= i < group.proxies@.len() ==> group@.proxies[i] == group.proxies@[i]@,
        group@.other_fields.len() == group.other_fields@.len(),
        0 <= i < group.other_fields@.len() ==> group@.other_fields[i] == (
            group.other_fields@[i].0@,
            group.other_fields@[i].1,
        ),
{
}

/// What contracts speak of in place of lists keeps every item, in its place.
pub proof fn law_list_views_are_complete(
    nodes: Seq<ProxyNode>,
    groups: Seq<ProxyGroup>,
    texts: Seq<String>,
    i: int,
)
    ensures
        node_views(nodes).len() == nodes.len(),
        0 <= i < nodes.len() ==> node_views(nodes)[i] == nodes[i]@,
        group_views(groups).len() == groups.len(),
        0 <= i < groups.len() ==> group_views(groups)[i] == groups[i]@,
        text_views(texts).len() == texts.len(),
        0 <= i < texts.len() ==> text_views(texts)[i] == texts[i]@,
{
}

} // verus!
