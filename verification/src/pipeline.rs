//! From what the subscriptions sent to the configuration that is handed out.
use crate::groups::airport_views;
use crate::groups::alive;
use crate::groups::alive_airports;
use crate::groups::all_groups;
use crate::groups::all_have_nodes;
use crate::groups::build_groups;
use crate::groups::has_node;
use crate::groups::is_known;
use crate::groups::law_airports_are_the_live_subscriptions;
use crate::groups::law_alive_have_nodes;
use crate::groups::law_members_are_known;
use crate::groups::law_no_group_is_empty;
use crate::groups::law_node_is_in_its_group;
use crate::groups::AirportView;
use crate::groups::INFO_GROUP;
use crate::latency::by_latency;
use crate::model::group_views;
use crate::model::node_views;
use crate::model::text_views;
use crate::model::AppConfig;
use crate::model::Config;
use crate::model::GroupView;
use crate::model::MySubscritption;
use crate::model::NodeView;
use crate::model::ProxyGroup;
use crate::model::ProxyNode;
use crate::model::SelectMode;
use crate::model::Subscription;
use crate::model::SubscriptionTier;
use crate::model::SubscriptionTraffic;
use crate::pick::region_total;
use crate::rename::law_names_are_unique;
use crate::rename::renamed;
use crate::rename::uniquify_proxy_names;
use crate::select::all_stay;
use crate::select::law_selection_caps_regions;
use crate::select::law_selection_of_own_nodes;
use crate::select::select_subscription_nodes;
use crate::select::selection;
use crate::text::contains_text;
use crate::text::has_text;
use crate::text::law_found_text_is_there;
use crate::text::law_text_is_found;
use crate::text::same_text;
use crate::traffic::format_traffic_label;
use crate::traffic::parse_subscription_userinfo;
use crate::traffic::traffic_label;
use crate::traffic::userinfo;
use std::collections::BTreeMap;
use vstd::prelude::*;

verus! {

// ---------------------------------------------------------------------------
// Fetching
// ---------------------------------------------------------------------------

/// How far the fetching of a subscription got. `userinfo` is the response header
/// `subscription-userinfo`, where it is text.
#[derive(Debug)]
pub enum FetchOutcome {
    /// No response came.
    NoResponse,
    /// The response was no success.
    BadStatus,
    /// The text of the response could not be read.
    NoText { userinfo: Option<String> },
    /// The text is no list of nodes.
    NotNodes { userinfo: Option<String> },
    /// The nodes that the text lists.
    Nodes { userinfo: Option<String>, nodes: Vec<ProxyNode> },
}

/// What a subscription has to offer.
#[derive(Debug)]
pub struct FetchResult {
    pub name: String,
    pub nodes: Vec<ProxyNode>,
    pub traffic: Option<SubscriptionTraffic>,
}

/// The header of a response that is a success.
pub open spec fn outcome_header(outcome: FetchOutcome) -> Option<Seq<char>> {
    let header = match outcome {
        FetchOutcome::NoResponse => None,
        FetchOutcome::BadStatus => None,
        FetchOutcome::NoText { userinfo } => userinfo,
        FetchOutcome::NotNodes { userinfo } => userinfo,
        FetchOutcome::Nodes { userinfo, nodes: _ } => userinfo,
    };
    match header {
        Some(text) => Some(text@),
        None => None,
    }
}

/// The nodes that were listed.
pub open spec fn outcome_nodes(outcome: FetchOutcome) -> Seq<NodeView> {
    match outcome {
        FetchOutcome::Nodes { userinfo: _, nodes } => node_views(nodes@),
        _ => Seq::empty(),
    }
}

/// What a header says, where there is one.
pub open spec fn header_traffic(header: Option<Seq<char>>) -> Option<SubscriptionTraffic> {
    match header {
        Some(raw) => userinfo(raw),
        None => None,
    }
}

/// The nodes as those of the subscription `sub`.
pub open spec fn labelled(nodes: Seq<NodeView>, sub: Subscription) -> Seq<NodeView> {
    nodes.map_values(
        |node: NodeView| NodeView { source_tier: sub.tier, group_name: sub.name@, ..node },
    )
}

/// Marks the nodes as those of the subscription `sub`.
fn label_nodes(nodes: Vec<ProxyNode>, sub: &Subscription) -> (marked: Vec<ProxyNode>)
    ensures
        node_views(marked@) == labelled(node_views(nodes@), *sub),
{
    let ghost views = node_views(nodes@);
    let mut marked: Vec<ProxyNode> = Vec::new();
    for node in it: nodes
        invariant
            views == node_views(it.seq()),
            marked@.len() == it.index(),
            forall|j: int| 0 <= j < marked@.len() ==> (#[trigger] marked@[j])@ == labelled(views, *sub)[j],
    {
        let mut own = node;
        own.source_tier = sub.tier;
        own.group_name = sub.name.clone();
        marked.push(own);
    }
    assert(node_views(marked@) =~= labelled(views, *sub));
    marked
}

/// What the header says, where there is one.
fn read_header(header: Option<String>) -> (traffic: Option<SubscriptionTraffic>)
    ensures
        traffic == header_traffic(
            match header {
                Some(text) => Some(text@),
                None => None,
            },
        ),
{
    match header {
        Some(raw) => parse_subscription_userinfo(raw.as_str()),
        None => None,
    }
}

/// What the subscription `sub` has to offer after its fetching went as `outcome` says. A failure
/// leaves it without nodes; its traffic is known as soon as the response is a success.
pub fn fetch_result(sub: &Subscription, outcome: FetchOutcome) -> (result: FetchResult)
    ensures
        result.name@ == sub.name@,
        node_views(result.nodes@) == labelled(outcome_nodes(outcome), *sub),
        result.traffic == header_traffic(outcome_header(outcome)),
{
    let none: Vec<ProxyNode> = Vec::new();
    assert(node_views(none@) =~= labelled(Seq::empty(), *sub));
    let (header, nodes): (Option<String>, Vec<ProxyNode>) = match outcome {
        FetchOutcome::NoResponse => (None, none),
        FetchOutcome::BadStatus => (None, none),
        FetchOutcome::NoText { userinfo } => (userinfo, none),
        FetchOutcome::NotNodes { userinfo } => (userinfo, none),
        FetchOutcome::Nodes { userinfo, nodes } => (userinfo, label_nodes(nodes, sub)),
    };
    FetchResult { name: sub.name.clone(), nodes, traffic: read_header(header) }
}

/// The nodes of all results, in their order.
pub open spec fn fetched_nodes(results: Seq<FetchResult>) -> Seq<NodeView>
    decreases results.len(),
{
    if results.len() == 0 {
        Seq::empty()
    } else {
        fetched_nodes(results.drop_last()) + node_views(results.last().nodes@)
    }
}

/// The names of the results with a known traffic, with that traffic, in their order.
pub open spec fn fetched_traffic(results: Seq<FetchResult>) -> Seq<(Seq<char>, SubscriptionTraffic)>
    decreases results.len(),
{
    if results.len() == 0 {
        Seq::empty()
    } else {
        let before = fetched_traffic(results.drop_last());
        match results.last().traffic {
            Some(traffic) => before.push((results.last().name@, traffic)),
            None => before,
        }
    }
}

/// The names, as characters, with their traffic.
pub open spec fn traffic_views(entries: Seq<(String, SubscriptionTraffic)>) -> Seq<
    (Seq<char>, SubscriptionTraffic),
> {
    entries.map_values(|entry: (String, SubscriptionTraffic)| (entry.0@, entry.1))
}

/// The nodes and the traffic of all results, in their order.
pub fn collect_results(results: Vec<FetchResult>) -> (all: (
    Vec<ProxyNode>,
    Vec<(String, SubscriptionTraffic)>,
))
    ensures
        node_views(all.0@) == fetched_nodes(results@),
        traffic_views(all.1@) == fetched_traffic(results@),
{
    let ghost given = results@;
    let mut nodes: Vec<ProxyNode> = Vec::new();
    let mut entries: Vec<(String, SubscriptionTraffic)> = Vec::new();
    assert(node_views(nodes@) =~= fetched_nodes(given.take(0)));
    assert(traffic_views(entries@) =~= fetched_traffic(given.take(0)));
    for result in it: results
        invariant
            it.seq() == given,
            node_views(nodes@) == fetched_nodes(given.take(it.index())),
            traffic_views(entries@) == fetched_traffic(given.take(it.index())),
    {
        let ghost index = it.index();
        assert(given.take(index + 1).drop_last() =~= given.take(index));
        assert(given.take(index + 1).last() == result);
        let ghost nodes_before = nodes@;
        let ghost entries_before = entries@;
        let mut own = result.nodes;
        let ghost added = own@;
        nodes.append(&mut own);
        assert(node_views(nodes@) =~= node_views(nodes_before) + node_views(added));
        if let Some(traffic) = result.traffic {
            entries.push((result.name, traffic));
            assert(traffic_views(entries@) =~= traffic_views(entries_before).push(
                (result.name@, traffic),
            ));
        }
    }
    assert(given.take(given.len() as int) =~= given);
    (nodes, entries)
}

// ---------------------------------------------------------------------------
// Dropping nodes
// ---------------------------------------------------------------------------

/// The name holds one of the keywords.
pub open spec fn has_keyword(name: Seq<char>, keywords: Seq<String>) -> bool {
    exists|k: int| 0 <= k < keywords.len() && contains_text(name, (#[trigger] keywords[k])@)
}

/// The node's name holds none of the keywords, or there are none.
pub open spec fn not_excluded(keywords: Option<Vec<String>>) -> spec_fn(NodeView) -> bool {
    |node: NodeView|
        match keywords {
            Some(list) => !has_keyword(node.name, list@),
            None => true,
        }
}

fn any_keyword(name: &str, keywords: &Vec<String>) -> (any: bool)
    ensures
        any == has_keyword(name@, keywords@),
{
    for k in 0..keywords.len()
        invariant
            forall|j: int| 0 <= j < k ==> !contains_text(name@, (#[trigger] keywords@[j])@),
    {
        if has_text(name, keywords[k].as_str()) {
            return true;
        }
    }
    false
}

proof fn lemma_filter_take(nodes: Seq<NodeView>, pred: spec_fn(NodeView) -> bool, i: int)
    requires
        0 <= i < nodes.len(),
    ensures
        nodes.take(i + 1).filter(pred) == (if pred(nodes[i]) {
            nodes.take(i).filter(pred).push(nodes[i])
        } else {
            nodes.take(i).filter(pred)
        }),
{
    reveal(Seq::filter);
    assert(nodes.take(i + 1).drop_last() =~= nodes.take(i));
}

proof fn lemma_filter_none(nodes: Seq<NodeView>, pred: spec_fn(NodeView) -> bool)
    ensures
        nodes.take(0).filter(pred) == Seq::<NodeView>::empty(),
{
    reveal(Seq::filter);
    assert(nodes.take(0) =~= Seq::<NodeView>::empty());
}

/// The nodes whose names hold none of the keywords.
pub fn drop_excluded(nodes: Vec<ProxyNode>, keywords: &Option<Vec<String>>) -> (left: Vec<ProxyNode>)
    ensures
        node_views(left@) == node_views(nodes@).filter(not_excluded(*keywords)),
{
    let ghost views = node_views(nodes@);
    let ghost pred = not_excluded(*keywords);
    let mut left: Vec<ProxyNode> = Vec::new();
    proof {
        lemma_filter_none(views, pred);
    }
    assert(node_views(left@) =~= Seq::<NodeView>::empty());
    for node in it: nodes
        invariant
            views == node_views(it.seq()),
            pred == not_excluded(*keywords),
            node_views(left@) == views.take(it.index()).filter(pred),
    {
        let ghost before = left@;
        proof {
            lemma_filter_take(views, pred, it.index());
            assert(views[it.index()] == node@);
        }
        let excluded: bool = match keywords {
            Some(list) => any_keyword(node.name.as_str(), list),
            None => false,
        };
        if !excluded {
            left.push(node);
            assert(node_views(left@) =~= node_views(before).push(left@.last()@));
        }
    }
    assert(views.take(views.len() as int) =~= views);
    left
}

/// The answer of node `i`, if it gave one.
pub open spec fn answer_of(answers: Seq<Option<u64>>, i: int) -> Option<u64> {
    if 0 <= i < answers.len() {
        answers[i]
    } else {
        None
    }
}

/// The nodes that answered, in their order, each with its latency.
pub open spec fn tested(nodes: Seq<NodeView>, answers: Seq<Option<u64>>) -> Seq<NodeView>
    decreases nodes.len(),
{
    if nodes.len() == 0 {
        Seq::empty()
    } else {
        let before = tested(nodes.drop_last(), answers);
        match answer_of(answers, nodes.len() - 1) {
            Some(latency) => before.push(NodeView { latency: Some(latency), ..nodes.last() }),
            None => before,
        }
    }
}

/// The nodes that answered, in their order, each with its latency. The answer of a node stands
/// at its place in `answers`.
pub fn record_answers(nodes: Vec<ProxyNode>, answers: &Vec<Option<u64>>) -> (left: Vec<ProxyNode>)
    ensures
        node_views(left@) == tested(node_views(nodes@), answers@),
{
    let ghost views = node_views(nodes@);
    let mut left: Vec<ProxyNode> = Vec::new();
    let mut i: usize = 0;
    let size: usize = nodes.len();
    assert(node_views(left@) =~= tested(views.take(0), answers@));
    for node in it: nodes
        invariant
            size == views.len(),
            views == node_views(it.seq()),
            i == it.index(),
            node_views(left@) == tested(views.take(it.index()), answers@),
    {
        let ghost before = left@;
        assert(views.take(i + 1).drop_last() =~= views.take(i as int));
        assert(views.take(i + 1).last() == node@);
        let answer: Option<u64> = if i < answers.len() {
            answers[i]
        } else {
            None
        };
        if let Some(latency) = answer {
            let mut own = node;
            own.latency = Some(latency);
            left.push(own);
            assert(node_views(left@) =~= node_views(before).push(left@.last()@));
        }
        i = i + 1;
    }
    assert(views.take(views.len() as int) =~= views);
    left
}

// ---------------------------------------------------------------------------
// Keeping nodes
// ---------------------------------------------------------------------------

/// How a subscription's nodes are selected.
#[derive(Debug, Clone, Copy)]
pub struct Selection {
    pub limit: Option<usize>,
    pub mode: SelectMode,
    pub min_per_region: usize,
    pub max_per_region: Option<usize>,
}

/// The value in `first`, or else that in `second`.
pub open spec fn either<A>(first: Option<A>, second: Option<A>) -> Option<A> {
    match first {
        Some(value) => Some(value),
        None => second,
    }
}

/// What holds for a subscription: its own settings before the common ones, and those before the
/// usual ones.
pub open spec fn settings(config: Config, sub: Subscription) -> Selection {
    Selection {
        limit: sub.max_nodes,
        mode: match either(sub.select_mode, config.select_mode) {
            Some(mode) => mode,
            None => SelectMode::RegionDiverse,
        },
        min_per_region: match either(sub.min_per_region, config.min_per_region) {
            Some(min) => min,
            None => 1,
        },
        max_per_region: either(sub.max_per_region, config.max_per_region),
    }
}

/// What holds for a subscription.
pub fn settings_for(config: &Config, sub: &Subscription) -> (selected: Selection)
    ensures
        selected == settings(*config, *sub),
{
    let default_mode: SelectMode = match config.select_mode {
        Some(mode) => mode,
        None => SelectMode::RegionDiverse,
    };
    let default_min: usize = config.min_per_region.unwrap_or(1);
    Selection {
        limit: sub.max_nodes,
        mode: match sub.select_mode {
            Some(mode) => mode,
            None => default_mode,
        },
        min_per_region: sub.min_per_region.unwrap_or(default_min),
        max_per_region: match sub.max_per_region {
            Some(max) => Some(max),
            None => config.max_per_region,
        },
    }
}

/// The node answered.
pub open spec fn answered() -> spec_fn(NodeView) -> bool {
    |node: NodeView| node.latency is Some
}

/// The node belongs to the airport `name`.
pub open spec fn belongs_to(name: Seq<char>) -> spec_fn(NodeView) -> bool {
    |node: NodeView| node.group_name == name
}

/// One of the first `upto` subscriptions is called `name`.
pub open spec fn named_before(subs: Seq<Subscription>, name: Seq<char>, upto: int) -> bool {
    exists|t: int| 0 <= t < upto && (#[trigger] subs[t]).name@ == name
}

/// The nodes that subscription `s` keeps of `nodes`. Of subscriptions with the same name the
/// first gets all nodes of that name.
pub open spec fn kept_by(
    config: Config,
    subs: Seq<Subscription>,
    nodes: Seq<NodeView>,
    s: int,
) -> Seq<NodeView> {
    let own = nodes.filter(belongs_to(subs[s].name@));
    let chosen = settings(config, subs[s]);
    if named_before(subs, subs[s].name@, s) {
        Seq::empty()
    } else {
        selection(own, chosen.limit, chosen.mode, chosen.min_per_region, chosen.max_per_region)
    }
}

/// The nodes that the first `upto` subscriptions keep, one subscription after the other.
pub open spec fn kept(
    config: Config,
    subs: Seq<Subscription>,
    nodes: Seq<NodeView>,
    upto: int,
) -> Seq<NodeView>
    decreases upto,
{
    if upto <= 0 {
        Seq::empty()
    } else {
        kept(config, subs, nodes, upto - 1) + kept_by(config, subs, nodes, upto - 1)
    }
}

/// The nodes that are handed out, under their new names.
pub open spec fn handed_out(config: AppConfig, nodes: Seq<NodeView>) -> Seq<NodeView> {
    let subs = config.subscriptions@;
    renamed(kept(config.config, subs, nodes.filter(answered()), subs.len() as int))
}

/// The node belongs to none of the first `upto` subscriptions.
spec fn not_named(subs: Seq<Subscription>, upto: int) -> spec_fn(NodeView) -> bool {
    |node: NodeView| !named_before(subs, node.group_name, upto)
}

proof fn lemma_filter_twice(
    nodes: Seq<NodeView>,
    first: spec_fn(NodeView) -> bool,
    second: spec_fn(NodeView) -> bool,
    both: spec_fn(NodeView) -> bool,
)
    requires
        forall|node: NodeView| #[trigger] both(node) <==> first(node) && second(node),
    ensures
        nodes.filter(first).filter(second) == nodes.filter(both),
    decreases nodes.len(),
{
    reveal(Seq::filter);
    if nodes.len() > 0 {
        let front = nodes.drop_last();
        lemma_filter_twice(front, first, second, both);
        assert(both(nodes.last()) <==> first(nodes.last()) && second(nodes.last()));
        if first(nodes.last()) {
            assert(front.filter(first).push(nodes.last()).drop_last() =~= front.filter(first));
        }
    }
}

proof fn lemma_filter_all(nodes: Seq<NodeView>, pred: spec_fn(NodeView) -> bool)
    requires
        forall|i: int| 0 <= i < nodes.len() ==> pred(#[trigger] nodes[i]),
    ensures
        nodes.filter(pred) == nodes,
    decreases nodes.len(),
{
    reveal(Seq::filter);
    if nodes.len() > 0 {
        assert(pred(nodes[nodes.len() - 1]));
        lemma_filter_all(nodes.drop_last(), pred);
        assert(nodes =~= nodes.drop_last().push(nodes.last()));
    }
}

proof fn lemma_filter_nothing(nodes: Seq<NodeView>, pred: spec_fn(NodeView) -> bool)
    requires
        forall|i: int| 0 <= i < nodes.len() ==> !pred(#[trigger] nodes[i]),
    ensures
        nodes.filter(pred) == Seq::<NodeView>::empty(),
    decreases nodes.len(),
{
    reveal(Seq::filter);
    if nodes.len() > 0 {
        assert(!pred(nodes[nodes.len() - 1]));
        lemma_filter_nothing(nodes.drop_last(), pred);
    } else {
        assert(nodes =~= Seq::<NodeView>::empty());
    }
}

/// Splits the nodes into those of the airport `name` and the others, each in their order.
fn split_airport(nodes: Vec<ProxyNode>, name: &str) -> (halves: (Vec<ProxyNode>, Vec<ProxyNode>))
    ensures
        node_views(halves.0@) == node_views(nodes@).filter(belongs_to(name@)),
        node_views(halves.1@) == node_views(nodes@).filter(
            |node: NodeView| node.group_name != name@,
        ),
{
    let ghost views = node_views(nodes@);
    let ghost mine = belongs_to(name@);
    let ghost others = |node: NodeView| node.group_name != name@;
    let mut own: Vec<ProxyNode> = Vec::new();
    let mut rest: Vec<ProxyNode> = Vec::new();
    proof {
        lemma_filter_none(views, mine);
        lemma_filter_none(views, others);
    }
    assert(node_views(own@) =~= Seq::<NodeView>::empty());
    assert(node_views(rest@) =~= Seq::<NodeView>::empty());
    for node in it: nodes
        invariant
            views == node_views(it.seq()),
            mine == belongs_to(name@),
            others == (|node: NodeView| node.group_name != name@),
            node_views(own@) == views.take(it.index()).filter(mine),
            node_views(rest@) == views.take(it.index()).filter(others),
    {
        let ghost own_before = own@;
        let ghost rest_before = rest@;
        proof {
            lemma_filter_take(views, mine, it.index());
            lemma_filter_take(views, others, it.index());
            assert(views[it.index()] == node@);
        }
        if same_text(node.group_name.as_str(), name) {
            own.push(node);
            assert(node_views(own@) =~= node_views(own_before).push(own@.last()@));
        } else {
            rest.push(node);
            assert(node_views(rest@) =~= node_views(rest_before).push(rest@.last()@));
        }
    }
    assert(views.take(views.len() as int) =~= views);
    (own, rest)
}

/// The nodes that answered.
fn keep_answered(nodes: Vec<ProxyNode>) -> (left: Vec<ProxyNode>)
    ensures
        node_views(left@) == node_views(nodes@).filter(answered()),
{
    let ghost views = node_views(nodes@);
    let mut left: Vec<ProxyNode> = Vec::new();
    proof {
        lemma_filter_none(views, answered());
    }
    assert(node_views(left@) =~= Seq::<NodeView>::empty());
    for node in it: nodes
        invariant
            views == node_views(it.seq()),
            node_views(left@) == views.take(it.index()).filter(answered()),
    {
        let ghost before = left@;
        proof {
            lemma_filter_take(views, answered(), it.index());
            assert(views[it.index()] == node@);
        }
        if node.latency.is_some() {
            left.push(node);
            assert(node_views(left@) =~= node_views(before).push(left@.last()@));
        }
    }
    assert(views.take(views.len() as int) =~= views);
    left
}

/// The nodes that the subscriptions keep, one subscription after the other.
fn keep_nodes(config: &AppConfig, nodes: Vec<ProxyNode>) -> (all: Vec<ProxyNode>)
    ensures
        node_views(all@) == kept(
            config.config,
            config.subscriptions@,
            node_views(nodes@),
            config.subscriptions@.len() as int,
        ),
{
    let ghost views = node_views(nodes@);
    let ghost subs = config.subscriptions@;
    let mut rest = nodes;
    let mut all: Vec<ProxyNode> = Vec::new();
    proof {
        lemma_filter_all(views, not_named(subs, 0));
    }
    assert(node_views(all@) =~= Seq::<NodeView>::empty());
    for s in 0..config.subscriptions.len()
        invariant
            subs == config.subscriptions@,
            node_views(rest@) == views.filter(not_named(subs, s as int)),
            node_views(all@) == kept(config.config, subs, views, s as int),
    {
        let sub: &Subscription = &config.subscriptions[s];
        let ghost before = all@;
        let ghost left = node_views(rest@);
        let ghost name = sub.name@;
        let chosen = settings_for(&config.config, sub);
        let (own, others) = split_airport(rest, sub.name.as_str());
        let ghost mine = node_views(own@);
        rest = others;
        proof {
            let not_mine = |node: NodeView| node.group_name != name;
            assert forall|node: NodeView| #[trigger]
                not_named(subs, s + 1)(node) <==> not_named(subs, s as int)(node) && not_mine(
                    node,
                ) by {
                if named_before(subs, node.group_name, s + 1) && !named_before(
                    subs,
                    node.group_name,
                    s as int,
                ) {
                    let t = choose|t: int|
                        0 <= t < s + 1 && (#[trigger] subs[t]).name@ == node.group_name;
                    assert(t == s);
                }
                if named_before(subs, node.group_name, s as int) {
                    let t = choose|t: int|
                        0 <= t < s && (#[trigger] subs[t]).name@ == node.group_name;
                    assert(subs[t].name@ == node.group_name);
                }
                assert(subs[s as int].name@ == name);
            }
            lemma_filter_twice(views, not_named(subs, s as int), not_mine, not_named(subs, s + 1));
            if named_before(subs, name, s as int) {
                assert forall|i: int| 0 <= i < left.len() implies !belongs_to(name)(
                    #[trigger] left[i],
                ) by {
                    views.lemma_filter_pred(not_named(subs, s as int), i);
                }
                lemma_filter_nothing(left, belongs_to(name));
            } else {
                assert forall|node: NodeView| #[trigger]
                    belongs_to(name)(node) <==> not_named(subs, s as int)(node) && belongs_to(name)(
                        node,
                    ) by {}
                lemma_filter_twice(
                    views,
                    not_named(subs, s as int),
                    belongs_to(name),
                    belongs_to(name),
                );
            }
        }
        // A subscription without nodes is passed over.
        if own.len() > 0 {
            let mut picked = select_subscription_nodes(
                own,
                chosen.limit,
                chosen.mode,
                chosen.min_per_region,
                chosen.max_per_region,
            );
            let ghost added = picked@;
            all.append(&mut picked);
            assert(node_views(all@) =~= node_views(before) + node_views(added));
        } else {
            proof {
                assert(mine =~= Seq::<NodeView>::empty());
                lemma_selection_of_none(chosen);
            }
            assert(node_views(all@) =~= node_views(before) + Seq::<NodeView>::empty());
        }
        assert(node_views(all@) =~= node_views(before) + kept_by(
            config.config,
            subs,
            views,
            s as int,
        ));
    }
    all
}

/// Of no nodes none is kept.
proof fn lemma_selection_of_none(chosen: Selection)
    ensures
        selection(
            Seq::empty(),
            chosen.limit,
            chosen.mode,
            chosen.min_per_region,
            chosen.max_per_region,
        ) == Seq::<NodeView>::empty(),
{
    assert(by_latency(Seq::empty()) =~= Seq::<NodeView>::empty());
}

// ---------------------------------------------------------------------------
// Labels
// ---------------------------------------------------------------------------

/// The last traffic that is known of `name`.
pub open spec fn traffic_of(
    entries: Seq<(Seq<char>, SubscriptionTraffic)>,
    name: Seq<char>,
) -> Option<SubscriptionTraffic>
    decreases entries.len(),
{
    if entries.len() == 0 {
        None
    } else if entries.last().0 == name {
        Some(entries.last().1)
    } else {
        traffic_of(entries.drop_last(), name)
    }
}

/// The labels of the subscriptions whose traffic is known, in their order.
pub open spec fn labels(
    subs: Seq<Subscription>,
    entries: Seq<(Seq<char>, SubscriptionTraffic)>,
) -> Seq<Seq<char>>
    decreases subs.len(),
{
    if subs.len() == 0 {
        Seq::empty()
    } else {
        let before = labels(subs.drop_last(), entries);
        let name = subs.last().name@;
        match traffic_of(entries, name) {
            Some(traffic) => before.push(traffic_label(name, traffic)),
            None => before,
        }
    }
}

/// A node that only shows `name`: a local proxy that nothing listens on.
pub open spec fn display_node(name: Seq<char>) -> NodeView {
    NodeView {
        name,
        kind: "socks5"@,
        server: "127.0.0.1"@,
        port: 1,
        source_tier: SubscriptionTier::Backup,
        group_name: INFO_GROUP@,
        latency: None,
        other_fields: Map::empty(),
    }
}

/// One node for each label.
pub open spec fn display_nodes(labels: Seq<Seq<char>>) -> Seq<NodeView> {
    labels.map_values(|label: Seq<char>| display_node(label))
}

/// A node that only shows `name`: a local proxy that nothing listens on.
pub fn info_display_node(name: String) -> (node: ProxyNode)
    ensures
        node@ == display_node(name@),
{
    ProxyNode {
        name,
        kind: "socks5".to_owned(),
        server: "127.0.0.1".to_owned(),
        port: 1,
        source_tier: SubscriptionTier::Backup,
        group_name: INFO_GROUP.to_owned(),
        latency: None,
        other_fields: BTreeMap::new(),
    }
}

/// The last traffic that is known of `name`.
fn find_traffic(entries: &Vec<(String, SubscriptionTraffic)>, name: &str) -> (found: Option<
    SubscriptionTraffic,
>)
    ensures
        found == traffic_of(traffic_views(entries@), name@),
{
    let ghost views = traffic_views(entries@);
    let mut i: usize = entries.len();
    assert(views.take(views.len() as int) =~= views);
    while i > 0
        invariant
            i <= entries@.len(),
            views == traffic_views(entries@),
            traffic_of(views, name@) == traffic_of(views.take(i as int), name@),
        decreases i,
    {
        assert(views.take(i as int).drop_last() =~= views.take(i - 1));
        assert(views.take(i as int).last() == (entries@[i - 1].0@, entries@[i - 1].1));
        i = i - 1;
        if same_text(entries[i].0.as_str(), name) {
            return Some(entries[i].1);
        }
    }
    None
}

/// The labels of the subscriptions whose traffic is known, in their order.
fn make_labels(
    subs: &Vec<Subscription>,
    entries: &Vec<(String, SubscriptionTraffic)>,
) -> (names: Vec<String>)
    ensures
        text_views(names@) == labels(subs@, traffic_views(entries@)),
{
    let ghost views = traffic_views(entries@);
    let mut names: Vec<String> = Vec::new();
    assert(text_views(names@) =~= labels(subs@.take(0), views));
    for i in 0..subs.len()
        invariant
            views == traffic_views(entries@),
            text_views(names@) == labels(subs@.take(i as int), views),
    {
        let ghost before = names@;
        assert(subs@.take(i + 1).drop_last() =~= subs@.take(i as int));
        if let Some(traffic) = find_traffic(entries, subs[i].name.as_str()) {
            names.push(format_traffic_label(subs[i].name.as_str(), &traffic));
            assert(text_views(names@) =~= text_views(before).push(names@.last()@));
        }
    }
    assert(subs@.take(subs@.len() as int) =~= subs@);
    names
}

// ---------------------------------------------------------------------------
// The configuration
// ---------------------------------------------------------------------------

/// Why there is no configuration.
#[derive(Debug, Clone, Copy, PartialEq, Eq, Structural)]
pub enum SubscriptionError {
    /// No subscription has a usable node.
    NoUsableNodes,
}

impl SubscriptionError {
    /// The error in words.
    pub fn message(&self) -> (text: String)
        ensures
            text@ == "所有订阅均无可用节点，拒绝生成空配置"@,
    {
        "所有订阅均无可用节点，拒绝生成空配置".to_owned()
    }
}

/// The proxies and the groups of a configuration.
#[derive(Debug)]
pub struct Outcome {
    pub proxies: Vec<ProxyNode>,
    pub proxy_groups: Vec<ProxyGroup>,
}

/// The proxies of a configuration: the nodes that are handed out, then those that show labels.
pub open spec fn out_proxies(
    config: AppConfig,
    nodes: Seq<NodeView>,
    entries: Seq<(Seq<char>, SubscriptionTraffic)>,
) -> Seq<NodeView> {
    handed_out(config, nodes) + display_nodes(labels(config.subscriptions@, entries))
}

/// The groups of a configuration.
pub open spec fn out_groups(
    config: AppConfig,
    nodes: Seq<NodeView>,
    entries: Seq<(Seq<char>, SubscriptionTraffic)>,
) -> Seq<GroupView> {
    let given = handed_out(config, nodes);
    all_groups(
        alive(config.subscriptions@, given),
        given,
        labels(config.subscriptions@, entries),
    )
}

/// What is handed out after the nodes were fetched and tested: of the nodes that answered, each
/// subscription keeps its own, and they get new names. Where none is left, there is nothing to
/// hand out.
pub fn get_subscription(
    config: &AppConfig,
    nodes: Vec<ProxyNode>,
    traffic: &Vec<(String, SubscriptionTraffic)>,
) -> (result: Result<Outcome, SubscriptionError>)
    ensures
        match result {
            Ok(outcome) => {
                &&& handed_out(*config, node_views(nodes@)).len() > 0
                &&& node_views(outcome.proxies@) == out_proxies(
                    *config,
                    node_views(nodes@),
                    traffic_views(traffic@),
                )
                &&& group_views(outcome.proxy_groups@) == out_groups(
                    *config,
                    node_views(nodes@),
                    traffic_views(traffic@),
                )
            },
            Err(error) => {
                &&& handed_out(*config, node_views(nodes@)).len() == 0
                &&& error == SubscriptionError::NoUsableNodes
            },
        },
{
    let ghost views = node_views(nodes@);
    let ghost entries = traffic_views(traffic@);
    let mut given = keep_nodes(config, keep_answered(nodes));
    uniquify_proxy_names(&mut given);
    assert(node_views(given@) == handed_out(*config, views));
    let airports = alive_airports(&config.subscriptions, &given);
    proof {
        law_alive_iff_nodes(*config, views);
        assert(airport_views(airports@).len() == airports@.len());
    }
    if airports.len() == 0 {
        return Err(SubscriptionError::NoUsableNodes);
    }
    let shown = make_labels(&config.subscriptions, traffic);
    let ghost texts = text_views(shown@);
    let mut display: Vec<ProxyNode> = Vec::new();
    for i in 0..shown.len()
        invariant
            texts == text_views(shown@),
            display@.len() == i,
            forall|j: int|
                0 <= j < i ==> (#[trigger] display@[j])@ == display_node(texts[j]),
    {
        assert(texts[i as int] == shown@[i as int]@);
        display.push(info_display_node(shown[i].clone()));
    }
    assert(node_views(display@) =~= display_nodes(texts));
    let proxy_groups = build_groups(&airports, &given, shown);
    let ghost kept_nodes = given@;
    let ghost shown_nodes = display@;
    given.append(&mut display);
    assert(node_views(given@) =~= node_views(kept_nodes) + node_views(shown_nodes));
    Ok(Outcome { proxies: given, proxy_groups })
}

/// The template with the proxies and the groups replaced; everything else stays as it is.
pub fn fill_template(template: MySubscritption, outcome: Outcome) -> (filled: MySubscritption)
    ensures
        filled.proxies == outcome.proxies,
        filled.proxy_groups == outcome.proxy_groups,
        filled.other_fields == template.other_fields,
{
    MySubscritption {
        proxies: outcome.proxies,
        proxy_groups: outcome.proxy_groups,
        other_fields: template.other_fields,
    }
}

// ---------------------------------------------------------------------------
// Laws of the configuration
// ---------------------------------------------------------------------------

/// What a subscription keeps are nodes of its own that were there.
proof fn lemma_kept_by(config: Config, subs: Seq<Subscription>, nodes: Seq<NodeView>, s: int, i: int)
    requires
        0 <= s < subs.len(),
        0 <= i < kept_by(config, subs, nodes, s).len(),
    ensures
        kept_by(config, subs, nodes, s)[i].group_name == subs[s].name@,
        nodes.contains(kept_by(config, subs, nodes, s)[i]),
{
    broadcast use vstd::seq_lib::group_to_multiset_ensures;

    let name = subs[s].name@;
    let own = nodes.filter(belongs_to(name));
    let chosen = settings(config, subs[s]);
    let mine = kept_by(config, subs, nodes, s);
    law_selection_of_own_nodes(
        own,
        chosen.limit,
        chosen.mode,
        chosen.min_per_region,
        chosen.max_per_region,
    );
    let node = mine[i];
    assert(mine.contains(node));
    assert(mine.to_multiset().count(node) > 0);
    assert(own.to_multiset().count(node) > 0);
    assert(own.contains(node));
    let p = choose|p: int| 0 <= p < own.len() && own[p] == node;
    nodes.lemma_filter_pred(belongs_to(name), p);
    nodes.lemma_filter_contains_rev(belongs_to(name), node);
}

/// What is kept are nodes of the subscriptions that were there.
proof fn lemma_kept(
    config: Config,
    subs: Seq<Subscription>,
    nodes: Seq<NodeView>,
    upto: int,
    i: int,
)
    requires
        0 <= upto <= subs.len(),
        0 <= i < kept(config, subs, nodes, upto).len(),
    ensures
        named_before(subs, kept(config, subs, nodes, upto)[i].group_name, upto),
        nodes.contains(kept(config, subs, nodes, upto)[i]),
    decreases upto,
{
    if upto > 0 {
        let before = kept(config, subs, nodes, upto - 1);
        let node = kept(config, subs, nodes, upto)[i];
        if i < before.len() {
            lemma_kept(config, subs, nodes, upto - 1, i);
            let t = choose|t: int|
                0 <= t < upto - 1 && (#[trigger] subs[t]).name@ == node.group_name;
            assert(subs[t].name@ == node.group_name);
        } else {
            lemma_kept_by(config, subs, nodes, upto - 1, i - before.len());
            assert(subs[upto - 1].name@ == node.group_name);
        }
    }
}

/// Every node that is handed out answered, belongs to a subscription, and differs from a node
/// that was there at most in its name.
pub proof fn law_handed_out_nodes(config: AppConfig, nodes: Seq<NodeView>, i: int)
    requires
        0 <= i < handed_out(config, nodes).len(),
    ensures
        handed_out(config, nodes)[i].latency is Some,
        named_before(
            config.subscriptions@,
            handed_out(config, nodes)[i].group_name,
            config.subscriptions@.len() as int,
        ),
        exists|j: int|
            0 <= j < nodes.len() && handed_out(config, nodes)[i] == (NodeView {
                name: handed_out(config, nodes)[i].name,
                ..#[trigger] nodes[j]
            }),
{
    let subs = config.subscriptions@;
    let left = nodes.filter(answered());
    let all = kept(config.config, subs, left, subs.len() as int);
    lemma_kept(config.config, subs, left, subs.len() as int, i);
    let p = choose|p: int| 0 <= p < left.len() && left[p] == all[i];
    nodes.lemma_filter_pred(answered(), p);
    nodes.lemma_filter_contains_rev(answered(), all[i]);
    let j = choose|j: int| 0 <= j < nodes.len() && nodes[j] == all[i];
    assert(handed_out(config, nodes)[i] == (NodeView {
        name: handed_out(config, nodes)[i].name,
        ..nodes[j]
    }));
}

/// A subscription is alive exactly if a node is handed out at all.
pub proof fn law_alive_iff_nodes(config: AppConfig, nodes: Seq<NodeView>)
    ensures
        alive(config.subscriptions@, handed_out(config, nodes)).len() > 0 <==> handed_out(
            config,
            nodes,
        ).len() > 0,
{
    let subs = config.subscriptions@;
    let given = handed_out(config, nodes);
    law_alive_have_nodes(subs, given);
    if given.len() > 0 {
        law_handed_out_nodes(config, nodes, 0);
        let s = choose|s: int|
            0 <= s < subs.len() && (#[trigger] subs[s]).name@ == given[0].group_name;
        assert(has_node(given, subs[s].name@));
    }
    if alive(subs, given).len() > 0 {
        assert(has_node(given, alive(subs, given)[0].name));
    }
}

/// A subscription without a node that answered is passed over: it has no group, and no group
/// counts on it.
pub proof fn law_dead_subscription_is_skipped(
    config: AppConfig,
    nodes: Seq<NodeView>,
    name: Seq<char>,
    a: int,
)
    requires
        forall|j: int|
            0 <= j < nodes.len() && (#[trigger] nodes[j]).latency is Some ==> nodes[j].group_name
                != name,
        0 <= a < alive(config.subscriptions@, handed_out(config, nodes)).len(),
    ensures
        alive(config.subscriptions@, handed_out(config, nodes))[a].name != name,
{
    let given = handed_out(config, nodes);
    law_alive_have_nodes(config.subscriptions@, given);
    let airport = alive(config.subscriptions@, given)[a];
    assert(has_node(given, airport.name));
    let i = choose|i: int|
        0 <= i < given.len() && (#[trigger] given[i]).group_name == airport.name;
    law_handed_out_nodes(config, nodes, i);
}

/// No two nodes that are handed out have the same name.
pub proof fn law_no_name_twice(config: AppConfig, nodes: Seq<NodeView>, i: int, j: int)
    requires
        0 <= i < handed_out(config, nodes).len(),
        0 <= j < handed_out(config, nodes).len(),
        i != j,
    ensures
        handed_out(config, nodes)[i].name != handed_out(config, nodes)[j].name,
{
    let subs = config.subscriptions@;
    law_names_are_unique(
        kept(config.config, subs, nodes.filter(answered()), subs.len() as int),
        i,
        j,
    );
}

/// Where something is handed out, no group is without members, and every member of a group
/// is no proxy at all, a group, or one of the proxies.
pub proof fn law_groups_are_sound(
    config: AppConfig,
    nodes: Seq<NodeView>,
    entries: Seq<(Seq<char>, SubscriptionTraffic)>,
    g: int,
)
    requires
        handed_out(config, nodes).len() > 0,
        0 <= g < out_groups(config, nodes, entries).len(),
    ensures
        out_groups(config, nodes, entries)[g].proxies.len() > 0,
        forall|p: int|
            0 <= p < out_groups(config, nodes, entries)[g].proxies.len() ==> is_known(
                out_groups(config, nodes, entries),
                out_proxies(config, nodes, entries),
                Seq::empty(),
                #[trigger] out_groups(config, nodes, entries)[g].proxies[p],
            ),
{
    let subs = config.subscriptions@;
    let given = handed_out(config, nodes);
    let airports = alive(subs, given);
    let texts = labels(subs, entries);
    let groups = out_groups(config, nodes, entries);
    let proxies = out_proxies(config, nodes, entries);
    law_alive_have_nodes(subs, given);
    law_alive_iff_nodes(config, nodes);
    assert(all_have_nodes(airports, given));
    law_no_group_is_empty(airports, given, texts, g);
    assert forall|p: int| 0 <= p < groups[g].proxies.len() implies is_known(
        groups,
        proxies,
        Seq::empty(),
        #[trigger] groups[g].proxies[p],
    ) by {
        let member = groups[g].proxies[p];
        law_members_are_known(airports, given, texts, g, p);
        if exists|i: int| 0 <= i < given.len() && (#[trigger] given[i]).name == member {
            let i = choose|i: int| 0 <= i < given.len() && (#[trigger] given[i]).name == member;
            assert(proxies[i].name == member);
        }
        if texts.contains(member) {
            let q = choose|q: int| 0 <= q < texts.len() && texts[q] == member;
            assert(proxies[given.len() + q].name == member);
        }
    }
}

/// An airport keeps no more nodes than its subscription allows, and all that answered where
/// nothing has to go. Of several subscriptions with the same name, the first decides.
pub proof fn law_airport_limit(config: AppConfig, nodes: Seq<NodeView>, s: int)
    requires
        0 <= s < config.subscriptions@.len(),
        !named_before(config.subscriptions@, config.subscriptions@[s].name@, s),
    ensures
        config.subscriptions@[s].max_nodes matches Some(most) ==> handed_out(config, nodes).filter(
            belongs_to(config.subscriptions@[s].name@),
        ).len() <= most,
        ({
            let sub = config.subscriptions@[s];
            let own = nodes.filter(answered()).filter(belongs_to(sub.name@));
            let chosen = settings(config.config, sub);
            all_stay(own, chosen.limit, chosen.mode, chosen.max_per_region) ==> handed_out(
                config,
                nodes,
            ).filter(belongs_to(sub.name@)).len() == own.len()
        }),
{
    broadcast use vstd::seq_lib::group_to_multiset_ensures;

    let subs = config.subscriptions@;
    let left = nodes.filter(answered());
    let name = subs[s].name@;
    lemma_airport_kept(config.config, subs, left, s, subs.len() as int);
    lemma_renamed_filter(kept(config.config, subs, left, subs.len() as int), name);
    let own = left.filter(belongs_to(name));
    let chosen = settings(config.config, subs[s]);
    law_selection_of_own_nodes(
        own,
        chosen.limit,
        chosen.mode,
        chosen.min_per_region,
        chosen.max_per_region,
    );
    let mine = kept_by(config.config, subs, left, s);
    assert(mine.to_multiset().len() == mine.len());
    assert(own.to_multiset().len() == own.len());
}

/// With a limit and regions served in turn, an airport keeps no more nodes of one region than it
/// may. The regions are those of the names that the nodes had when they were fetched.
pub proof fn law_airport_region_cap(
    config: AppConfig,
    nodes: Seq<NodeView>,
    s: int,
    region: Seq<char>,
)
    requires
        0 <= s < config.subscriptions@.len(),
        !named_before(config.subscriptions@, config.subscriptions@[s].name@, s),
        config.subscriptions@[s].max_nodes is Some,
        settings(config.config, config.subscriptions@[s]).mode == SelectMode::RegionDiverse,
    ensures
        settings(config.config, config.subscriptions@[s]).max_per_region matches Some(most)
            ==> region_total(
            kept(
                config.config,
                config.subscriptions@,
                nodes.filter(answered()),
                config.subscriptions@.len() as int,
            ).filter(belongs_to(config.subscriptions@[s].name@)),
            region,
        ) <= most,
{
    let subs = config.subscriptions@;
    let left = nodes.filter(answered());
    let chosen = settings(config.config, subs[s]);
    lemma_airport_kept(config.config, subs, left, s, subs.len() as int);
    law_selection_caps_regions(
        left.filter(belongs_to(subs[s].name@)),
        subs[s].max_nodes->0,
        chosen.min_per_region,
        chosen.max_per_region,
        region,
    );
}

/// All that is kept of an airport is what its first subscription keeps.
proof fn lemma_airport_kept(
    config: Config,
    subs: Seq<Subscription>,
    nodes: Seq<NodeView>,
    s: int,
    upto: int,
)
    requires
        0 <= s < subs.len(),
        0 <= upto <= subs.len(),
        !named_before(subs, subs[s].name@, s),
    ensures
        kept(config, subs, nodes, upto).filter(belongs_to(subs[s].name@)) == (if s < upto {
            kept_by(config, subs, nodes, s)
        } else {
            Seq::empty()
        }),
    decreases upto,
{
    let pred = belongs_to(subs[s].name@);
    if upto == 0 {
        lemma_filter_nothing(Seq::empty(), pred);
    } else {
        let before = kept(config, subs, nodes, upto - 1);
        let mine = kept_by(config, subs, nodes, upto - 1);
        lemma_airport_kept(config, subs, nodes, s, upto - 1);
        Seq::filter_distributes_over_add(before, mine, pred);
        if subs[upto - 1].name@ == subs[s].name@ {
            if upto - 1 > s {
                assert(named_before(subs, subs[upto - 1].name@, upto - 1));
                lemma_filter_nothing(mine, pred);
            } else {
                assert(upto - 1 == s) by {
                    if upto - 1 < s {
                        assert(named_before(subs, subs[s].name@, s));
                    }
                }
                assert forall|i: int| 0 <= i < mine.len() implies pred(#[trigger] mine[i]) by {
                    lemma_kept_by(config, subs, nodes, s, i);
                }
                lemma_filter_all(mine, pred);
            }
        } else {
            assert forall|i: int| 0 <= i < mine.len() implies !pred(#[trigger] mine[i]) by {
                lemma_kept_by(config, subs, nodes, upto - 1, i);
            }
            lemma_filter_nothing(mine, pred);
        }
        assert(before.filter(pred) + mine.filter(pred) =~= (if s < upto {
            kept_by(config, subs, nodes, s)
        } else {
            Seq::empty()
        }));
    }
}

/// New names do not change how many nodes an airport has.
proof fn lemma_renamed_filter(nodes: Seq<NodeView>, name: Seq<char>)
    ensures
        renamed(nodes).filter(belongs_to(name)).len() == nodes.filter(belongs_to(name)).len(),
{
    lemma_same_airports(renamed(nodes), nodes, name);
}

proof fn lemma_same_airports(a: Seq<NodeView>, b: Seq<NodeView>, name: Seq<char>)
    requires
        a.len() == b.len(),
        forall|i: int|
            0 <= i < a.len() ==> (#[trigger] a[i]).group_name == (#[trigger] b[i]).group_name,
    ensures
        a.filter(belongs_to(name)).len() == b.filter(belongs_to(name)).len(),
    decreases a.len(),
{
    reveal(Seq::filter);
    if a.len() > 0 {
        assert(a[a.len() - 1].group_name == b[b.len() - 1].group_name);
        lemma_same_airports(a.drop_last(), b.drop_last(), name);
    }
}

/// What is recorded of a test is a node that was tested, with its answer.
proof fn lemma_tested(nodes: Seq<NodeView>, answers: Seq<Option<u64>>, i: int)
    requires
        0 <= i < tested(nodes, answers).len(),
    ensures
        exists|j: int|
            0 <= j < nodes.len() && answer_of(answers, j) is Some && tested(nodes, answers)[i] == (
            NodeView { latency: answer_of(answers, j), ..#[trigger] nodes[j] }),
    decreases nodes.len(),
{
    let shorter = nodes.drop_last();
    let before = tested(shorter, answers);
    if i < before.len() {
        lemma_tested(shorter, answers, i);
        let j = choose|j: int|
            0 <= j < shorter.len() && answer_of(answers, j) is Some && before[i] == (NodeView {
                latency: answer_of(answers, j),
                ..#[trigger] shorter[j]
            });
        assert(nodes[j] == shorter[j]);
    } else {
        assert(nodes[nodes.len() - 1] == nodes.last());
    }
}

/// Every node that is handed out was fetched, under a name that holds none of the keywords, and
/// nothing of it has changed but its name and its latency.
pub proof fn law_excluded_are_gone(
    config: AppConfig,
    fetched: Seq<NodeView>,
    answers: Seq<Option<u64>>,
    i: int,
)
    requires
        0 <= i < handed_out(
            config,
            tested(fetched.filter(not_excluded(config.config.exclude_keyword)), answers),
        ).len(),
    ensures
        exists|j: int|
            0 <= j < fetched.len() && not_excluded(config.config.exclude_keyword)(
                #[trigger] fetched[j],
            ) && ({
                let given = handed_out(
                    config,
                    tested(fetched.filter(not_excluded(config.config.exclude_keyword)), answers),
                )[i];
                given == (NodeView { name: given.name, latency: given.latency, ..fetched[j] })
            }),
{
    let pred = not_excluded(config.config.exclude_keyword);
    let left = fetched.filter(pred);
    let nodes = tested(left, answers);
    let given = handed_out(config, nodes)[i];
    law_handed_out_nodes(config, nodes, i);
    let k = choose|k: int|
        0 <= k < nodes.len() && given == (NodeView { name: given.name, ..#[trigger] nodes[k] });
    lemma_tested(left, answers, k);
    let m = choose|m: int|
        0 <= m < left.len() && answer_of(answers, m) is Some && nodes[k] == (NodeView {
            latency: answer_of(answers, m),
            ..#[trigger] left[m]
        });
    fetched.lemma_filter_pred(pred, m);
    fetched.lemma_filter_contains_rev(pred, left[m]);
    let j = choose|j: int| 0 <= j < fetched.len() && fetched[j] == left[m];
    assert(pred(fetched[j]));
    assert(given == (NodeView { name: given.name, latency: given.latency, ..fetched[j] }));
}

// ---------------------------------------------------------------------------
// Laws of the steps
// ---------------------------------------------------------------------------

proof fn lemma_same_filter(
    nodes: Seq<NodeView>,
    a: spec_fn(NodeView) -> bool,
    b: spec_fn(NodeView) -> bool,
)
    requires
        forall|i: int| 0 <= i < nodes.len() ==> a(#[trigger] nodes[i]) == b(nodes[i]),
    ensures
        nodes.filter(a) == nodes.filter(b),
    decreases nodes.len(),
{
    reveal(Seq::filter);
    if nodes.len() > 0 {
        let front = nodes.drop_last();
        assert forall|i: int| 0 <= i < front.len() implies a(#[trigger] front[i]) == b(
            front[i],
        ) by {
            assert(front[i] == nodes[i]);
        }
        lemma_same_filter(front, a, b);
        assert(nodes[nodes.len() - 1] == nodes.last());
    }
}

/// No keyword of the list stands anywhere in the name of a node that is left.
pub proof fn law_no_keyword_is_left(
    nodes: Seq<NodeView>,
    keywords: Vec<String>,
    i: int,
    k: int,
    before: Seq<char>,
    after: Seq<char>,
)
    requires
        0 <= i < nodes.filter(not_excluded(Some(keywords))).len(),
        0 <= k < keywords@.len(),
    ensures
        nodes.filter(not_excluded(Some(keywords)))[i].name != before + keywords@[k]@ + after,
{
    let node = nodes.filter(not_excluded(Some(keywords)))[i];
    nodes.lemma_filter_pred(not_excluded(Some(keywords)), i);
    if node.name == before + keywords@[k]@ + after {
        law_text_is_found(before, keywords@[k]@, after);
        assert(has_keyword(node.name, keywords@));
    }
}

/// Which nodes are left: exactly those in whose name none of the keywords stands, in their order;
/// without keywords all of them.
pub proof fn law_which_nodes_are_left(nodes: Seq<NodeView>, keywords: Option<Vec<String>>)
    ensures
        nodes.filter(not_excluded(keywords)) == nodes.filter(
            |node: NodeView|
                match keywords {
                    Some(list) => forall|k: int, before: Seq<char>, after: Seq<char>|
                        0 <= k < list@.len() ==> #[trigger] (before + list@[k]@ + after)
                            != node.name,
                    None => true,
                },
        ),
{
    let free = |node: NodeView|
        match keywords {
            Some(list) => forall|k: int, before: Seq<char>, after: Seq<char>|
                0 <= k < list@.len() ==> #[trigger] (before + list@[k]@ + after) != node.name,
            None => true,
        };
    assert forall|i: int| 0 <= i < nodes.len() implies not_excluded(keywords)(
        #[trigger] nodes[i],
    ) == free(nodes[i]) by {
        let name = nodes[i].name;
        if let Some(list) = keywords {
            if has_keyword(name, list@) {
                let k = choose|k: int|
                    0 <= k < list@.len() && contains_text(name, (#[trigger] list@[k])@);
                law_found_text_is_there(name, list@[k]@);
                let (before, after) = choose|before: Seq<char>, after: Seq<char>| #[trigger]
                    (before + list@[k]@ + after) == name;
                assert(before + list@[k]@ + after == name);
            } else {
                assert forall|k: int, before: Seq<char>, after: Seq<char>|
                    0 <= k < list@.len() implies #[trigger] (before + list@[k]@ + after)
                    != name by {
                    law_text_is_found(before, list@[k]@, after);
                    if before + list@[k]@ + after == name {
                        assert(contains_text(name, list@[k]@));
                    }
                }
            }
        }
    }
    lemma_same_filter(nodes, not_excluded(keywords), free);
}

/// What is left after a test: every node that answered, in order, with its answer as its latency
/// and otherwise unchanged.
pub proof fn law_every_answer_counts(nodes: Seq<NodeView>, answers: Seq<Option<u64>>)
    ensures
        tested(nodes, answers) == Seq::new(nodes.len(), |i: int| i).filter_map(
            |i: int|
                if i < answers.len() && answers[i] is Some {
                    Some(NodeView { latency: answers[i], ..nodes[i] })
                } else {
                    None
                },
        ),
{
    lemma_answers_upto(nodes, answers, nodes.len() as int);
    assert(nodes.take(nodes.len() as int) =~= nodes);
}

proof fn lemma_answers_upto(nodes: Seq<NodeView>, answers: Seq<Option<u64>>, upto: int)
    requires
        0 <= upto <= nodes.len(),
    ensures
        tested(nodes.take(upto), answers) == Seq::new(upto as nat, |i: int| i).filter_map(
            |i: int|
                if i < answers.len() && answers[i] is Some {
                    Some(NodeView { latency: answers[i], ..nodes[i] })
                } else {
                    None
                },
        ),
    decreases upto,
{
    let answered_by = |i: int|
        if i < answers.len() && answers[i] is Some {
            Some(NodeView { latency: answers[i], ..nodes[i] })
        } else {
            None
        };
    let indices = Seq::new(upto as nat, |i: int| i);
    if upto > 0 {
        lemma_answers_upto(nodes, answers, upto - 1);
        assert(nodes.take(upto).drop_last() =~= nodes.take(upto - 1));
        assert(indices.drop_last() =~= Seq::new((upto - 1) as nat, |i: int| i));
        let before = indices.drop_last().filter_map(answered_by);
        if let Some(node) = answered_by(upto - 1) {
            assert(before + seq![node] =~= before.push(node));
        }
    } else {
        assert(nodes.take(0) =~= Seq::<NodeView>::empty());
    }
}

/// What a subscription has to offer: the listed nodes, marked with its name and tier and
/// otherwise unchanged; none unless they were listed. Its traffic is what the header says of any
/// response that is a success.
pub proof fn law_what_a_fetch_yields(
    sub: Subscription,
    header: Option<String>,
    nodes: Vec<ProxyNode>,
    i: int,
)
    requires
        0 <= i < nodes@.len(),
    ensures
        ({
            let listed = FetchOutcome::Nodes { userinfo: header, nodes };
            let said = match header {
                Some(raw) => userinfo(raw@),
                None => None,
            };
            &&& labelled(outcome_nodes(listed), sub).len() == nodes@.len()
            &&& labelled(outcome_nodes(listed), sub)[i] == (NodeView {
                name: nodes@[i].name@,
                kind: nodes@[i].kind@,
                server: nodes@[i].server@,
                port: nodes@[i].port,
                source_tier: sub.tier,
                group_name: sub.name@,
                latency: nodes@[i].latency,
                other_fields: nodes@[i].other_fields@,
            })
            &&& labelled(outcome_nodes(FetchOutcome::NoResponse), sub).len() == 0
            &&& labelled(outcome_nodes(FetchOutcome::BadStatus), sub).len() == 0
            &&& labelled(outcome_nodes(FetchOutcome::NoText { userinfo: header }), sub).len() == 0
            &&& labelled(outcome_nodes(FetchOutcome::NotNodes { userinfo: header }), sub).len() == 0
            &&& header_traffic(outcome_header(listed)) == said
            &&& header_traffic(outcome_header(FetchOutcome::NoText { userinfo: header })) == said
            &&& header_traffic(outcome_header(FetchOutcome::NotNodes { userinfo: header })) == said
            &&& header_traffic(outcome_header(FetchOutcome::NoResponse)) is None
            &&& header_traffic(outcome_header(FetchOutcome::BadStatus)) is None
        }),
{
}

/// The nodes of all results stand one result behind the other, and every known traffic is listed
/// under its name.
pub proof fn law_all_results_count(results: Seq<FetchResult>)
    ensures
        fetched_nodes(results) == results.map_values(
            |result: FetchResult| node_views(result.nodes@),
        ).flatten(),
        fetched_traffic(results) == results.filter_map(
            |result: FetchResult|
                match result.traffic {
                    Some(traffic) => Some((result.name@, traffic)),
                    None => None,
                },
        ),
    decreases results.len(),
{
    let nodes = |result: FetchResult| node_views(result.nodes@);
    let entry = |result: FetchResult|
        match result.traffic {
            Some(traffic) => Some((result.name@, traffic)),
            None => None,
        };
    if results.len() > 0 {
        let front = results.drop_last();
        law_all_results_count(front);
        front.map_values(nodes).lemma_flatten_push(nodes(results.last()));
        assert(results.map_values(nodes) =~= front.map_values(nodes).push(nodes(results.last())));
        if let Some(known) = entry(results.last()) {
            assert(front.filter_map(entry) + seq![known] =~= front.filter_map(entry).push(known));
        }
    } else {
        assert(results.map_values(nodes).flatten() =~= Seq::<NodeView>::empty());
    }
}

/// The settings of a subscription: what it says itself, or else what holds for all, or else the
/// usual; never anything in between.
pub proof fn law_settings_in_order(config: Config, sub: Subscription)
    ensures
        settings(config, sub).limit == sub.max_nodes,
        sub.select_mode matches Some(mode) ==> settings(config, sub).mode == mode,
        sub.select_mode is None ==> (config.select_mode matches Some(mode) ==> settings(
            config,
            sub,
        ).mode == mode),
        sub.select_mode is None && config.select_mode is None ==> settings(config, sub).mode
            == SelectMode::RegionDiverse,
        sub.min_per_region matches Some(min) ==> settings(config, sub).min_per_region == min,
        sub.min_per_region is None ==> (config.min_per_region matches Some(min) ==> settings(
            config,
            sub,
        ).min_per_region == min),
        sub.min_per_region is None && config.min_per_region is None ==> settings(
            config,
            sub,
        ).min_per_region == 1,
        sub.max_per_region is Some ==> settings(config, sub).max_per_region == sub.max_per_region,
        sub.max_per_region is None ==> settings(config, sub).max_per_region
            == config.max_per_region,
{
}

/// The node without its name.
pub open spec fn unnamed() -> spec_fn(NodeView) -> NodeView {
    |node: NodeView| NodeView { name: Seq::empty(), ..node }
}

/// What is handed out of an airport, but for the names: the selection of the nodes that answered
/// and belong to it, by the settings of its first subscription, in the order of the selection.
pub proof fn law_airport_gets_its_selection(config: AppConfig, nodes: Seq<NodeView>, s: int)
    requires
        0 <= s < config.subscriptions@.len(),
        forall|t: int|
            0 <= t < s ==> (#[trigger] config.subscriptions@[t]).name@
                != config.subscriptions@[s].name@,
    ensures
        ({
            let sub = config.subscriptions@[s];
            let chosen = settings(config.config, sub);
            handed_out(config, nodes).filter(
                |node: NodeView| node.group_name == sub.name@,
            ).map_values(unnamed()) == selection(
                nodes.filter(
                    |node: NodeView| node.latency is Some && node.group_name == sub.name@,
                ),
                sub.max_nodes,
                chosen.mode,
                chosen.min_per_region,
                chosen.max_per_region,
            ).map_values(unnamed())
        }),
{
    let subs = config.subscriptions@;
    let name = subs[s].name@;
    let left = nodes.filter(answered());
    let all = kept(config.config, subs, left, subs.len() as int);
    assert(!named_before(subs, name, s));
    lemma_airport_kept(config.config, subs, left, s, subs.len() as int);
    lemma_renamed_airport(renamed(all), all, name);
    lemma_same_filter(
        handed_out(config, nodes),
        belongs_to(name),
        |node: NodeView| node.group_name == name,
    );
    let both = |node: NodeView| node.latency is Some && node.group_name == name;
    lemma_filter_twice(nodes, answered(), belongs_to(name), both);
}

proof fn lemma_renamed_airport(a: Seq<NodeView>, b: Seq<NodeView>, name: Seq<char>)
    requires
        a.len() == b.len(),
        forall|i: int| 0 <= i < a.len() ==> unnamed()(#[trigger] a[i]) == unnamed()(b[i]),
    ensures
        a.filter(belongs_to(name)).map_values(unnamed()) == b.filter(belongs_to(name)).map_values(
            unnamed(),
        ),
    decreases a.len(),
{
    reveal(Seq::filter);
    if a.len() > 0 {
        let (x, y) = (a.drop_last(), b.drop_last());
        assert forall|i: int| 0 <= i < x.len() implies unnamed()(#[trigger] x[i]) == unnamed()(
            y[i],
        ) by {
            assert(x[i] == a[i] && y[i] == b[i]);
        }
        lemma_renamed_airport(x, y, name);
        assert(unnamed()(a[a.len() - 1]) == unnamed()(b[b.len() - 1]));
        assert(unnamed()(a.last()).group_name == a.last().group_name);
        assert(unnamed()(b.last()).group_name == b.last().group_name);
        let pred = belongs_to(name);
        assert(x.filter(pred).push(a.last()).map_values(unnamed()) =~= x.filter(pred).map_values(
            unnamed(),
        ).push(unnamed()(a.last())));
        assert(y.filter(pred).push(b.last()).map_values(unnamed()) =~= y.filter(pred).map_values(
            unnamed(),
        ).push(unnamed()(b.last())));
    } else {
        assert(a =~= b);
    }
}

/// The airports are handed out in the order of their subscriptions: what stands before a node of
/// subscription `s` belongs to it or to an earlier one.
pub proof fn law_airports_in_order(
    config: AppConfig,
    nodes: Seq<NodeView>,
    i: int,
    j: int,
    s: int,
)
    requires
        0 <= i < j < handed_out(config, nodes).len(),
        0 <= s < config.subscriptions@.len(),
        config.subscriptions@[s].name@ == handed_out(config, nodes)[j].group_name,
    ensures
        exists|t: int|
            0 <= t <= s && (#[trigger] config.subscriptions@[t]).name@ == handed_out(
                config,
                nodes,
            )[i].group_name,
{
    let subs = config.subscriptions@;
    let left = nodes.filter(answered());
    lemma_kept_in_order(config.config, subs, left, subs.len() as int, i, j, s);
    let name = handed_out(config, nodes)[i].group_name;
    let t = choose|t: int| 0 <= t < s + 1 && (#[trigger] subs[t]).name@ == name;
    assert(subs[t].name@ == name);
}

proof fn lemma_kept_in_order(
    config: Config,
    subs: Seq<Subscription>,
    nodes: Seq<NodeView>,
    upto: int,
    i: int,
    j: int,
    s: int,
)
    requires
        0 <= upto <= subs.len(),
        0 <= i < j < kept(config, subs, nodes, upto).len(),
        0 <= s < subs.len(),
        subs[s].name@ == kept(config, subs, nodes, upto)[j].group_name,
    ensures
        named_before(subs, kept(config, subs, nodes, upto)[i].group_name, s + 1),
    decreases upto,
{
    let all = kept(config, subs, nodes, upto);
    let before = kept(config, subs, nodes, upto - 1);
    if j < before.len() {
        lemma_kept_in_order(config, subs, nodes, upto - 1, i, j, s);
    } else {
        lemma_kept_by(config, subs, nodes, upto - 1, j - before.len());
        assert(all[j].group_name == subs[upto - 1].name@);
        if s < upto - 1 {
            assert(named_before(subs, subs[upto - 1].name@, upto - 1));
        }
        if i < before.len() {
            lemma_kept(config, subs, nodes, upto - 1, i);
            let t = choose|t: int|
                0 <= t < upto - 1 && (#[trigger] subs[t]).name@ == all[i].group_name;
            assert(subs[t].name@ == all[i].group_name);
        } else {
            lemma_kept_by(config, subs, nodes, upto - 1, i - before.len());
            assert(subs[s].name@ == all[i].group_name);
        }
    }
}

/// The traffic of a name is that of the last entry for it; it is unknown exactly if there is no
/// entry.
pub proof fn law_last_traffic_counts(
    entries: Seq<(Seq<char>, SubscriptionTraffic)>,
    name: Seq<char>,
)
    ensures
        match traffic_of(entries, name) {
            Some(traffic) => exists|i: int|
                0 <= i < entries.len() && #[trigger] entries[i] == (name, traffic) && forall|j: int|
                    i < j < entries.len() ==> (#[trigger] entries[j]).0 != name,
            None => forall|j: int| 0 <= j < entries.len() ==> (#[trigger] entries[j]).0 != name,
        },
    decreases entries.len(),
{
    if entries.len() > 0 {
        let front = entries.drop_last();
        let last = entries.len() - 1;
        if entries.last().0 == name {
            assert(entries[last] == (name, entries.last().1));
        } else {
            law_last_traffic_counts(front, name);
            assert(entries[last].0 != name);
            match traffic_of(front, name) {
                Some(traffic) => {
                    let i = choose|i: int|
                        0 <= i < front.len() && #[trigger] front[i] == (name, traffic) && forall|
                            j: int,
                        |
                            i < j < front.len() ==> (#[trigger] front[j]).0 != name;
                    assert(entries[i] == front[i]);
                    assert forall|j: int| i < j < entries.len() implies (#[trigger] entries[j]).0
                        != name by {
                        if j < last {
                            assert(front[j] == entries[j]);
                        }
                    }
                },
                None => {
                    assert forall|j: int| 0 <= j < entries.len() implies (
                    #[trigger] entries[j]).0 != name by {
                        if j < last {
                            assert(front[j] == entries[j]);
                        }
                    }
                },
            }
        }
    }
}

/// There is a label for every subscription whose traffic is known, in their order.
pub proof fn law_every_known_traffic_is_shown(
    subs: Seq<Subscription>,
    entries: Seq<(Seq<char>, SubscriptionTraffic)>,
)
    ensures
        labels(subs, entries) == subs.filter_map(
            |sub: Subscription|
                match traffic_of(entries, sub.name@) {
                    Some(traffic) => Some(traffic_label(sub.name@, traffic)),
                    None => None,
                },
        ),
    decreases subs.len(),
{
    let label = |sub: Subscription|
        match traffic_of(entries, sub.name@) {
            Some(traffic) => Some(traffic_label(sub.name@, traffic)),
            None => None,
        };
    if subs.len() > 0 {
        let front = subs.drop_last();
        law_every_known_traffic_is_shown(front, entries);
        if let Some(text) = label(subs.last()) {
            assert(front.filter_map(label) + seq![text] =~= front.filter_map(label).push(text));
        }
    }
}

/// The proxies are the nodes that are handed out, followed by a local one for each label that
/// bears it as its name.
pub proof fn law_proxies(
    config: AppConfig,
    nodes: Seq<NodeView>,
    entries: Seq<(Seq<char>, SubscriptionTraffic)>,
)
    ensures
        out_proxies(config, nodes, entries) == handed_out(config, nodes) + labels(
            config.subscriptions@,
            entries,
        ).map_values(
            |label: Seq<char>|
                NodeView {
                    name: label,
                    kind: "socks5"@,
                    server: "127.0.0.1"@,
                    port: 1,
                    source_tier: SubscriptionTier::Backup,
                    group_name: "订阅信息"@,
                    latency: None,
                    other_fields: Map::empty(),
                },
        ),
{
}

/// The groups are those of the subscriptions that a handed-out node belongs to, with all such
/// nodes and all labels; every node that is handed out is a member of the group of its airport.
pub proof fn law_every_node_is_offered(
    config: AppConfig,
    nodes: Seq<NodeView>,
    entries: Seq<(Seq<char>, SubscriptionTraffic)>,
    i: int,
)
    requires
        0 <= i < handed_out(config, nodes).len(),
    ensures
        out_groups(config, nodes, entries) == all_groups(
            config.subscriptions@.filter(
                |sub: Subscription|
                    exists|n: int|
                        0 <= n < handed_out(config, nodes).len() && (#[trigger] handed_out(
                            config,
                            nodes,
                        )[n]).group_name == sub.name@,
            ).map_values(|sub: Subscription| AirportView { name: sub.name@, tier: sub.tier }),
            handed_out(config, nodes),
            labels(config.subscriptions@, entries),
        ),
        exists|g: int|
            0 <= g < out_groups(config, nodes, entries).len() && (#[trigger] out_groups(
                config,
                nodes,
                entries,
            )[g]).name == handed_out(config, nodes)[i].group_name && out_groups(
                config,
                nodes,
                entries,
            )[g].proxies.contains(handed_out(config, nodes)[i].name),
{
    let subs = config.subscriptions@;
    let given = handed_out(config, nodes);
    let airports = alive(subs, given);
    law_airports_are_the_live_subscriptions(subs, given);
    law_handed_out_nodes(config, nodes, i);
    let s = choose|s: int|
        0 <= s < subs.len() && (#[trigger] subs[s]).name@ == given[i].group_name;
    let live = |sub: Subscription|
        exists|n: int| 0 <= n < given.len() && (#[trigger] given[n]).group_name == sub.name@;
    assert(live(subs[s])) by {
        assert(given[i].group_name == subs[s].name@);
    }
    subs.lemma_filter_contains(live, s);
    let a = choose|a: int| 0 <= a < subs.filter(live).len() && subs.filter(live)[a] == subs[s];
    assert(airports[a].name == given[i].group_name);
    law_node_is_in_its_group(airports, given, labels(subs, entries), a, i);
    let groups = out_groups(config, nodes, entries);
    let g = choose|g: int|
        0 <= g < groups.len() && (#[trigger] groups[g]).name == given[i].group_name
            && groups[g].proxies.contains(given[i].name);
    assert(groups[g].name == given[i].group_name);
}

/// What contracts speak of in place of traffic by name keeps every entry, in its place.
pub proof fn law_traffic_views_are_complete(entries: Seq<(String, SubscriptionTraffic)>, i: int)
    ensures
        traffic_views(entries).len() == entries.len(),
        0 <= i < entries.len() ==> traffic_views(entries)[i] == (entries[i].0@, entries[i].1),
{
}

/// The subscription `s` is the first of its name.
pub open spec fn is_first(subs: Seq<Subscription>, s: int) -> bool {
    0 <= s < subs.len() && forall|t: int| 0 <= t < s ==> (#[trigger] subs[t]).name@ != subs[s].name@
}

/// What is handed out is renamed as a whole: there are nodes of which each airport has its
/// selection, and they get their new names together.
pub proof fn law_selections_are_renamed_together(config: AppConfig, nodes: Seq<NodeView>)
    ensures
        exists|chosen: Seq<NodeView>|
            #[trigger] renamed(chosen) == handed_out(config, nodes) && forall|s: int|
                #[trigger] is_first(config.subscriptions@, s) ==> chosen.filter(
                    |node: NodeView| node.group_name == config.subscriptions@[s].name@,
                ) == selection(
                    nodes.filter(
                        |node: NodeView|
                            node.latency is Some && node.group_name
                                == config.subscriptions@[s].name@,
                    ),
                    config.subscriptions@[s].max_nodes,
                    settings(config.config, config.subscriptions@[s]).mode,
                    settings(config.config, config.subscriptions@[s]).min_per_region,
                    settings(config.config, config.subscriptions@[s]).max_per_region,
                ),
{
    let subs = config.subscriptions@;
    let left = nodes.filter(answered());
    let all = kept(config.config, subs, left, subs.len() as int);
    assert(renamed(all) == handed_out(config, nodes));
    assert forall|s: int| #[trigger] is_first(subs, s) implies all.filter(
        |node: NodeView| node.group_name == subs[s].name@,
    ) == selection(
        nodes.filter(|node: NodeView| node.latency is Some && node.group_name == subs[s].name@),
        subs[s].max_nodes,
        settings(config.config, subs[s]).mode,
        settings(config.config, subs[s]).min_per_region,
        settings(config.config, subs[s]).max_per_region,
    ) by {
        let name = subs[s].name@;
        assert(!named_before(subs, name, s));
        lemma_airport_kept(config.config, subs, left, s, subs.len() as int);
        lemma_same_filter(all, belongs_to(name), |node: NodeView| node.group_name == name);
        let both = |node: NodeView| node.latency is Some && node.group_name == name;
        lemma_filter_twice(nodes, answered(), belongs_to(name), both);
    }
}

} // verus!
