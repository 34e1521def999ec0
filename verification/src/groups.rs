//! The groups that the kept nodes are handed out in.
use crate::model::field_views;
use crate::model::group_views;
use crate::model::node_views;
use crate::model::text_views;
use crate::model::GroupView;
use crate::model::NodeView;
use crate::model::ProxyGroup;
use crate::model::ProxyNode;
use crate::model::Subscription;
use crate::model::SubscriptionTier;
use crate::text::same_text;
use crate::text::text_before;
use crate::yaml::bool_value;
use crate::yaml::number_value;
use crate::yaml::string_value;
use crate::yaml::yaml_bool;
use crate::yaml::yaml_number;
use crate::yaml::yaml_string;
use serde_yaml::Value;
use vstd::prelude::*;

verus! {

/// The group that a user picks from; its first member is what is used until then.
pub const SELECT_GROUP: &'static str = "节点选择";

/// The group of all airports of the standard tier, by speed.
pub const AUTO_GROUP: &'static str = "自动选择";

/// The group that goes on to the next member when one fails.
pub const FALLBACK_GROUP: &'static str = "故障转移";

/// The group that shows what the airports say of their traffic.
pub const INFO_GROUP: &'static str = "订阅信息";

/// The address that speed tests fetch.
pub const TEST_URL: &'static str = "http://www.YouTube.com";

// ---------------------------------------------------------------------------
// Airports
// ---------------------------------------------------------------------------

/// A subscription that has nodes to offer.
#[derive(Debug)]
pub struct Airport {
    pub name: String,
    pub tier: SubscriptionTier,
}

/// What an `Airport` holds.
#[verifier::ext_equal]
pub struct AirportView {
    pub name: Seq<char>,
    pub tier: SubscriptionTier,
}

impl View for Airport {
    type V = AirportView;

    open spec fn view(&self) -> AirportView {
        AirportView { name: self.name@, tier: self.tier }
    }
}

/// What each of `airports` holds.
pub open spec fn airport_views(airports: Seq<Airport>) -> Seq<AirportView> {
    airports.map_values(|airport: Airport| airport@)
}

/// Some node belongs to the airport `name`.
pub open spec fn has_node(nodes: Seq<NodeView>, name: Seq<char>) -> bool {
    exists|i: int| 0 <= i < nodes.len() && (#[trigger] nodes[i]).group_name == name
}

/// The subscriptions that some node belongs to, in their order.
pub open spec fn alive(subs: Seq<Subscription>, nodes: Seq<NodeView>) -> Seq<AirportView>
    decreases subs.len(),
{
    if subs.len() == 0 {
        Seq::empty()
    } else {
        let before = alive(subs.drop_last(), nodes);
        if has_node(nodes, subs.last().name@) {
            before.push(AirportView { name: subs.last().name@, tier: subs.last().tier })
        } else {
            before
        }
    }
}

/// The names of the airports, in their order.
pub open spec fn airport_names(airports: Seq<AirportView>) -> Seq<Seq<char>> {
    airports.map_values(|airport: AirportView| airport.name)
}

/// The names of the airports of one tier, in their order.
pub open spec fn names_of_tier(airports: Seq<AirportView>, tier: SubscriptionTier) -> Seq<Seq<char>>
    decreases airports.len(),
{
    if airports.len() == 0 {
        Seq::empty()
    } else {
        let before = names_of_tier(airports.drop_last(), tier);
        if airports.last().tier == tier {
            before.push(airports.last().name)
        } else {
            before
        }
    }
}

/// `list`, followed by the names of the airports that are not of the standard tier, each where
/// it is not in the list already.
pub open spec fn with_missing(list: Seq<Seq<char>>, airports: Seq<AirportView>) -> Seq<Seq<char>>
    decreases airports.len(),
{
    if airports.len() == 0 {
        list
    } else {
        let before = with_missing(list, airports.drop_last());
        let last = airports.last();
        if last.tier != SubscriptionTier::Standard && !before.contains(last.name) {
            before.push(last.name)
        } else {
            before
        }
    }
}

/// The names of the nodes of one airport, in their order.
pub open spec fn node_names_of(nodes: Seq<NodeView>, airport: Seq<char>) -> Seq<Seq<char>>
    decreases nodes.len(),
{
    if nodes.len() == 0 {
        Seq::empty()
    } else {
        let before = node_names_of(nodes.drop_last(), airport);
        if nodes.last().group_name == airport {
            before.push(nodes.last().name)
        } else {
            before
        }
    }
}

/// Whether some node belongs to the airport `name`.
fn any_node(nodes: &Vec<ProxyNode>, name: &str) -> (any: bool)
    ensures
        any == has_node(node_views(nodes@), name@),
{
    let ghost views = node_views(nodes@);
    for i in 0..nodes.len()
        invariant
            views == node_views(nodes@),
            forall|j: int| 0 <= j < i ==> (#[trigger] views[j]).group_name != name@,
    {
        assert(views[i as int] == nodes@[i as int]@);
        if same_text(nodes[i].group_name.as_str(), name) {
            return true;
        }
    }
    false
}

/// The subscriptions that some node belongs to, in their order.
pub fn alive_airports(subs: &Vec<Subscription>, nodes: &Vec<ProxyNode>) -> (airports: Vec<Airport>)
    ensures
        airport_views(airports@) == alive(subs@, node_views(nodes@)),
{
    let mut airports: Vec<Airport> = Vec::new();
    let ghost views = node_views(nodes@);
    assert(airport_views(airports@) =~= alive(subs@.take(0), views));
    for i in 0..subs.len()
        invariant
            views == node_views(nodes@),
            airport_views(airports@) == alive(subs@.take(i as int), views),
    {
        let ghost before = airports@;
        assert(subs@.take(i + 1).drop_last() =~= subs@.take(i as int));
        if any_node(nodes, subs[i].name.as_str()) {
            airports.push(Airport { name: subs[i].name.clone(), tier: subs[i].tier });
            assert(airport_views(airports@) =~= airport_views(before).push(airports@.last()@));
        }
    }
    assert(subs@.take(subs@.len() as int) =~= subs@);
    airports
}

/// The names of the airports of one tier, in their order.
fn tier_names(airports: &Vec<Airport>, tier: SubscriptionTier) -> (names: Vec<String>)
    ensures
        text_views(names@) == names_of_tier(airport_views(airports@), tier),
{
    let mut names: Vec<String> = Vec::new();
    let ghost views = airport_views(airports@);
    assert(text_views(names@) =~= names_of_tier(views.take(0), tier));
    for i in 0..airports.len()
        invariant
            views == airport_views(airports@),
            text_views(names@) == names_of_tier(views.take(i as int), tier),
    {
        let ghost before = names@;
        assert(views.take(i + 1).drop_last() =~= views.take(i as int));
        assert(views.take(i + 1).last() == airports@[i as int]@);
        if airports[i].tier == tier {
            names.push(airports[i].name.clone());
            assert(text_views(names@) =~= text_views(before).push(names@.last()@));
        }
    }
    assert(views.take(views.len() as int) =~= views);
    names
}

/// The names of the nodes of one airport, in their order.
fn names_in_airport(nodes: &Vec<ProxyNode>, airport: &str) -> (names: Vec<String>)
    ensures
        text_views(names@) == node_names_of(node_views(nodes@), airport@),
{
    let mut names: Vec<String> = Vec::new();
    let ghost views = node_views(nodes@);
    assert(text_views(names@) =~= node_names_of(views.take(0), airport@));
    for i in 0..nodes.len()
        invariant
            views == node_views(nodes@),
            text_views(names@) == node_names_of(views.take(i as int), airport@),
    {
        let ghost before = names@;
        assert(views.take(i + 1).drop_last() =~= views.take(i as int));
        assert(views.take(i + 1).last() == nodes@[i as int]@);
        if same_text(nodes[i].group_name.as_str(), airport) {
            names.push(nodes[i].name.clone());
            assert(text_views(names@) =~= text_views(before).push(names@.last()@));
        }
    }
    assert(views.take(views.len() as int) =~= views);
    names
}

/// Whether `name` is in the list.
fn is_listed(list: &Vec<String>, name: &str) -> (listed: bool)
    ensures
        listed == text_views(list@).contains(name@),
{
    let ghost views = text_views(list@);
    for i in 0..list.len()
        invariant
            views == text_views(list@),
            forall|j: int| 0 <= j < i ==> views[j] != name@,
    {
        assert(views[i as int] == list@[i as int]@);
        if same_text(list[i].as_str(), name) {
            return true;
        }
    }
    false
}

/// Puts a name behind the others.
fn push_name(list: &mut Vec<String>, name: &str)
    ensures
        text_views(final(list)@) == text_views(old(list)@).push(name@),
{
    let ghost before = list@;
    list.push(name.to_owned());
    assert(text_views(list@) =~= text_views(before).push(name@));
}

/// Puts names behind the others.
fn push_names(list: &mut Vec<String>, names: &Vec<String>)
    ensures
        text_views(final(list)@) == text_views(old(list)@) + text_views(names@),
{
    let ghost given = text_views(list@);
    let ghost views = text_views(names@);
    assert(given =~= given + views.take(0));
    for i in 0..names.len()
        invariant
            views == text_views(names@),
            text_views(list@) == given + views.take(i as int),
    {
        push_name(list, names[i].as_str());
        assert((given + views.take(i as int)).push(views[i as int]) =~= given + views.take(i + 1));
    }
    assert(views.take(views.len() as int) =~= views);
}

// ---------------------------------------------------------------------------
// Fields
// ---------------------------------------------------------------------------

/// The keys are in ascending order, so none stands twice.
pub open spec fn fields_ordered(fields: Seq<(Seq<char>, Value)>) -> bool {
    forall|i: int, j: int|
        0 <= i < j < fields.len() ==> text_before(
            (#[trigger] fields[i]).0,
            (#[trigger] fields[j]).0,
        )
}

/// The fields of a group that is tested for speed.
pub open spec fn url_test(interval: u64, tolerance: u64) -> Seq<(Seq<char>, Value)> {
    seq![
        ("interval"@, yaml_number(interval)),
        ("tolerance"@, yaml_number(tolerance)),
        ("url"@, yaml_string(TEST_URL@)),
    ]
}

/// The fields of a group that goes on when a member fails.
pub open spec fn fallback_test() -> Seq<(Seq<char>, Value)> {
    seq![
        ("interval"@, yaml_number(700)),
        ("lazy"@, yaml_bool(true)),
        ("url"@, yaml_string(TEST_URL@)),
    ]
}

/// The fields of a group that is tested for speed, in ascending order of their keys.
pub fn url_test_fields(interval: u64, tolerance: u64) -> (fields: Vec<(String, Value)>)
    ensures
        field_views(fields@) == url_test(interval, tolerance),
        fields_ordered(field_views(fields@)),
{
    proof {
        lemma_fields_ordered(interval, tolerance);
    }
    let mut fields: Vec<(String, Value)> = Vec::new();
    fields.push(("interval".to_owned(), number_value(interval)));
    fields.push(("tolerance".to_owned(), number_value(tolerance)));
    fields.push(("url".to_owned(), string_value(TEST_URL)));
    assert(field_views(fields@) =~= url_test(interval, tolerance));
    fields
}

/// The fields of a group that goes on when a member fails, in ascending order of their keys.
fn fallback_fields() -> (fields: Vec<(String, Value)>)
    ensures
        field_views(fields@) == fallback_test(),
{
    let mut fields: Vec<(String, Value)> = Vec::new();
    fields.push(("interval".to_owned(), number_value(700)));
    fields.push(("lazy".to_owned(), bool_value(true)));
    fields.push(("url".to_owned(), string_value(TEST_URL)));
    assert(field_views(fields@) =~= fallback_test());
    fields
}

proof fn lemma_fields_ordered(interval: u64, tolerance: u64)
    ensures
        fields_ordered(url_test(interval, tolerance)),
        fields_ordered(fallback_test()),
{
    reveal_strlit("interval");
    reveal_strlit("tolerance");
    reveal_strlit("lazy");
    reveal_strlit("url");
    assert(text_before("interval"@, "tolerance"@));
    assert(text_before("interval"@, "lazy"@));
    assert(text_before("interval"@, "url"@));
    assert(text_before("tolerance"@, "url"@));
    assert(text_before("lazy"@, "url"@));
}

// ---------------------------------------------------------------------------
// Groups
// ---------------------------------------------------------------------------

/// A group without further fields.
pub open spec fn plain_group(name: Seq<char>, proxies: Seq<Seq<char>>) -> GroupView {
    GroupView { name, kind: "select"@, proxies, other_fields: Seq::empty() }
}

/// A group whose fastest member is used.
pub open spec fn speed_group(name: Seq<char>, proxies: Seq<Seq<char>>) -> GroupView {
    GroupView { name, kind: "url-test"@, proxies, other_fields: url_test(600, 200) }
}

/// The airports of the standard tier.
pub open spec fn auto_members(airports: Seq<AirportView>) -> Seq<Seq<char>> {
    names_of_tier(airports, SubscriptionTier::Standard)
}

/// `AUTO_GROUP`, if that group has members.
pub open spec fn auto_if_any(airports: Seq<AirportView>) -> Seq<Seq<char>> {
    if auto_members(airports).len() > 0 {
        seq![AUTO_GROUP@]
    } else {
        Seq::empty()
    }
}

/// `FALLBACK_GROUP`, `AUTO_GROUP` if there is one, every airport, and no proxy at all.
pub open spec fn select_members(airports: Seq<AirportView>) -> Seq<Seq<char>> {
    seq![FALLBACK_GROUP@] + auto_if_any(airports) + airport_names(airports) + seq!["DIRECT"@]
}

/// `AUTO_GROUP` if there is one, the premium airports, then those that are not covered yet.
pub open spec fn fallback_members(airports: Seq<AirportView>) -> Seq<Seq<char>> {
    with_missing(
        auto_if_any(airports) + names_of_tier(airports, SubscriptionTier::Premium),
        airports,
    )
}

/// The premium airports, and `FALLBACK_GROUP` if none of them is called so.
pub open spec fn llm_members(airports: Seq<AirportView>) -> Seq<Seq<char>> {
    let premium = names_of_tier(airports, SubscriptionTier::Premium);
    if premium.contains(FALLBACK_GROUP@) {
        premium
    } else {
        premium.push(FALLBACK_GROUP@)
    }
}

/// One group for each airport that has nodes.
pub open spec fn airport_groups(airports: Seq<AirportView>, nodes: Seq<NodeView>) -> Seq<GroupView>
    decreases airports.len(),
{
    if airports.len() == 0 {
        Seq::empty()
    } else {
        let before = airport_groups(airports.drop_last(), nodes);
        let name = airports.last().name;
        let proxies = node_names_of(nodes, name);
        if proxies.len() > 0 {
            before.push(speed_group(name, proxies))
        } else {
            before
        }
    }
}

/// The groups that every configuration starts with.
pub open spec fn leading_groups(airports: Seq<AirportView>) -> Seq<GroupView> {
    seq![plain_group(SELECT_GROUP@, select_members(airports))] + (if auto_members(airports).len()
        > 0 {
        seq![speed_group(AUTO_GROUP@, auto_members(airports))]
    } else {
        Seq::empty()
    }) + seq![
        GroupView {
            name: FALLBACK_GROUP@,
            kind: "fallback"@,
            proxies: fallback_members(airports),
            other_fields: fallback_test(),
        },
        plain_group("LLM"@, llm_members(airports)),
        plain_group("Steam"@, seq!["DIRECT"@]),
    ]
}

/// The group that shows `labels`, if there are any.
pub open spec fn info_group(labels: Seq<Seq<char>>) -> Seq<GroupView> {
    if labels.len() > 0 {
        seq![plain_group(INFO_GROUP@, labels)]
    } else {
        Seq::empty()
    }
}

/// All groups, in their order.
pub open spec fn all_groups(
    airports: Seq<AirportView>,
    nodes: Seq<NodeView>,
    labels: Seq<Seq<char>>,
) -> Seq<GroupView> {
    leading_groups(airports) + info_group(labels) + airport_groups(airports, nodes)
}

/// Puts a group behind the others.
fn push_group(
    groups: &mut Vec<ProxyGroup>,
    name: &str,
    kind: &str,
    proxies: Vec<String>,
    other_fields: Vec<(String, Value)>,
)
    ensures
        group_views(final(groups)@) == group_views(old(groups)@).push(
            GroupView {
                name: name@,
                kind: kind@,
                proxies: text_views(proxies@),
                other_fields: field_views(other_fields@),
            },
        ),
{
    let ghost before = groups@;
    groups.push(
        ProxyGroup { name: name.to_owned(), kind: kind.to_owned(), proxies, other_fields },
    );
    assert(group_views(groups@) =~= group_views(before).push(groups@.last()@));
}

/// Puts a group without further fields behind the others.
fn push_plain_group(groups: &mut Vec<ProxyGroup>, name: &str, proxies: Vec<String>)
    ensures
        group_views(final(groups)@) == group_views(old(groups)@).push(
            plain_group(name@, text_views(proxies@)),
        ),
{
    let none: Vec<(String, Value)> = Vec::new();
    assert(field_views(none@) =~= Seq::<(Seq<char>, Value)>::empty());
    push_group(groups, name, "select", proxies, none);
}

/// The members of `SELECT_GROUP`.
fn make_select_members(airports: &Vec<Airport>, has_auto: bool) -> (names: Vec<String>)
    requires
        has_auto == (auto_members(airport_views(airports@)).len() > 0),
    ensures
        text_views(names@) == select_members(airport_views(airports@)),
{
    let ghost views = airport_views(airports@);
    let mut names: Vec<String> = Vec::new();
    assert(text_views(names@) =~= Seq::<Seq<char>>::empty());
    push_name(&mut names, FALLBACK_GROUP);
    if has_auto {
        push_name(&mut names, AUTO_GROUP);
    }
    let ghost start = seq![FALLBACK_GROUP@] + auto_if_any(views);
    assert(text_views(names@) =~= start + airport_names(views).take(0));
    for i in 0..airports.len()
        invariant
            views == airport_views(airports@),
            text_views(names@) == start + airport_names(views).take(i as int),
    {
        push_name(&mut names, airports[i].name.as_str());
        assert(airport_names(views)[i as int] == airports@[i as int]@.name);
        assert((start + airport_names(views).take(i as int)).push(airports@[i as int].name@)
            =~= start + airport_names(views).take(i + 1));
    }
    assert(airport_names(views).take(views.len() as int) =~= airport_names(views));
    push_name(&mut names, "DIRECT");
    assert(text_views(names@) =~= select_members(views));
    names
}

/// The members of `FALLBACK_GROUP`.
fn make_fallback_members(
    airports: &Vec<Airport>,
    has_auto: bool,
    premium: &Vec<String>,
) -> (names: Vec<String>)
    requires
        has_auto == (auto_members(airport_views(airports@)).len() > 0),
        text_views(premium@) == names_of_tier(
            airport_views(airports@),
            SubscriptionTier::Premium,
        ),
    ensures
        text_views(names@) == fallback_members(airport_views(airports@)),
{
    let ghost views = airport_views(airports@);
    let mut names: Vec<String> = Vec::new();
    assert(text_views(names@) =~= Seq::<Seq<char>>::empty());
    if has_auto {
        push_name(&mut names, AUTO_GROUP);
    }
    assert(text_views(names@) =~= auto_if_any(views));
    push_names(&mut names, premium);
    let ghost start = auto_if_any(views) + text_views(premium@);
    assert(views.take(0) =~= Seq::<AirportView>::empty());
    for i in 0..airports.len()
        invariant
            views == airport_views(airports@),
            text_views(names@) == with_missing(start, views.take(i as int)),
    {
        assert(views.take(i + 1).drop_last() =~= views.take(i as int));
        assert(views.take(i + 1).last() == airports@[i as int]@);
        if airports[i].tier != SubscriptionTier::Standard && !is_listed(
            &names,
            airports[i].name.as_str(),
        ) {
            push_name(&mut names, airports[i].name.as_str());
        }
    }
    assert(views.take(views.len() as int) =~= views);
    names
}

/// All groups, in their order.
pub fn build_groups(
    airports: &Vec<Airport>,
    nodes: &Vec<ProxyNode>,
    labels: Vec<String>,
) -> (groups: Vec<ProxyGroup>)
    ensures
        group_views(groups@) == all_groups(
            airport_views(airports@),
            node_views(nodes@),
            text_views(labels@),
        ),
{
    let ghost views = airport_views(airports@);
    let ghost node_list = node_views(nodes@);
    let auto = tier_names(airports, SubscriptionTier::Standard);
    let premium = tier_names(airports, SubscriptionTier::Premium);
    let has_auto: bool = auto.len() > 0;
    assert(text_views(auto@).len() == auto@.len());
    let fallback = make_fallback_members(airports, has_auto, &premium);
    let mut groups: Vec<ProxyGroup> = Vec::new();
    assert(group_views(groups@) =~= Seq::<GroupView>::empty());
    push_plain_group(&mut groups, SELECT_GROUP, make_select_members(airports, has_auto));
    if has_auto {
        push_group(&mut groups, AUTO_GROUP, "url-test", auto, url_test_fields(600, 200));
    }
    push_group(&mut groups, FALLBACK_GROUP, "fallback", fallback, fallback_fields());
    let mut llm = premium;
    if !is_listed(&llm, FALLBACK_GROUP) {
        push_name(&mut llm, FALLBACK_GROUP);
    }
    push_plain_group(&mut groups, "LLM", llm);
    let mut steam: Vec<String> = Vec::new();
    assert(text_views(steam@) =~= Seq::<Seq<char>>::empty());
    push_name(&mut steam, "DIRECT");
    assert(text_views(steam@) =~= seq!["DIRECT"@]);
    push_plain_group(&mut groups, "Steam", steam);
    assert(group_views(groups@) =~= leading_groups(views));
    assert(text_views(labels@).len() == labels@.len());
    let ghost shown = text_views(labels@);
    if labels.len() > 0 {
        push_plain_group(&mut groups, INFO_GROUP, labels);
    }
    let ghost start = leading_groups(views) + info_group(shown);
    assert(group_views(groups@) =~= start + airport_groups(views.take(0), node_list));
    for i in 0..airports.len()
        invariant
            views == airport_views(airports@),
            node_list == node_views(nodes@),
            group_views(groups@) == start + airport_groups(views.take(i as int), node_list),
    {
        assert(views.take(i + 1).drop_last() =~= views.take(i as int));
        assert(views.take(i + 1).last() == airports@[i as int]@);
        let name = airports[i].name.as_str();
        let proxies = names_in_airport(nodes, name);
        assert(text_views(proxies@).len() == proxies@.len());
        if proxies.len() > 0 {
            let ghost before = airport_groups(views.take(i as int), node_list);
            let ghost added = speed_group(name@, text_views(proxies@));
            push_group(&mut groups, name, "url-test", proxies, url_test_fields(600, 200));
            assert((start + before).push(added) =~= start + before.push(added));
        }
    }
    assert(views.take(views.len() as int) =~= views);
    groups
}

// ---------------------------------------------------------------------------
// Laws of the groups
// ---------------------------------------------------------------------------

/// What a user gets without choosing is `FALLBACK_GROUP`: the first member of the first group.
pub proof fn law_default_is_fallback(
    airports: Seq<AirportView>,
    nodes: Seq<NodeView>,
    labels: Seq<Seq<char>>,
)
    ensures
        all_groups(airports, nodes, labels).len() > 0,
        all_groups(airports, nodes, labels)[0].name == SELECT_GROUP@,
        all_groups(airports, nodes, labels)[0].proxies.len() > 0,
        all_groups(airports, nodes, labels)[0].proxies[0] == FALLBACK_GROUP@,
{
}

/// The labels are shown in a group of their own and change no other group.
pub proof fn law_labels_stay_apart(
    airports: Seq<AirportView>,
    nodes: Seq<NodeView>,
    labels: Seq<Seq<char>>,
)
    ensures
        ({
            let groups = all_groups(airports, nodes, labels);
            let without = all_groups(airports, nodes, Seq::empty());
            let at = leading_groups(airports).len() as int;
            if labels.len() > 0 {
                &&& groups.len() == without.len() + 1
                &&& groups[at] == plain_group(INFO_GROUP@, labels)
                &&& groups.remove(at) == without
            } else {
                groups == without
            }
        }),
{
    let groups = all_groups(airports, nodes, labels);
    let without = all_groups(airports, nodes, Seq::empty());
    let at = leading_groups(airports).len() as int;
    if labels.len() > 0 {
        assert(groups.remove(at) =~= without);
    } else {
        assert(groups =~= without);
    }
}

proof fn lemma_with_missing_keeps(list: Seq<Seq<char>>, airports: Seq<AirportView>)
    ensures
        with_missing(list, airports).len() >= list.len(),
        with_missing(list, airports).take(list.len() as int) == list,
    decreases airports.len(),
{
    if airports.len() > 0 {
        lemma_with_missing_keeps(list, airports.drop_last());
        let before = with_missing(list, airports.drop_last());
        assert(with_missing(list, airports).take(list.len() as int) =~= before.take(
            list.len() as int,
        ));
    } else {
        assert(list.take(list.len() as int) =~= list);
    }
}

/// Every airport is reached by `FALLBACK_GROUP`: one of the standard tier through `AUTO_GROUP`,
/// any other by its own name.
pub proof fn law_fallback_reaches_all(airports: Seq<AirportView>, i: int)
    requires
        0 <= i < airports.len(),
    ensures
        airports[i].tier == SubscriptionTier::Standard ==> auto_members(airports).contains(
            airports[i].name,
        ) && fallback_members(airports).contains(AUTO_GROUP@),
        airports[i].tier != SubscriptionTier::Standard ==> fallback_members(airports).contains(
            airports[i].name,
        ),
{
    let start = auto_if_any(airports) + names_of_tier(airports, SubscriptionTier::Premium);
    lemma_with_missing_keeps(start, airports);
    if airports[i].tier == SubscriptionTier::Standard {
        lemma_tier_listed(airports, i);
        assert(fallback_members(airports).take(start.len() as int)[0] == AUTO_GROUP@);
        assert(fallback_members(airports)[0] == AUTO_GROUP@);
    } else {
        lemma_missing_listed(start, airports, i);
    }
}

proof fn lemma_tier_listed(airports: Seq<AirportView>, i: int)
    requires
        0 <= i < airports.len(),
    ensures
        names_of_tier(airports, airports[i].tier).contains(airports[i].name),
    decreases airports.len(),
{
    let names = names_of_tier(airports, airports[i].tier);
    if i == airports.len() - 1 {
        assert(names[names.len() - 1] == airports[i].name);
    } else {
        lemma_tier_listed(airports.drop_last(), i);
        let before = names_of_tier(airports.drop_last(), airports[i].tier);
        let p = choose|p: int| 0 <= p < before.len() && before[p] == airports[i].name;
        assert(names[p] == airports[i].name);
    }
}

proof fn lemma_missing_listed(list: Seq<Seq<char>>, airports: Seq<AirportView>, i: int)
    requires
        0 <= i < airports.len(),
        airports[i].tier != SubscriptionTier::Standard,
    ensures
        with_missing(list, airports).contains(airports[i].name),
    decreases airports.len(),
{
    let all = with_missing(list, airports);
    let before = with_missing(list, airports.drop_last());
    if i == airports.len() - 1 {
        if !before.contains(airports[i].name) {
            assert(all[all.len() - 1] == airports[i].name);
        }
    } else {
        lemma_missing_listed(list, airports.drop_last(), i);
        let p = choose|p: int| 0 <= p < before.len() && before[p] == airports[i].name;
        assert(all[p] == airports[i].name);
    }
}

/// An airport has a node exactly if it has a name to list.
proof fn lemma_node_names(nodes: Seq<NodeView>, airport: Seq<char>)
    ensures
        has_node(nodes, airport) <==> node_names_of(nodes, airport).len() > 0,
        forall|p: int|
            0 <= p < node_names_of(nodes, airport).len() ==> exists|i: int|
                0 <= i < nodes.len() && (#[trigger] nodes[i]).name == #[trigger] node_names_of(
                    nodes,
                    airport,
                )[p] && nodes[i].group_name == airport,
    decreases nodes.len(),
{
    if nodes.len() > 0 {
        let front = nodes.drop_last();
        let before = node_names_of(front, airport);
        let names = node_names_of(nodes, airport);
        lemma_node_names(front, airport);
        if has_node(front, airport) {
            let i = choose|i: int| 0 <= i < front.len() && (#[trigger] front[i]).group_name == airport;
            assert(nodes[i].group_name == airport);
        }
        if has_node(nodes, airport) && nodes.last().group_name != airport {
            let i = choose|i: int| 0 <= i < nodes.len() && (#[trigger] nodes[i]).group_name == airport;
            assert(front[i].group_name == airport);
        }
        if nodes.last().group_name == airport {
            assert(nodes[nodes.len() - 1].group_name == airport);
        }
        assert forall|p: int| 0 <= p < names.len() implies exists|i: int|
            0 <= i < nodes.len() && (#[trigger] nodes[i]).name == #[trigger] names[p]
                && nodes[i].group_name == airport by {
            if p < before.len() {
                assert(names[p] == before[p]);
                let i = choose|i: int|
                    0 <= i < front.len() && (#[trigger] front[i]).name == before[p]
                        && front[i].group_name == airport;
                assert(nodes[i].name == names[p]);
            } else {
                assert(nodes[nodes.len() - 1].name == names[p]);
            }
        }
    }
}

/// The airports all have nodes.
pub open spec fn all_have_nodes(airports: Seq<AirportView>, nodes: Seq<NodeView>) -> bool {
    forall|i: int| 0 <= i < airports.len() ==> has_node(nodes, (#[trigger] airports[i]).name)
}

/// The subscriptions that are alive have nodes, and only they.
pub proof fn law_alive_have_nodes(subs: Seq<Subscription>, nodes: Seq<NodeView>)
    ensures
        all_have_nodes(alive(subs, nodes), nodes),
        forall|s: int|
            0 <= s < subs.len() && has_node(nodes, (#[trigger] subs[s]).name@) ==> alive(
                subs,
                nodes,
            ).contains(AirportView { name: subs[s].name@, tier: subs[s].tier }),
    decreases subs.len(),
{
    if subs.len() > 0 {
        let front = subs.drop_last();
        let before = alive(front, nodes);
        let all = alive(subs, nodes);
        law_alive_have_nodes(front, nodes);
        assert forall|i: int| 0 <= i < all.len() implies has_node(
            nodes,
            (#[trigger] all[i]).name,
        ) by {
            if i < before.len() {
                assert(all[i] == before[i]);
            }
        }
        assert forall|s: int|
            0 <= s < subs.len() && has_node(
                nodes,
                (#[trigger] subs[s]).name@,
            ) implies all.contains(AirportView { name: subs[s].name@, tier: subs[s].tier }) by {
            let view = AirportView { name: subs[s].name@, tier: subs[s].tier };
            if s == subs.len() - 1 {
                assert(all[all.len() - 1] == view);
            } else {
                assert(front[s] == subs[s]);
                let p = choose|p: int| 0 <= p < before.len() && before[p] == view;
                assert(all[p] == view);
            }
        }
    }
}

/// With airports that have nodes, there is one group for each.
proof fn lemma_airport_groups(airports: Seq<AirportView>, nodes: Seq<NodeView>)
    requires
        all_have_nodes(airports, nodes),
    ensures
        airport_groups(airports, nodes).len() == airports.len(),
        forall|i: int|
            0 <= i < airports.len() ==> #[trigger] airport_groups(airports, nodes)[i]
                == speed_group(airports[i].name, node_names_of(nodes, airports[i].name)),
    decreases airports.len(),
{
    if airports.len() > 0 {
        let front = airports.drop_last();
        assert forall|i: int| 0 <= i < front.len() implies has_node(
            nodes,
            (#[trigger] front[i]).name,
        ) by {
            assert(front[i] == airports[i]);
        }
        lemma_airport_groups(front, nodes);
        assert(has_node(nodes, airports[airports.len() - 1].name));
        lemma_node_names(nodes, airports.last().name);
        let before = airport_groups(front, nodes);
        let all = airport_groups(airports, nodes);
        assert forall|i: int| 0 <= i < airports.len() implies #[trigger] all[i] == speed_group(
            airports[i].name,
            node_names_of(nodes, airports[i].name),
        ) by {
            if i < front.len() {
                assert(all[i] == before[i]);
                assert(front[i] == airports[i]);
            }
        }
    }
}

/// With an airport there is no group without members.
pub proof fn law_no_group_is_empty(
    airports: Seq<AirportView>,
    nodes: Seq<NodeView>,
    labels: Seq<Seq<char>>,
    g: int,
)
    requires
        airports.len() > 0,
        all_have_nodes(airports, nodes),
        0 <= g < all_groups(airports, nodes, labels).len(),
    ensures
        all_groups(airports, nodes, labels)[g].proxies.len() > 0,
{
    let leading = leading_groups(airports);
    let shown = info_group(labels);
    let groups = all_groups(airports, nodes, labels);
    lemma_airport_groups(airports, nodes);
    if g < leading.len() {
        assert(groups[g] == leading[g]);
        law_fallback_reaches_all(airports, 0);
        assert(fallback_members(airports).len() > 0);
        assert(select_members(airports).len() > 0);
        assert(llm_members(airports).len() > 0) by {
            let premium = names_of_tier(airports, SubscriptionTier::Premium);
            if premium.contains(FALLBACK_GROUP@) {
                assert(premium.len() > 0);
            }
        }
    } else if g < leading.len() + shown.len() {
        assert(groups[g] == shown[g - leading.len()]);
    } else {
        let i = g - leading.len() - shown.len();
        assert(groups[g] == airport_groups(airports, nodes)[i]);
        assert(has_node(nodes, airports[i].name));
        lemma_node_names(nodes, airports[i].name);
    }
}

/// A member of a group stands for something: no proxy at all, a group, a node or a label.
pub open spec fn is_known(
    groups: Seq<GroupView>,
    nodes: Seq<NodeView>,
    labels: Seq<Seq<char>>,
    member: Seq<char>,
) -> bool {
    ||| member == "DIRECT"@
    ||| exists|g: int| 0 <= g < groups.len() && (#[trigger] groups[g]).name == member
    ||| exists|i: int| 0 <= i < nodes.len() && (#[trigger] nodes[i]).name == member
    ||| labels.contains(member)
}

proof fn lemma_tier_names_known(airports: Seq<AirportView>, tier: SubscriptionTier, p: int)
    requires
        0 <= p < names_of_tier(airports, tier).len(),
    ensures
        exists|i: int|
            0 <= i < airports.len() && (#[trigger] airports[i]).name == names_of_tier(
                airports,
                tier,
            )[p],
    decreases airports.len(),
{
    let front = airports.drop_last();
    let before = names_of_tier(front, tier);
    let names = names_of_tier(airports, tier);
    if p < before.len() {
        lemma_tier_names_known(front, tier, p);
        let i = choose|i: int| 0 <= i < front.len() && (#[trigger] front[i]).name == before[p];
        assert(airports[i].name == names[p]);
    } else {
        assert(airports[airports.len() - 1].name == names[p]);
    }
}

proof fn lemma_missing_known(list: Seq<Seq<char>>, airports: Seq<AirportView>, p: int)
    requires
        0 <= p < with_missing(list, airports).len(),
    ensures
        list.contains(with_missing(list, airports)[p]) || exists|i: int|
            0 <= i < airports.len() && (#[trigger] airports[i]).name == with_missing(
                list,
                airports,
            )[p],
    decreases airports.len(),
{
    let all = with_missing(list, airports);
    if airports.len() == 0 {
        assert(list[p] == all[p]);
    } else {
        let front = airports.drop_last();
        let before = with_missing(list, front);
        if p < before.len() {
            lemma_missing_known(list, front, p);
            assert(all[p] == before[p]);
            if !list.contains(all[p]) {
                let i = choose|i: int|
                    0 <= i < front.len() && (#[trigger] front[i]).name == before[p];
                assert(airports[i].name == all[p]);
            }
        } else {
            assert(airports[airports.len() - 1].name == all[p]);
        }
    }
}

/// Every member of every group stands for something that is there.
pub proof fn law_members_are_known(
    airports: Seq<AirportView>,
    nodes: Seq<NodeView>,
    labels: Seq<Seq<char>>,
    g: int,
    p: int,
)
    requires
        all_have_nodes(airports, nodes),
        0 <= g < all_groups(airports, nodes, labels).len(),
        0 <= p < all_groups(airports, nodes, labels)[g].proxies.len(),
    ensures
        is_known(
            all_groups(airports, nodes, labels),
            nodes,
            labels,
            all_groups(airports, nodes, labels)[g].proxies[p],
        ),
{
    let leading = leading_groups(airports);
    let shown = info_group(labels);
    let own = airport_groups(airports, nodes);
    let groups = all_groups(airports, nodes, labels);
    let member = groups[g].proxies[p];
    lemma_airport_groups(airports, nodes);
    assert forall|i: int| 0 <= i < airports.len() implies is_known(
        groups,
        nodes,
        labels,
        (#[trigger] airports[i]).name,
    ) by {
        assert(groups[leading.len() + shown.len() + i] == own[i]);
    }
    let has_auto = auto_members(airports).len() > 0;
    assert(is_known(groups, nodes, labels, FALLBACK_GROUP@)) by {
        let at: int = if has_auto {
            2
        } else {
            1
        };
        assert(groups[at].name == FALLBACK_GROUP@);
    }
    assert(has_auto ==> is_known(groups, nodes, labels, AUTO_GROUP@)) by {
        if has_auto {
            assert(groups[1].name == AUTO_GROUP@);
        }
    }
    if g < leading.len() {
        assert(groups[g] == leading[g]);
        lemma_leading_member(airports, g, p);
    } else if g < leading.len() + shown.len() {
        assert(groups[g] == shown[g - leading.len()]);
        assert(labels[p] == member);
    } else {
        let i = g - leading.len() - shown.len();
        assert(groups[g] == own[i]);
        lemma_node_names(nodes, airports[i].name);
        assert(node_names_of(nodes, airports[i].name)[p] == member);
    }
}

/// What a member of a leading group is.
proof fn lemma_leading_member(airports: Seq<AirportView>, g: int, p: int)
    requires
        0 <= g < leading_groups(airports).len(),
        0 <= p < leading_groups(airports)[g].proxies.len(),
    ensures
        ({
            let member = leading_groups(airports)[g].proxies[p];
            ||| member == "DIRECT"@
            ||| member == FALLBACK_GROUP@
            ||| member == AUTO_GROUP@ && auto_members(airports).len() > 0
            ||| exists|i: int| 0 <= i < airports.len() && (#[trigger] airports[i]).name == member
        }),
{
    let group = leading_groups(airports)[g];
    let member = group.proxies[p];
    let has_auto = auto_members(airports).len() > 0;
    let premium = names_of_tier(airports, SubscriptionTier::Premium);
    let start = auto_if_any(airports) + premium;
    let fallback_at: int = if has_auto {
        2
    } else {
        1
    };
    if g == 0 {
        let names = airport_names(airports);
        let first = 1 + auto_if_any(airports).len();
        if first <= p < first + names.len() {
            assert(member == names[p - first]);
            assert(airports[p - first].name == member);
        }
    } else if g < fallback_at {
        lemma_tier_names_known(airports, SubscriptionTier::Standard, p);
    } else if g == fallback_at {
        lemma_missing_known(start, airports, p);
        if start.contains(member) {
            let q = choose|q: int| 0 <= q < start.len() && start[q] == member;
            if q >= auto_if_any(airports).len() {
                assert(premium[q - auto_if_any(airports).len()] == member);
                lemma_tier_names_known(
                    airports,
                    SubscriptionTier::Premium,
                    q - auto_if_any(airports).len(),
                );
            }
        }
    } else if g == fallback_at + 1 {
        if p < premium.len() {
            assert(premium[p] == member);
            lemma_tier_names_known(airports, SubscriptionTier::Premium, p);
        }
    }
}

/// The further fields of every group are in ascending order of their keys.
pub proof fn law_group_fields_ordered(
    airports: Seq<AirportView>,
    nodes: Seq<NodeView>,
    labels: Seq<Seq<char>>,
    g: int,
)
    requires
        0 <= g < all_groups(airports, nodes, labels).len(),
    ensures
        fields_ordered(all_groups(airports, nodes, labels)[g].other_fields),
{
    let leading = leading_groups(airports);
    let shown = info_group(labels);
    let groups = all_groups(airports, nodes, labels);
    lemma_fields_ordered(600, 200);
    if g < leading.len() {
        assert(groups[g] == leading[g]);
    } else if g < leading.len() + shown.len() {
        assert(groups[g] == shown[g - leading.len()]);
    } else {
        lemma_airport_group_fields(airports, nodes, g - leading.len() - shown.len());
    }
}

proof fn lemma_airport_group_fields(airports: Seq<AirportView>, nodes: Seq<NodeView>, g: int)
    requires
        0 <= g < airport_groups(airports, nodes).len(),
    ensures
        airport_groups(airports, nodes)[g].other_fields == url_test(600, 200),
    decreases airports.len(),
{
    let before = airport_groups(airports.drop_last(), nodes);
    if g < before.len() {
        lemma_airport_group_fields(airports.drop_last(), nodes, g);
    }
}

/// The names in an airport's group are those of all its nodes, each once and in their order.
pub proof fn law_group_lists_all_nodes(nodes: Seq<NodeView>, airport: Seq<char>)
    ensures
        node_names_of(nodes, airport) == nodes.filter(
            |node: NodeView| node.group_name == airport,
        ).map_values(|node: NodeView| node.name),
    decreases nodes.len(),
{
    reveal(Seq::filter);
    let own = |node: NodeView| node.group_name == airport;
    let name = |node: NodeView| node.name;
    if nodes.len() > 0 {
        let front = nodes.drop_last();
        law_group_lists_all_nodes(front, airport);
        if own(nodes.last()) {
            assert(front.filter(own).push(nodes.last()).map_values(name) =~= front.filter(
                own,
            ).map_values(name).push(nodes.last().name));
        }
    } else {
        assert(nodes.filter(own).map_values(name) =~= Seq::<Seq<char>>::empty());
    }
}

/// The airports are the subscriptions that a node belongs to, all of them and in their order.
pub proof fn law_airports_are_the_live_subscriptions(subs: Seq<Subscription>, nodes: Seq<NodeView>)
    ensures
        alive(subs, nodes) == subs.filter(
            |sub: Subscription|
                exists|i: int|
                    0 <= i < nodes.len() && (#[trigger] nodes[i]).group_name == sub.name@,
        ).map_values(|sub: Subscription| AirportView { name: sub.name@, tier: sub.tier }),
    decreases subs.len(),
{
    reveal(Seq::filter);
    let live = |sub: Subscription|
        exists|i: int| 0 <= i < nodes.len() && (#[trigger] nodes[i]).group_name == sub.name@;
    let view = |sub: Subscription| AirportView { name: sub.name@, tier: sub.tier };
    if subs.len() > 0 {
        let front = subs.drop_last();
        law_airports_are_the_live_subscriptions(front, nodes);
        assert(live(subs.last()) == has_node(nodes, subs.last().name@));
        if live(subs.last()) {
            assert(front.filter(live).push(subs.last()).map_values(view) =~= front.filter(
                live,
            ).map_values(view).push(view(subs.last())));
        }
    } else {
        assert(subs.filter(live).map_values(view) =~= Seq::<AirportView>::empty());
    }
}

/// The names of one tier are those of all airports of that tier, in their order.
pub proof fn law_tier_lists_all_airports(airports: Seq<AirportView>, tier: SubscriptionTier)
    ensures
        names_of_tier(airports, tier) == airports.filter(
            |airport: AirportView| airport.tier == tier,
        ).map_values(|airport: AirportView| airport.name),
    decreases airports.len(),
{
    reveal(Seq::filter);
    let own = |airport: AirportView| airport.tier == tier;
    let name = |airport: AirportView| airport.name;
    if airports.len() > 0 {
        let front = airports.drop_last();
        law_tier_lists_all_airports(front, tier);
        if own(airports.last()) {
            assert(front.filter(own).push(airports.last()).map_values(name) =~= front.filter(
                own,
            ).map_values(name).push(airports.last().name));
        }
    } else {
        assert(airports.filter(own).map_values(name) =~= Seq::<Seq<char>>::empty());
    }
}

/// Behind a list come the airports of the other tiers that are missing in it, each once.
proof fn lemma_missing(list: Seq<Seq<char>>, airports: Seq<AirportView>)
    ensures
        with_missing(list, airports) == airports.filter(
            |airport: AirportView| airport.tier != SubscriptionTier::Standard,
        ).map_values(|airport: AirportView| airport.name).remove_duplicates(list),
    decreases airports.len(),
{
    reveal(Seq::filter);
    let other = |airport: AirportView| airport.tier != SubscriptionTier::Standard;
    let name = |airport: AirportView| airport.name;
    if airports.len() > 0 {
        let front = airports.drop_last();
        let last = airports.last();
        lemma_missing(list, front);
        let names = front.filter(other).map_values(name);
        if other(last) {
            assert(airports.filter(other).map_values(name) =~= names + seq![last.name]);
            names.lemma_remove_duplicates_append(last.name, list);
            names.lemma_remove_duplicates_properties(list);
            assert((names + list).contains(last.name) <==> names.remove_duplicates(list).contains(
                last.name,
            ));
            assert(names.remove_duplicates(list) + seq![last.name] =~= names.remove_duplicates(
                list,
            ).push(last.name));
        }
    } else {
        assert(airports.filter(other).map_values(name) =~= Seq::<Seq<char>>::empty());
        assert(Seq::<Seq<char>>::empty().remove_duplicates(list) == list);
    }
}

/// Which groups there are, in their order, with all their members. `AUTO_GROUP` is there, and
/// counted on, exactly if an airport is of the standard tier. `SELECT_GROUP` offers every airport.
/// `FALLBACK_GROUP` goes through the standard tier, the premium airports and those of the last
/// tier. Every airport with a node has a group of all its nodes. Labels are shown if there are
/// any.
pub proof fn law_groups_and_members(
    airports: Seq<AirportView>,
    nodes: Seq<NodeView>,
    labels: Seq<Seq<char>>,
)
    ensures
        ({
            let name = |airport: AirportView| airport.name;
            let standard = airports.filter(
                |airport: AirportView| airport.tier == SubscriptionTier::Standard,
            ).map_values(name);
            let premium = airports.filter(
                |airport: AirportView| airport.tier == SubscriptionTier::Premium,
            ).map_values(name);
            let others = airports.filter(
                |airport: AirportView| airport.tier != SubscriptionTier::Standard,
            ).map_values(name);
            let auto = if standard.len() > 0 {
                seq!["自动选择"@]
            } else {
                Seq::empty()
            };
            let plain = Seq::<(Seq<char>, Value)>::empty();
            let tested = seq![
                ("interval"@, yaml_number(600)),
                ("tolerance"@, yaml_number(200)),
                ("url"@, yaml_string("http://www.YouTube.com"@)),
            ];
            let select = GroupView {
                name: "节点选择"@,
                kind: "select"@,
                proxies: seq!["故障转移"@] + auto + airports.map_values(name) + seq!["DIRECT"@],
                other_fields: plain,
            };
            let speed = GroupView {
                name: "自动选择"@,
                kind: "url-test"@,
                proxies: standard,
                other_fields: tested,
            };
            let fallback = GroupView {
                name: "故障转移"@,
                kind: "fallback"@,
                proxies: others.remove_duplicates(auto + premium),
                other_fields: seq![
                    ("interval"@, yaml_number(700)),
                    ("lazy"@, yaml_bool(true)),
                    ("url"@, yaml_string("http://www.YouTube.com"@)),
                ],
            };
            let llm = GroupView {
                name: "LLM"@,
                kind: "select"@,
                proxies: if premium.contains("故障转移"@) {
                    premium
                } else {
                    premium.push("故障转移"@)
                },
                other_fields: plain,
            };
            let steam = GroupView {
                name: "Steam"@,
                kind: "select"@,
                proxies: seq!["DIRECT"@],
                other_fields: plain,
            };
            let shown = GroupView {
                name: "订阅信息"@,
                kind: "select"@,
                proxies: labels,
                other_fields: plain,
            };
            let own = airports.filter(
                |airport: AirportView|
                    nodes.filter(|node: NodeView| node.group_name == airport.name).len() > 0,
            ).map_values(
                |airport: AirportView|
                    GroupView {
                        name: airport.name,
                        kind: "url-test"@,
                        proxies: nodes.filter(
                            |node: NodeView| node.group_name == airport.name,
                        ).map_values(|node: NodeView| node.name),
                        other_fields: tested,
                    },
            );
            all_groups(airports, nodes, labels) == seq![select] + (if standard.len() > 0 {
                seq![speed]
            } else {
                Seq::empty()
            }) + seq![fallback, llm, steam] + (if labels.len() > 0 {
                seq![shown]
            } else {
                Seq::empty()
            }) + own
        }),
{
    law_tier_lists_all_airports(airports, SubscriptionTier::Standard);
    law_tier_lists_all_airports(airports, SubscriptionTier::Premium);
    lemma_missing(
        auto_if_any(airports) + names_of_tier(airports, SubscriptionTier::Premium),
        airports,
    );
    lemma_groups_of_airports(airports, nodes);
}

proof fn lemma_groups_of_airports(airports: Seq<AirportView>, nodes: Seq<NodeView>)
    ensures
        airport_groups(airports, nodes) == airports.filter(
            |airport: AirportView|
                nodes.filter(|node: NodeView| node.group_name == airport.name).len() > 0,
        ).map_values(
            |airport: AirportView|
                GroupView {
                    name: airport.name,
                    kind: "url-test"@,
                    proxies: nodes.filter(
                        |node: NodeView| node.group_name == airport.name,
                    ).map_values(|node: NodeView| node.name),
                    other_fields: url_test(600, 200),
                },
        ),
    decreases airports.len(),
{
    reveal(Seq::filter);
    let peopled = |airport: AirportView|
        nodes.filter(|node: NodeView| node.group_name == airport.name).len() > 0;
    let group = |airport: AirportView|
        GroupView {
            name: airport.name,
            kind: "url-test"@,
            proxies: nodes.filter(|node: NodeView| node.group_name == airport.name).map_values(
                |node: NodeView| node.name,
            ),
            other_fields: url_test(600, 200),
        };
    if airports.len() > 0 {
        let front = airports.drop_last();
        let last = airports.last();
        lemma_groups_of_airports(front, nodes);
        law_group_lists_all_nodes(nodes, last.name);
        if peopled(last) {
            assert(front.filter(peopled).push(last).map_values(group) =~= front.filter(
                peopled,
            ).map_values(group).push(group(last)));
        }
    } else {
        assert(airports.filter(peopled).map_values(group) =~= Seq::<GroupView>::empty());
    }
}

/// The fields of a speed test hold the given interval and tolerance, whatever they are.
pub proof fn law_speed_test_fields(interval: u64, tolerance: u64)
    ensures
        url_test(interval, tolerance).len() == 3,
        url_test(interval, tolerance).contains(("interval"@, yaml_number(interval))),
        url_test(interval, tolerance).contains(("tolerance"@, yaml_number(tolerance))),
        url_test(interval, tolerance).contains(("url"@, yaml_string("http://www.YouTube.com"@))),
{
    let fields = url_test(interval, tolerance);
    assert(fields[0] == ("interval"@, yaml_number(interval)));
    assert(fields[1] == ("tolerance"@, yaml_number(tolerance)));
    assert(fields[2] == ("url"@, yaml_string("http://www.YouTube.com"@)));
}

/// Every node is a member of the group of its airport.
pub proof fn law_node_is_in_its_group(
    airports: Seq<AirportView>,
    nodes: Seq<NodeView>,
    labels: Seq<Seq<char>>,
    a: int,
    i: int,
)
    requires
        0 <= a < airports.len(),
        0 <= i < nodes.len(),
        airports[a].name == nodes[i].group_name,
    ensures
        exists|g: int|
            0 <= g < all_groups(airports, nodes, labels).len() && (#[trigger] all_groups(
                airports,
                nodes,
                labels,
            )[g]).name == nodes[i].group_name && all_groups(
                airports,
                nodes,
                labels,
            )[g].proxies.contains(nodes[i].name),
{
    let name = airports[a].name;
    let own = airport_groups(airports, nodes);
    let groups = all_groups(airports, nodes, labels);
    lemma_group_of_airport(airports, nodes, a, i);
    let o = choose|o: int|
        0 <= o < own.len() && #[trigger] own[o] == speed_group(name, node_names_of(nodes, name));
    let g = leading_groups(airports).len() + info_group(labels).len() + o;
    assert(groups[g] == own[o]);
    let mine = |node: NodeView| node.group_name == name;
    law_group_lists_all_nodes(nodes, name);
    nodes.lemma_filter_contains(mine, i);
    let q = choose|q: int| 0 <= q < nodes.filter(mine).len() && nodes.filter(mine)[q] == nodes[i];
    assert(node_names_of(nodes, name)[q] == nodes[i].name);
    assert(groups[g].proxies.contains(nodes[i].name));
}

proof fn lemma_group_of_airport(airports: Seq<AirportView>, nodes: Seq<NodeView>, a: int, i: int)
    requires
        0 <= a < airports.len(),
        0 <= i < nodes.len(),
        airports[a].name == nodes[i].group_name,
    ensures
        exists|o: int|
            0 <= o < airport_groups(airports, nodes).len() && #[trigger] airport_groups(
                airports,
                nodes,
            )[o] == speed_group(airports[a].name, node_names_of(nodes, airports[a].name)),
    decreases airports.len(),
{
    let front = airports.drop_last();
    let before = airport_groups(front, nodes);
    let all = airport_groups(airports, nodes);
    let name = airports[a].name;
    if a < front.len() {
        lemma_group_of_airport(front, nodes, a, i);
        let o = choose|o: int|
            0 <= o < before.len() && #[trigger] before[o] == speed_group(
                name,
                node_names_of(nodes, name),
            );
        assert(all[o] == before[o]);
    } else {
        let mine = |node: NodeView| node.group_name == name;
        law_group_lists_all_nodes(nodes, name);
        nodes.lemma_filter_contains(mine, i);
        assert(all[before.len() as int] == speed_group(name, node_names_of(nodes, name)));
    }
}

/// What contracts speak of in place of airports leaves nothing of them out.
pub proof fn law_airport_views_are_complete(airports: Seq<Airport>, i: int)
    ensures
        airport_views(airports).len() == airports.len(),
        0 <= i < airports.len() ==> airport_views(airports)[i] == (AirportView {
            name: airports[i].name@,
            tier: airports[i].tier,
        }),
{
}

} // verus!
