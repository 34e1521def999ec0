//! Nodes in the order of their latency.
use crate::model::node_views;
use crate::model::NodeView;
use crate::model::ProxyNode;
use vstd::prelude::*;

verus! {

/// The latency that a node is ordered by: one that never answered comes last.
pub open spec fn latency_key(node: NodeView) -> u64 {
    match node.latency {
        Some(latency) => latency,
        None => u64::MAX,
    }
}

/// The latency that `node` is ordered by.
pub fn node_latency(node: &ProxyNode) -> (key: u64)
    ensures
        key == latency_key(node@),
{
    match node.latency {
        Some(latency) => latency,
        None => u64::MAX,
    }
}

/// `sorted` with `node` put behind every node that is not slower.
pub open spec fn insert_by_latency(sorted: Seq<NodeView>, node: NodeView) -> Seq<NodeView>
    decreases sorted.len(),
{
    if sorted.len() == 0 || latency_key(sorted.last()) <= latency_key(node) {
        sorted.push(node)
    } else {
        insert_by_latency(sorted.drop_last(), node).push(sorted.last())
    }
}

/// `nodes` in ascending order of latency; nodes of the same latency keep their order.
pub open spec fn by_latency(nodes: Seq<NodeView>) -> Seq<NodeView>
    decreases nodes.len(),
{
    if nodes.len() == 0 {
        nodes
    } else {
        insert_by_latency(by_latency(nodes.drop_last()), nodes.last())
    }
}

/// No node of `nodes` is slower than one behind it.
pub open spec fn ascending(nodes: Seq<NodeView>) -> bool {
    forall|i: int, j: int|
        0 <= i <= j < nodes.len() ==> latency_key(#[trigger] nodes[i]) <= latency_key(
            #[trigger] nodes[j],
        )
}

/// The nodes of one latency, in their order.
pub open spec fn of_latency(nodes: Seq<NodeView>, latency: u64) -> Seq<NodeView>
    decreases nodes.len(),
{
    if nodes.len() == 0 {
        nodes
    } else if latency_key(nodes.last()) == latency {
        of_latency(nodes.drop_last(), latency).push(nodes.last())
    } else {
        of_latency(nodes.drop_last(), latency)
    }
}

proof fn lemma_insert_ascending(sorted: Seq<NodeView>, node: NodeView)
    requires
        ascending(sorted),
    ensures
        ascending(insert_by_latency(sorted, node)),
        insert_by_latency(sorted, node).len() == sorted.len() + 1,
        insert_by_latency(sorted, node).to_multiset() == sorted.to_multiset().insert(node),
        insert_by_latency(sorted, node).last() == node || (sorted.len() > 0 && insert_by_latency(
            sorted,
            node,
        ).last() == sorted.last()),
    decreases sorted.len(),
{
    broadcast use vstd::seq_lib::group_to_multiset_ensures;

    if sorted.len() == 0 || latency_key(sorted.last()) <= latency_key(node) {
        assert(sorted.push(node).to_multiset() =~= sorted.to_multiset().insert(node));
    } else {
        let front = sorted.drop_last();
        lemma_insert_ascending(front, node);
        let inserted = insert_by_latency(front, node);
        assert(sorted =~= front.push(sorted.last()));
        assert(inserted.push(sorted.last()).to_multiset() =~= sorted.to_multiset().insert(node));
    }
}

proof fn lemma_insert_of_latency(sorted: Seq<NodeView>, node: NodeView, latency: u64)
    requires
        ascending(sorted),
    ensures
        of_latency(insert_by_latency(sorted, node), latency) == (if latency_key(node) == latency {
            of_latency(sorted, latency).push(node)
        } else {
            of_latency(sorted, latency)
        }),
    decreases sorted.len(),
{
    if sorted.len() == 0 || latency_key(sorted.last()) <= latency_key(node) {
        assert(sorted.push(node).drop_last() =~= sorted);
    } else {
        let front = sorted.drop_last();
        lemma_insert_of_latency(front, node, latency);
        let inserted = insert_by_latency(front, node);
        assert(inserted.push(sorted.last()).drop_last() =~= inserted);
    }
}

/// Sorting by latency orders the nodes, loses none and adds none, and keeps the order of nodes
/// that are equally fast.
pub proof fn law_by_latency_is_a_stable_sort(nodes: Seq<NodeView>)
    ensures
        ascending(by_latency(nodes)),
        by_latency(nodes).len() == nodes.len(),
        by_latency(nodes).to_multiset() == nodes.to_multiset(),
        forall|latency: u64|
            #![trigger of_latency(nodes, latency)]
            of_latency(by_latency(nodes), latency) == of_latency(nodes, latency),
    decreases nodes.len(),
{
    broadcast use vstd::seq_lib::group_to_multiset_ensures;

    if nodes.len() > 0 {
        let front = nodes.drop_last();
        law_by_latency_is_a_stable_sort(front);
        lemma_insert_ascending(by_latency(front), nodes.last());
        assert(nodes =~= front.push(nodes.last()));
        assert forall|latency: u64| of_latency(by_latency(nodes), latency) == #[trigger] of_latency(
            nodes,
            latency,
        ) by {
            lemma_insert_of_latency(by_latency(front), nodes.last(), latency);
            assert(of_latency(front, latency) == of_latency(by_latency(front), latency));
        }
    }
}

/// A node put in at `at`, between those that are not slower and those that are, stands where
/// `insert_by_latency` puts it.
proof fn lemma_insert_at(sorted: Seq<NodeView>, node: NodeView, at: int)
    requires
        0 <= at <= sorted.len(),
        at > 0 ==> latency_key(sorted[at - 1]) <= latency_key(node),
        forall|j: int| at <= j < sorted.len() ==> latency_key(#[trigger] sorted[j]) > latency_key(node),
    ensures
        insert_by_latency(sorted, node) == sorted.insert(at, node),
    decreases sorted.len(),
{
    if at == sorted.len() {
        assert(sorted.insert(at, node) =~= sorted.push(node));
    } else {
        assert(latency_key(sorted[sorted.len() - 1]) > latency_key(node));
        lemma_insert_at(sorted.drop_last(), node, at);
        assert(sorted.insert(at, node) =~= sorted.drop_last().insert(at, node).push(sorted.last()));
    }
}

/// `nodes` in ascending order of latency; nodes of the same latency keep their order.
pub fn sort_by_latency(nodes: Vec<ProxyNode>) -> (sorted: Vec<ProxyNode>)
    ensures
        node_views(sorted@) == by_latency(node_views(nodes@)),
{
    let mut sorted: Vec<ProxyNode> = Vec::new();
    let ghost views = node_views(nodes@);
    assert(node_views(sorted@) =~= by_latency(views.take(0)));
    for node in it: nodes
        invariant
            views == node_views(it.seq()),
            node_views(sorted@) == by_latency(views.take(it.index())),
    {
        let ghost index = it.index();
        let ghost before = node_views(sorted@);
        let ghost view = node@;
        let key: u64 = node_latency(&node);
        let mut at: usize = sorted.len();
        while at > 0 && node_latency(&sorted[at - 1]) > key
            invariant
                at <= sorted@.len(),
                before == node_views(sorted@),
                forall|j: int|
                    at <= j < sorted@.len() ==> latency_key(#[trigger] before[j]) > key,
            decreases at,
        {
            at = at - 1;
        }
        proof {
            lemma_insert_at(before, view, at as int);
            assert(views.take(index + 1).drop_last() =~= views.take(index));
            assert(views.take(index + 1).last() == view);
        }
        sorted.insert(at, node);
        assert(node_views(sorted@) =~= before.insert(at as int, view));
    }
    assert(views.take(views.len() as int) =~= views);
    sorted
}

/// How long a node took to answer; longer than any, where it never did.
pub open spec fn answer_time(node: NodeView) -> int {
    match node.latency {
        Some(latency) => latency as int,
        None => u64::MAX as int,
    }
}

/// Sorted by latency, the nodes are the same, no node took longer than one behind it, and those
/// that took equally long stand in the order in which they stood.
pub proof fn law_sorted_by_answer_time(nodes: Seq<NodeView>, time: int)
    ensures
        by_latency(nodes).to_multiset() == nodes.to_multiset(),
        forall|i: int, j: int|
            0 <= i <= j < nodes.len() ==> answer_time(#[trigger] by_latency(nodes)[i])
                <= answer_time(#[trigger] by_latency(nodes)[j]),
        by_latency(nodes).filter(|node: NodeView| answer_time(node) == time) == nodes.filter(
            |node: NodeView| answer_time(node) == time,
        ),
{
    let sorted = by_latency(nodes);
    law_by_latency_is_a_stable_sort(nodes);
    assert forall|i: int, j: int| 0 <= i <= j < nodes.len() implies answer_time(
        #[trigger] sorted[i],
    ) <= answer_time(#[trigger] sorted[j]) by {
        assert(latency_key(sorted[i]) <= latency_key(sorted[j]));
    }
    if 0 <= time <= u64::MAX {
        lemma_of_latency(sorted, time as u64);
        lemma_of_latency(nodes, time as u64);
        assert(of_latency(nodes, time as u64) == of_latency(sorted, time as u64));
    } else {
        let pred = |node: NodeView| answer_time(node) == time;
        nodes.lemma_all_neg_filter_empty(pred);
        sorted.lemma_all_neg_filter_empty(pred);
        assert(sorted.filter(pred) =~= nodes.filter(pred));
    }
}

proof fn lemma_of_latency(nodes: Seq<NodeView>, latency: u64)
    ensures
        of_latency(nodes, latency) == nodes.filter(
            |node: NodeView| answer_time(node) == latency as int,
        ),
    decreases nodes.len(),
{
    reveal(Seq::filter);
    if nodes.len() > 0 {
        lemma_of_latency(nodes.drop_last(), latency);
    }
}

} // verus!
