//! Which nodes of a subscription are kept.
use crate::latency::ascending;
use crate::latency::by_latency;
use crate::latency::insert_by_latency;
use crate::latency::latency_key;
use crate::latency::law_by_latency_is_a_stable_sort;
use crate::latency::node_latency;
use crate::latency::sort_by_latency;
use crate::model::node_views;
use crate::model::NodeView;
use crate::model::ProxyNode;
use crate::model::SelectMode;
use crate::pick::best_latency;
use crate::pick::capped;
use crate::pick::eligible;
use crate::pick::in_region;
use crate::pick::is_next;
use crate::pick::is_nth;
use crate::pick::law_first_of_each_region;
use crate::pick::law_order_of_service;
use crate::pick::law_picked_from_nodes;
use crate::pick::law_picks_come_first;
use crate::pick::law_region_cap;
use crate::pick::lemma_nth_exists;
use crate::pick::lemma_nth_is;
use crate::pick::lemma_nth_unique;
use crate::pick::lemma_picks_end;
use crate::pick::lemma_picks_extend;
use crate::pick::lemma_push_contains;
use crate::pick::lemma_rank_grows;
use crate::pick::lemma_region_all;
use crate::pick::lemma_region_before_irreflexive;
use crate::pick::lemma_region_before_total;
use crate::pick::lemma_region_before_transitive;
use crate::pick::lemma_region_count_grows;
use crate::pick::lemma_region_total_push;
use crate::pick::lemma_within_cap;
use crate::pick::node_region;
use crate::pick::nth_of;
use crate::pick::of_region;
use crate::pick::pick_before;
use crate::pick::picks;
use crate::pick::rank;
use crate::pick::region_before;
use crate::pick::region_count;
use crate::pick::region_diverse;
use crate::pick::region_total;
use crate::pick::served_first;
use crate::pick::share;
use crate::pick::within_cap;
use crate::region::detect_region;
use crate::region::region_of;
use crate::region::OTHER_REGION;
use crate::text::is_before;
use crate::text::lemma_text_before_total;
use crate::text::lemma_text_before_transitive;
use crate::text::same_text;
use crate::text::text_before;
use std::collections::VecDeque;
use vstd::prelude::*;

verus! {

// ---------------------------------------------------------------------------
// What is kept
// ---------------------------------------------------------------------------

/// The nodes that a subscription keeps.
pub open spec fn selection(
    nodes: Seq<NodeView>,
    limit: Option<usize>,
    mode: SelectMode,
    min_per_region: usize,
    max_per_region: Option<usize>,
) -> Seq<NodeView> {
    let sorted = by_latency(nodes);
    match limit {
        None => sorted,
        Some(most) => if all_stay(sorted, limit, mode, max_per_region) {
            sorted
        } else {
            match mode {
                SelectMode::LatencyTop => sorted.take(most as int),
                SelectMode::RegionDiverse => region_diverse(
                    sorted,
                    most as nat,
                    if min_per_region == 0 {
                        1
                    } else {
                        min_per_region as nat
                    },
                    as_nat(max_per_region),
                ),
            }
        },
    }
}

/// Nothing has to go: there is no limit, or the nodes do not exceed it and, where regions count,
/// no region has more of them than it may keep.
pub open spec fn all_stay(
    nodes: Seq<NodeView>,
    limit: Option<usize>,
    mode: SelectMode,
    max_per_region: Option<usize>,
) -> bool {
    match limit {
        None => true,
        Some(most) => {
            &&& nodes.len() <= most
            &&& mode == SelectMode::RegionDiverse ==> within_cap(nodes, as_nat(max_per_region))
        },
    }
}

/// The number in `number`, if there is one.
pub open spec fn as_nat(number: Option<usize>) -> Option<nat> {
    match number {
        Some(n) => Some(n as nat),
        None => None,
    }
}

/// Sorting does not change how many nodes a region has.
proof fn lemma_sorted_total(nodes: Seq<NodeView>, region: Seq<char>)
    ensures
        region_total(by_latency(nodes), region) == region_total(nodes, region),
    decreases nodes.len(),
{
    if nodes.len() > 0 {
        let front = nodes.drop_last();
        lemma_sorted_total(front, region);
        lemma_inserted_total(by_latency(front), nodes.last(), region);
        lemma_region_total_push(by_latency(front), nodes.last(), region);
        lemma_region_total_push(front, nodes.last(), region);
        assert(nodes =~= front.push(nodes.last()));
    }
}

proof fn lemma_inserted_total(sorted: Seq<NodeView>, node: NodeView, region: Seq<char>)
    ensures
        region_total(insert_by_latency(sorted, node), region) == region_total(
            sorted.push(node),
            region,
        ),
    decreases sorted.len(),
{
    if sorted.len() > 0 && latency_key(sorted.last()) > latency_key(node) {
        let front = sorted.drop_last();
        lemma_inserted_total(front, node, region);
        lemma_region_total_push(insert_by_latency(front, node), sorted.last(), region);
        lemma_region_total_push(front, node, region);
        lemma_region_total_push(front, sorted.last(), region);
        lemma_region_total_push(sorted, node, region);
        assert(sorted =~= front.push(sorted.last()));
    }
}

/// Whether something has to go does not depend on the order of the nodes.
proof fn lemma_all_stay_sorted(
    nodes: Seq<NodeView>,
    limit: Option<usize>,
    mode: SelectMode,
    max_per_region: Option<usize>,
)
    ensures
        all_stay(by_latency(nodes), limit, mode, max_per_region) == all_stay(
            nodes,
            limit,
            mode,
            max_per_region,
        ),
{
    let max = as_nat(max_per_region);
    let sorted = by_latency(nodes);
    law_by_latency_is_a_stable_sort(nodes);
    lemma_within_cap(nodes, max);
    lemma_within_cap(sorted, max);
    assert forall|region: Seq<char>| #[trigger]
        region_total(sorted, region) == region_total(nodes, region) by {
        lemma_sorted_total(nodes, region);
    }
    if let Some(most) = max {
        if within_cap(sorted, max) {
            assert forall|region: Seq<char>| #[trigger] region_total(nodes, region) <= most by {
                assert(region_total(sorted, region) <= most);
            }
        }
    }
}

/// With regions served in turn and a limit, no region keeps more nodes than `max_per_region`,
/// whether the nodes exceed the limit or not.
pub proof fn law_selection_caps_regions(
    nodes: Seq<NodeView>,
    limit: usize,
    min_per_region: usize,
    max_per_region: Option<usize>,
    region: Seq<char>,
)
    ensures
        max_per_region matches Some(most) ==> region_total(
            selection(
                nodes,
                Some(limit),
                SelectMode::RegionDiverse,
                min_per_region,
                max_per_region,
            ),
            region,
        ) <= most,
{
    let sorted = by_latency(nodes);
    let min = if min_per_region == 0 {
        1
    } else {
        min_per_region as nat
    };
    lemma_within_cap(sorted, as_nat(max_per_region));
    law_region_cap(sorted, limit as nat, min, as_nat(max_per_region), region);
}

/// A subscription keeps its own nodes only, each at most once; it keeps no more than its limit,
/// and all of them where nothing has to go.
pub proof fn law_selection_of_own_nodes(
    nodes: Seq<NodeView>,
    limit: Option<usize>,
    mode: SelectMode,
    min_per_region: usize,
    max_per_region: Option<usize>,
)
    ensures
        selection(nodes, limit, mode, min_per_region, max_per_region).to_multiset().subset_of(
            nodes.to_multiset(),
        ),
        limit matches Some(most) ==> selection(
            nodes,
            limit,
            mode,
            min_per_region,
            max_per_region,
        ).len() <= most,
        all_stay(nodes, limit, mode, max_per_region) ==> selection(
            nodes,
            limit,
            mode,
            min_per_region,
            max_per_region,
        ).to_multiset() == nodes.to_multiset(),
{
    broadcast use vstd::seq_lib::group_to_multiset_ensures;

    let sorted = by_latency(nodes);
    law_by_latency_is_a_stable_sort(nodes);
    lemma_all_stay_sorted(nodes, limit, mode, max_per_region);
    if let Some(most) = limit {
        if !all_stay(sorted, limit, mode, max_per_region) {
            let min = if min_per_region == 0 {
                1
            } else {
                min_per_region as nat
            };
            law_picked_from_nodes(sorted, most as nat, min, as_nat(max_per_region));
            law_picks_come_first(sorted, min, as_nat(max_per_region), most as nat);
            if mode == SelectMode::LatencyTop {
                let kept = sorted.take(most as int);
                let dropped = sorted.skip(most as int);
                assert(sorted =~= kept + dropped);
                vstd::seq_lib::lemma_multiset_commutative(kept, dropped);
            }
        }
    }
}

/// By latency alone, no node that is dropped is faster than one that is kept, and what is kept
/// is in ascending order of latency.
pub proof fn law_latency_top_keeps_the_fastest(
    nodes: Seq<NodeView>,
    limit: usize,
    min_per_region: usize,
    max_per_region: Option<usize>,
)
    ensures
        ({
            let kept = selection(
                nodes,
                Some(limit),
                SelectMode::LatencyTop,
                min_per_region,
                max_per_region,
            );
            let sorted = by_latency(nodes);
            &&& sorted.to_multiset() == nodes.to_multiset()
            &&& kept.len() == (if nodes.len() <= limit {
                nodes.len()
            } else {
                limit as nat
            })
            &&& kept == sorted.take(kept.len() as int)
            &&& ascending(kept)
            &&& forall|i: int, j: int|
                0 <= i < kept.len() <= j < sorted.len() ==> latency_key(#[trigger] kept[i])
                    <= latency_key(#[trigger] sorted[j])
        }),
{
    law_by_latency_is_a_stable_sort(nodes);
    let sorted = by_latency(nodes);
    assert(sorted.take(sorted.len() as int) =~= sorted);
    let kept = selection(
        nodes,
        Some(limit),
        SelectMode::LatencyTop,
        min_per_region,
        max_per_region,
    );
    assert forall|i: int, j: int| 0 <= i < kept.len() <= j < sorted.len() implies latency_key(
        #[trigger] kept[i],
    ) <= latency_key(#[trigger] sorted[j]) by {
        assert(kept[i] == sorted[i]);
    }
    assert forall|i: int, j: int| 0 <= i <= j < kept.len() implies latency_key(
        #[trigger] kept[i],
    ) <= latency_key(#[trigger] kept[j]) by {
        assert(kept[i] == sorted[i] && kept[j] == sorted[j]);
    }
}

// ---------------------------------------------------------------------------
// Buckets
// ---------------------------------------------------------------------------

/// The nodes of one region that are not picked yet, in order, and how many were picked.
#[derive(Debug)]
pub struct RegionBucket {
    pub region: &'static str,
    pub queue: VecDeque<ProxyNode>,
    pub taken: usize,
}

/// `bucket` holds what its region has among the first `upto` of `nodes`, but for the first
/// `taken` of them.
pub open spec fn bucket_holds(bucket: RegionBucket, nodes: Seq<NodeView>, upto: int) -> bool {
    &&& bucket.taken + bucket.queue@.len() == region_count(nodes, bucket.region@, upto)
    &&& forall|k: int|
        0 <= k < bucket.queue@.len() ==> (#[trigger] bucket.queue@[k])@ == nodes[nth_of(
            nodes,
            bucket.region@,
            (bucket.taken + k) as nat,
        )]
}

/// One of `buckets` is for `region`.
pub open spec fn has_bucket(buckets: Seq<RegionBucket>, region: Seq<char>) -> bool {
    exists|b: int| 0 <= b < buckets.len() && (#[trigger] buckets[b]).region@ == region
}

/// Each of the first `upto` of `nodes` has a bucket for its region.
pub open spec fn covers(buckets: Seq<RegionBucket>, nodes: Seq<NodeView>, upto: int) -> bool {
    forall|i: int| 0 <= i < upto ==> has_bucket(buckets, node_region(#[trigger] nodes[i]))
}

/// The buckets stand in the order in which their regions are served.
pub open spec fn in_order(buckets: Seq<RegionBucket>, nodes: Seq<NodeView>) -> bool {
    forall|a: int, b: int|
        0 <= a < b < buckets.len() ==> region_before(
            nodes,
            (#[trigger] buckets[a]).region@,
            (#[trigger] buckets[b]).region@,
        )
}

/// Whether the region of `bucket` may get another node.
pub open spec fn bucket_open(bucket: RegionBucket, max: Option<nat>) -> bool {
    &&& bucket.queue@.len() > 0
    &&& max matches Some(most) ==> bucket.taken < most
}

/// Whether another node of the bucket's region may be picked after `selected_len` others.
pub fn region_can_take(
    bucket: &RegionBucket,
    selected_len: usize,
    limit: usize,
    max_per_region: Option<usize>,
) -> (can: bool)
    ensures
        can == (selected_len < limit && bucket_open(*bucket, as_nat(max_per_region))),
{
    if selected_len >= limit {
        return false;
    }
    if let Some(max) = max_per_region {
        if bucket.taken >= max {
            return false;
        }
    }
    bucket.queue.len() > 0
}

fn find_bucket(buckets: &Vec<RegionBucket>, region: &str) -> (found: Option<usize>)
    ensures
        match found {
            Some(b) => b < buckets@.len() && buckets@[b as int].region@ == region@,
            None => forall|b: int|
                0 <= b < buckets@.len() ==> (#[trigger] buckets@[b]).region@ != region@,
        },
{
    for b in 0..buckets.len()
        invariant
            forall|c: int| 0 <= c < b ==> (#[trigger] buckets@[c]).region@ != region@,
    {
        if same_text(buckets[b].region, region) {
            return Some(b);
        }
    }
    None
}

/// The nodes by region, each region in the order of `nodes`.
fn fill_buckets(nodes: Vec<ProxyNode>) -> (buckets: Vec<RegionBucket>)
    ensures
        covers(buckets@, node_views(nodes@), nodes@.len() as int),
        forall|b: int|
            0 <= b < buckets@.len() ==> {
                &&& bucket_holds(#[trigger] buckets@[b], node_views(nodes@), nodes@.len() as int)
                &&& buckets@[b].taken == 0
                &&& buckets@[b].queue@.len() > 0
            },
        forall|a: int, b: int|
            0 <= a < b < buckets@.len() ==> (#[trigger] buckets@[a]).region@ != (
            #[trigger] buckets@[b]).region@,
{
    let mut buckets: Vec<RegionBucket> = Vec::new();
    let ghost views = node_views(nodes@);
    for node in it: nodes
        invariant
            views == node_views(it.seq()),
            covers(buckets@, views, it.index()),
            forall|b: int|
                0 <= b < buckets@.len() ==> {
                    &&& bucket_holds(#[trigger] buckets@[b], views, it.index())
                    &&& buckets@[b].taken == 0
                    &&& buckets@[b].queue@.len() > 0
                },
            forall|a: int, b: int|
                0 <= a < b < buckets@.len() ==> (#[trigger] buckets@[a]).region@ != (
                #[trigger] buckets@[b]).region@,
    {
        let ghost i = it.index();
        let ghost before = buckets@;
        let region: &'static str = detect_region(node.name.as_str());
        assert(views[i] == node@);
        assert(node_region(views[i]) == region@);
        let ghost k = rank(views, i);
        proof {
            assert(is_nth(views, region@, k, i));
            lemma_nth_is(views, region@, k, i);
        }
        match find_bucket(&buckets, region) {
            Some(b) => {
                buckets[b].queue.push_back(node);
                assert(buckets@ =~= before.update(b as int, buckets@[b as int]));
                assert(bucket_holds(before[b as int], views, i));
                assert(bucket_holds(buckets@[b as int], views, i + 1));
            },
            None => {
                assert(k == 0) by {
                    if k > 0 {
                        lemma_nth_exists(views, region@, 0, i);
                        let j = nth_of(views, region@, 0);
                        assert(node_region(views[j]) == region@);
                    }
                }
                let mut queue: VecDeque<ProxyNode> = VecDeque::new();
                queue.push_back(node);
                buckets.push(RegionBucket { region, queue, taken: 0 });
                assert(bucket_holds(buckets@.last(), views, i + 1));
            },
        }
        assert forall|j: int| 0 <= j < i + 1 implies has_bucket(
            buckets@,
            node_region(#[trigger] views[j]),
        ) by {
            if j < i {
                let b = choose|b: int|
                    0 <= b < before.len() && (#[trigger] before[b]).region@ == node_region(views[j]);
                assert(buckets@[b].region@ == node_region(views[j]));
            }
        }
        assert forall|b: int| 0 <= b < buckets@.len() implies {
            &&& bucket_holds(#[trigger] buckets@[b], views, i + 1)
            &&& buckets@[b].taken == 0
            &&& buckets@[b].queue@.len() > 0
        } by {
            if buckets@[b].region@ != region@ {
                assert(buckets@[b] == before[b]);
                assert(bucket_holds(before[b], views, i));
            }
        }
    }
    buckets
}

/// The latency of the first node of a bucket that is still full.
proof fn lemma_bucket_best(bucket: RegionBucket, nodes: Seq<NodeView>)
    requires
        bucket_holds(bucket, nodes, nodes.len() as int),
        bucket.taken == 0,
        bucket.queue@.len() > 0,
    ensures
        best_latency(nodes, bucket.region@) == latency_key(bucket.queue@[0]@),
{
    assert(bucket.queue@[0]@ == nodes[nth_of(nodes, bucket.region@, 0)]);
}

/// Whether the region of `a` is served before that of `b`.
fn served_before(a: &RegionBucket, b: &RegionBucket, Ghost(nodes): Ghost<Seq<NodeView>>) -> (before:
    bool)
    requires
        bucket_holds(*a, nodes, nodes.len() as int),
        bucket_holds(*b, nodes, nodes.len() as int),
        a.taken == 0,
        b.taken == 0,
        a.queue@.len() > 0,
        b.queue@.len() > 0,
    ensures
        before == region_before(nodes, a.region@, b.region@),
{
    proof {
        lemma_bucket_best(*a, nodes);
        lemma_bucket_best(*b, nodes);
    }
    let a_other: bool = same_text(a.region, OTHER_REGION);
    let b_other: bool = same_text(b.region, OTHER_REGION);
    if a_other != b_other {
        return b_other;
    }
    let a_latency: u64 = node_latency(&a.queue[0]);
    let b_latency: u64 = node_latency(&b.queue[0]);
    if a_latency != b_latency {
        return a_latency < b_latency;
    }
    is_before(a.region, b.region)
}

/// The buckets in the order in which their regions are served.
fn order_buckets(buckets: Vec<RegionBucket>, Ghost(nodes): Ghost<Seq<NodeView>>) -> (ordered: Vec<
    RegionBucket,
>)
    requires
        covers(buckets@, nodes, nodes.len() as int),
        forall|b: int|
            0 <= b < buckets@.len() ==> {
                &&& bucket_holds(#[trigger] buckets@[b], nodes, nodes.len() as int)
                &&& buckets@[b].taken == 0
                &&& buckets@[b].queue@.len() > 0
            },
        forall|a: int, b: int|
            0 <= a < b < buckets@.len() ==> (#[trigger] buckets@[a]).region@ != (
            #[trigger] buckets@[b]).region@,
    ensures
        covers(ordered@, nodes, nodes.len() as int),
        in_order(ordered@, nodes),
        forall|b: int|
            0 <= b < ordered@.len() ==> {
                &&& bucket_holds(#[trigger] ordered@[b], nodes, nodes.len() as int)
                &&& ordered@[b].taken == 0
            },
{
    let ghost given = buckets@;
    let mut ordered: Vec<RegionBucket> = Vec::new();
    for bucket in it: buckets
        invariant
            it.seq() == given,
            forall|b: int|
                0 <= b < given.len() ==> {
                    &&& bucket_holds(#[trigger] given[b], nodes, nodes.len() as int)
                    &&& given[b].taken == 0
                    &&& given[b].queue@.len() > 0
                },
            forall|a: int, b: int|
                0 <= a < b < given.len() ==> (#[trigger] given[a]).region@ != (
                #[trigger] given[b]).region@,
            in_order(ordered@, nodes),
            forall|b: int|
                0 <= b < ordered@.len() ==> {
                    &&& bucket_holds(#[trigger] ordered@[b], nodes, nodes.len() as int)
                    &&& ordered@[b].taken == 0
                    &&& ordered@[b].queue@.len() > 0
                },
            forall|b: int|
                0 <= b < it.index() ==> ordered@.contains(#[trigger] given[b]),
            forall|p: int|
                0 <= p < ordered@.len() ==> given.take(it.index()).contains(#[trigger] ordered@[p]),
    {
        let ghost index = it.index();
        let ghost before = ordered@;
        let ghost region = bucket.region@;
        assert(bucket == given[index]);
        let mut at: usize = ordered.len();
        while at > 0 && served_before(&bucket, &ordered[at - 1], Ghost(nodes))
            invariant
                at <= ordered@.len(),
                ordered@ == before,
                bucket.region@ == region,
                bucket_holds(bucket, nodes, nodes.len() as int),
                bucket.taken == 0,
                bucket.queue@.len() > 0,
                forall|b: int|
                    0 <= b < ordered@.len() ==> {
                        &&& bucket_holds(#[trigger] ordered@[b], nodes, nodes.len() as int)
                        &&& ordered@[b].taken == 0
                        &&& ordered@[b].queue@.len() > 0
                    },
                forall|b: int|
                    at <= b < ordered@.len() ==> region_before(
                        nodes,
                        region,
                        (#[trigger] ordered@[b]).region@,
                    ),
            decreases at,
        {
            at = at - 1;
        }
        ordered.insert(at, bucket);
        proof {
            assert(ordered@ =~= before.insert(at as int, given[index]));
            assert forall|b: int| 0 <= b < at implies region_before(
                nodes,
                (#[trigger] before[b]).region@,
                region,
            ) by {
                let last = before[at - 1].region@;
                assert(given.take(index).contains(before[at - 1]));
                let g = choose|g: int| 0 <= g < index && given.take(index)[g] == before[at - 1];
                assert(given[g].region@ != given[index].region@);
                lemma_region_before_total(nodes, last, region);
                if b < at - 1 {
                    lemma_region_before_transitive(nodes, before[b].region@, last, region);
                }
            }
            assert forall|a: int, b: int| 0 <= a < b < ordered@.len() implies region_before(
                nodes,
                (#[trigger] ordered@[a]).region@,
                (#[trigger] ordered@[b]).region@,
            ) by {
                let old_a = if a < at { a } else { a - 1 };
                let old_b = if b < at { b } else { b - 1 };
                if a != at {
                    assert(ordered@[a] == before[old_a]);
                }
                if b != at {
                    assert(ordered@[b] == before[old_b]);
                }
            }
            assert(ordered@[at as int] == given[index]);
            assert forall|b: int| 0 <= b < index + 1 implies ordered@.contains(
                #[trigger] given[b],
            ) by {
                if b < index {
                    let p = choose|p: int| 0 <= p < before.len() && before[p] == given[b];
                    assert(ordered@[if p < at { p } else { p + 1 }] == given[b]);
                }
            }
            assert forall|p: int| 0 <= p < ordered@.len() implies given.take(index + 1).contains(
                #[trigger] ordered@[p],
            ) by {
                if p == at {
                    assert(given.take(index + 1)[index] == ordered@[p]);
                } else {
                    let q = if p < at { p } else { p - 1 };
                    assert(ordered@[p] == before[q]);
                    let g = choose|g: int| 0 <= g < index && given.take(index)[g] == before[q];
                    assert(given.take(index + 1)[g] == ordered@[p]);
                }
            }
            assert forall|p: int| 0 <= p < ordered@.len() implies {
                &&& bucket_holds(#[trigger] ordered@[p], nodes, nodes.len() as int)
                &&& ordered@[p].taken == 0
                &&& ordered@[p].queue@.len() > 0
            } by {
                if p != at {
                    assert(ordered@[p] == before[if p < at { p } else { p - 1 }]);
                }
            }
        }
    }
    assert(covers(ordered@, nodes, nodes.len() as int)) by {
        assert forall|i: int| 0 <= i < nodes.len() implies has_bucket(
            ordered@,
            node_region(#[trigger] nodes[i]),
        ) by {
            assert(has_bucket(given, node_region(nodes[i])));
            let g = choose|g: int|
                0 <= g < given.len() && (#[trigger] given[g]).region@ == node_region(nodes[i]);
            assert(ordered@.contains(given[g]));
            let p = choose|p: int| 0 <= p < ordered@.len() && ordered@[p] == given[g];
            assert(ordered@[p].region@ == node_region(nodes[i]));
        }
    }
    ordered
}

// ---------------------------------------------------------------------------
// Picking
// ---------------------------------------------------------------------------

/// What stays true while nodes move from the buckets to the selection: the picks so far are the
/// first ones, the selection holds them, and the buckets hold the rest.
spec fn picking(
    nodes: Seq<NodeView>,
    min: nat,
    max: Option<nat>,
    buckets: Seq<RegionBucket>,
    selected: Seq<ProxyNode>,
    picked: Seq<int>,
) -> bool {
    &&& picked == picks(nodes, min, max, picked.len())
    &&& node_views(selected) == picked.map_values(|i: int| nodes[i])
    &&& covers(buckets, nodes, nodes.len() as int)
    &&& in_order(buckets, nodes)
    &&& forall|b: int|
        0 <= b < buckets.len() ==> bucket_holds(#[trigger] buckets[b], nodes, nodes.len() as int)
    &&& forall|i: int| #[trigger] picked.contains(i) ==> 0 <= i < nodes.len()
    &&& forall|i: int, b: int|
        0 <= i < nodes.len() && 0 <= b < buckets.len() && (#[trigger] buckets[b]).region@
            == node_region(#[trigger] nodes[i]) ==> (picked.contains(i) <==> rank(nodes, i)
            < buckets[b].taken)
}

/// The node that bucket `b` gives next.
spec fn head_of(nodes: Seq<NodeView>, bucket: RegionBucket) -> int {
    nth_of(nodes, bucket.region@, bucket.taken as nat)
}

proof fn lemma_head(nodes: Seq<NodeView>, bucket: RegionBucket)
    requires
        bucket_holds(bucket, nodes, nodes.len() as int),
        bucket.queue@.len() > 0,
    ensures
        is_nth(nodes, bucket.region@, bucket.taken as nat, head_of(nodes, bucket)),
        bucket.queue@[0]@ == nodes[head_of(nodes, bucket)],
{
    lemma_nth_exists(nodes, bucket.region@, bucket.taken as nat, nodes.len() as int);
    assert(bucket.queue@[0]@ == nodes[nth_of(
        nodes,
        bucket.region@,
        (bucket.taken + 0) as nat,
    )]);
}

/// The head that is picked before the heads of all other open buckets is the next pick.
proof fn lemma_least_head_is_next(
    nodes: Seq<NodeView>,
    min: nat,
    max: Option<nat>,
    buckets: Seq<RegionBucket>,
    selected: Seq<ProxyNode>,
    picked: Seq<int>,
    b: int,
)
    requires
        picking(nodes, min, max, buckets, selected, picked),
        0 <= b < buckets.len(),
        bucket_open(buckets[b], max),
        forall|c: int|
            0 <= c < buckets.len() && c != b && bucket_open(#[trigger] buckets[c], max)
                ==> pick_before(
                nodes,
                min,
                head_of(nodes, buckets[b]),
                head_of(nodes, buckets[c]),
            ),
    ensures
        is_next(nodes, min, max, picked, head_of(nodes, buckets[b])),
{
    let i = head_of(nodes, buckets[b]);
    assert(bucket_holds(buckets[b], nodes, nodes.len() as int));
    lemma_head(nodes, buckets[b]);
    assert(buckets[b].region@ == node_region(nodes[i]));
    assert forall|j: int|
        #[trigger] eligible(nodes, max, j) && !picked.contains(j) && j != i implies pick_before(
        nodes,
        min,
        i,
        j,
    ) by {
        let c = choose|c: int|
            0 <= c < buckets.len() && (#[trigger] buckets[c]).region@ == node_region(nodes[j]);
        assert(bucket_holds(buckets[c], nodes, nodes.len() as int));
        assert(rank(nodes, j) >= buckets[c].taken);
        if c == b {
            if rank(nodes, j) == buckets[b].taken {
                assert(is_nth(nodes, buckets[b].region@, buckets[b].taken as nat, j));
                lemma_nth_unique(nodes, buckets[b].region@, buckets[b].taken as nat, i, j);
            }
        } else {
            lemma_rank_grows(nodes, j, nodes.len() as int);
            assert(buckets[c].queue@.len() > 0);
            lemma_head(nodes, buckets[c]);
            let h = head_of(nodes, buckets[c]);
            assert(bucket_open(buckets[c], max));
            if rank(nodes, j) == buckets[c].taken {
                assert(is_nth(nodes, buckets[c].region@, buckets[c].taken as nat, j));
                lemma_nth_unique(nodes, buckets[c].region@, buckets[c].taken as nat, h, j);
            }
        }
    }
}

/// A bucket that gave its first node away holds the others.
proof fn lemma_bucket_after(nodes: Seq<NodeView>, bucket: RegionBucket, after: RegionBucket)
    requires
        bucket_holds(bucket, nodes, nodes.len() as int),
        bucket.queue@.len() > 0,
        after.region == bucket.region,
        after.taken == bucket.taken + 1,
        after.queue@ == bucket.queue@.drop_first(),
    ensures
        bucket_holds(after, nodes, nodes.len() as int),
{
    assert forall|k: int| 0 <= k < after.queue@.len() implies (#[trigger] after.queue@[k])@
        == nodes[nth_of(nodes, after.region@, (after.taken + k) as nat)] by {
        assert(after.queue@[k] == bucket.queue@[k + 1]);
        assert(bucket.queue@[k + 1]@ == nodes[nth_of(
            nodes,
            bucket.region@,
            (bucket.taken + (k + 1)) as nat,
        )]);
    }
}

/// Which regions have buckets, and in which order, does not change with what a bucket holds.
proof fn lemma_same_regions(
    nodes: Seq<NodeView>,
    buckets: Seq<RegionBucket>,
    b: int,
    after: RegionBucket,
)
    requires
        covers(buckets, nodes, nodes.len() as int),
        in_order(buckets, nodes),
        0 <= b < buckets.len(),
        after.region == buckets[b].region,
    ensures
        covers(buckets.update(b, after), nodes, nodes.len() as int),
        in_order(buckets.update(b, after), nodes),
{
    let new_buckets = buckets.update(b, after);
    assert forall|j: int| 0 <= j < nodes.len() implies has_bucket(
        new_buckets,
        node_region(#[trigger] nodes[j]),
    ) by {
        let c = choose|c: int|
            0 <= c < buckets.len() && (#[trigger] buckets[c]).region@ == node_region(nodes[j]);
        assert(new_buckets[c].region@ == node_region(nodes[j]));
    }
    assert forall|a: int, c: int| 0 <= a < c < new_buckets.len() implies region_before(
        nodes,
        (#[trigger] new_buckets[a]).region@,
        (#[trigger] new_buckets[c]).region@,
    ) by {
        assert(new_buckets[a].region@ == buckets[a].region@);
        assert(new_buckets[c].region@ == buckets[c].region@);
    }
}

/// Two buckets of one region are the same bucket.
proof fn lemma_same_bucket(nodes: Seq<NodeView>, buckets: Seq<RegionBucket>, b: int, c: int)
    requires
        in_order(buckets, nodes),
        0 <= b < buckets.len(),
        0 <= c < buckets.len(),
        buckets[b].region@ == buckets[c].region@,
    ensures
        b == c,
{
    lemma_region_before_irreflexive(nodes, buckets[b].region@);
    if b < c {
        assert(region_before(nodes, buckets[b].region@, buckets[c].region@));
    } else if c < b {
        assert(region_before(nodes, buckets[c].region@, buckets[b].region@));
    }
}

/// Moving the next pick from its bucket to the selection keeps the picking going.
proof fn lemma_picked_one(
    nodes: Seq<NodeView>,
    min: nat,
    max: Option<nat>,
    buckets: Seq<RegionBucket>,
    selected: Seq<ProxyNode>,
    picked: Seq<int>,
    b: int,
    after: RegionBucket,
)
    requires
        picking(nodes, min, max, buckets, selected, picked),
        0 <= b < buckets.len(),
        bucket_open(buckets[b], max),
        is_next(nodes, min, max, picked, head_of(nodes, buckets[b])),
        after.region == buckets[b].region,
        after.taken == buckets[b].taken + 1,
        after.queue@ == buckets[b].queue@.drop_first(),
    ensures
        picking(
            nodes,
            min,
            max,
            buckets.update(b, after),
            selected.push(buckets[b].queue@[0]),
            picked.push(head_of(nodes, buckets[b])),
        ),
{
    let i = head_of(nodes, buckets[b]);
    let new_buckets = buckets.update(b, after);
    let new_selected = selected.push(buckets[b].queue@[0]);
    let new_picked = picked.push(i);
    assert(bucket_holds(buckets[b], nodes, nodes.len() as int));
    lemma_head(nodes, buckets[b]);
    lemma_picks_extend(nodes, min, max, picked, i);
    lemma_bucket_after(nodes, buckets[b], after);
    lemma_same_regions(nodes, buckets, b, after);
    assert(node_views(new_selected) =~= new_picked.map_values(|i: int| nodes[i])) by {
        assert(node_views(new_selected) =~= node_views(selected).push(buckets[b].queue@[0]@));
        assert(new_picked.map_values(|i: int| nodes[i]) =~= picked.map_values(
            |i: int| nodes[i],
        ).push(nodes[i]));
    }
    assert forall|j: int| #[trigger] new_picked.contains(j) implies 0 <= j < nodes.len() by {
        lemma_push_contains(picked, i, j);
    }
    assert forall|j: int, c: int|
        0 <= j < nodes.len() && 0 <= c < new_buckets.len() && (#[trigger] new_buckets[c]).region@
            == node_region(#[trigger] nodes[j]) implies (new_picked.contains(j) <==> rank(nodes, j)
        < new_buckets[c].taken) by {
        lemma_push_contains(picked, i, j);
        assert(buckets[c].region@ == node_region(nodes[j]));
        if c == b {
            if rank(nodes, j) == buckets[b].taken {
                assert(is_nth(nodes, buckets[b].region@, buckets[b].taken as nat, j));
                lemma_nth_unique(nodes, buckets[b].region@, buckets[b].taken as nat, i, j);
            }
        } else if j == i {
            lemma_same_bucket(nodes, buckets, b, c);
        }
    }
}

/// Without an open bucket everything that may be picked is picked.
proof fn lemma_nothing_left(
    nodes: Seq<NodeView>,
    min: nat,
    max: Option<nat>,
    buckets: Seq<RegionBucket>,
    selected: Seq<ProxyNode>,
    picked: Seq<int>,
    limit: nat,
)
    requires
        picking(nodes, min, max, buckets, selected, picked),
        forall|b: int| 0 <= b < buckets.len() ==> !bucket_open(#[trigger] buckets[b], max),
        picked.len() <= limit,
    ensures
        picks(nodes, min, max, limit) == picked,
{
    assert forall|i: int| #[trigger] eligible(nodes, max, i) implies picked.contains(i) by {
        let b = choose|b: int|
            0 <= b < buckets.len() && (#[trigger] buckets[b]).region@ == node_region(nodes[i]);
        assert(bucket_holds(buckets[b], nodes, nodes.len() as int));
        assert(!bucket_open(buckets[b], max));
        lemma_rank_grows(nodes, i, nodes.len() as int);
        assert(rank(nodes, i) < buckets[b].taken);
    }
    lemma_picks_end(nodes, min, max, picked, limit);
}

spec fn at_most(a: nat, b: nat) -> nat {
    if a < b {
        a
    } else {
        b
    }
}

/// Moves the next node of bucket `b` to the selection.
fn pick_from(
    buckets: &mut Vec<RegionBucket>,
    selected: &mut Vec<ProxyNode>,
    b: usize,
    Ghost(nodes): Ghost<Seq<NodeView>>,
    Ghost(min): Ghost<nat>,
    Ghost(max): Ghost<Option<nat>>,
    Ghost(picked): Ghost<Seq<int>>,
)
    requires
        picking(nodes, min, max, old(buckets)@, old(selected)@, picked),
        b < old(buckets)@.len(),
        bucket_open(old(buckets)@[b as int], max),
        is_next(nodes, min, max, picked, head_of(nodes, old(buckets)@[b as int])),
        nodes.len() <= usize::MAX,
    ensures
        picking(
            nodes,
            min,
            max,
            final(buckets)@,
            final(selected)@,
            picked.push(head_of(nodes, old(buckets)@[b as int])),
        ),
        final(selected)@.len() == old(selected)@.len() + 1,
        final(buckets)@.len() == old(buckets)@.len(),
        final(buckets)@[b as int].region == old(buckets)@[b as int].region,
        final(buckets)@[b as int].taken == old(buckets)@[b as int].taken + 1,
        forall|c: int|
            0 <= c < old(buckets)@.len() && c != b ==> final(buckets)@[c] == old(buckets)@[c],
{
    let ghost before = buckets@;
    let ghost chosen = selected@;
    proof {
        assert(bucket_holds(before[b as int], nodes, nodes.len() as int));
        lemma_region_count_grows(nodes, before[b as int].region@, 0, nodes.len() as int);
    }
    let bucket = &mut buckets[b];
    bucket.taken = bucket.taken + 1;
    let first = bucket.queue.pop_front();
    if let Some(node) = first {
        selected.push(node);
    }
    proof {
        assert(buckets@ =~= before.update(b as int, buckets@[b as int]));
        assert(selected@ =~= chosen.push(before[b as int].queue@[0]));
        lemma_picked_one(nodes, min, max, before, chosen, picked, b as int, buckets@[b as int]);
    }
}

/// At most `limit` of `nodes`: each region gets up to `min_per_region` of them, one in each
/// round; what is left goes to the regions that have the fewest, the fastest node first. No
/// region gets more than `max_per_region`.
pub fn select_region_diverse(
    nodes: Vec<ProxyNode>,
    limit: usize,
    min_per_region: usize,
    max_per_region: Option<usize>,
) -> (selected: Vec<ProxyNode>)
    ensures
        node_views(selected@) == region_diverse(
            node_views(nodes@),
            limit as nat,
            min_per_region as nat,
            as_nat(max_per_region),
        ),
{
    let ghost views = node_views(nodes@);
    let ghost min = min_per_region as nat;
    let ghost max = as_nat(max_per_region);
    let ghost mut picked: Seq<int> = Seq::empty();
    let size: usize = nodes.len();
    let filled = fill_buckets(nodes);
    let mut buckets = order_buckets(filled, Ghost(views));
    let mut selected: Vec<ProxyNode> = Vec::new();
    assert(node_views(selected@) =~= picked.map_values(|i: int| views[i]));
    assert(picking(views, min, max, buckets@, selected@, picked));
    let mut round: usize = 0;
    let mut progressed: bool = true;
    while round < min_per_region && selected.len() < limit && progressed
        invariant
            size == views.len(),
            round <= min_per_region,
            min == min_per_region,
            max == as_nat(max_per_region),
            selected@.len() <= limit,
            picking(views, min, max, buckets@, selected@, picked),
            progressed ==> forall|b: int|
                0 <= b < buckets@.len() && selected@.len() < limit ==> (
                #[trigger] buckets@[b]).taken == at_most(
                    share(views, buckets@[b].region@, max),
                    round as nat,
                ),
            !progressed ==> forall|b: int|
                0 <= b < buckets@.len() && selected@.len() < limit ==> !bucket_open(
                    #[trigger] buckets@[b],
                    max,
                ),
        decreases min_per_region - round, (if progressed { 1int } else { 0int }),
    {
        progressed = false;
        let mut b: usize = 0;
        while b < buckets.len()
            invariant
                size == views.len(),
                round < min_per_region,
                min == min_per_region,
                max == as_nat(max_per_region),
                b <= buckets@.len(),
                selected@.len() <= limit,
                picking(views, min, max, buckets@, selected@, picked),
                selected@.len() < limit ==> forall|c: int|
                    0 <= c < buckets@.len() ==> (#[trigger] buckets@[c]).taken == at_most(
                        share(views, buckets@[c].region@, max),
                        if c < b {
                            (round + 1) as nat
                        } else {
                            round as nat
                        },
                    ),
                !progressed && selected@.len() < limit ==> forall|c: int|
                    0 <= c < b ==> !bucket_open(#[trigger] buckets@[c], max),
            decreases buckets@.len() - b,
        {
            let ghost before = buckets@;
            assert(forall|c: int|
                0 <= c < before.len() ==> bucket_holds(
                    #[trigger] before[c],
                    views,
                    views.len() as int,
                ));
            if region_can_take(&buckets[b], selected.len(), limit, max_per_region) {
                let ghost head = head_of(views, before[b as int]);
                proof {
                    lemma_head(views, before[b as int]);
                    assert forall|c: int|
                        0 <= c < before.len() && c != b && bucket_open(
                            #[trigger] before[c],
                            max,
                        ) implies pick_before(views, min, head, head_of(views, before[c])) by {
                        lemma_head(views, before[c]);
                        if c > b {
                            assert(region_before(
                                views,
                                before[b as int].region@,
                                before[c].region@,
                            ));
                        }
                    }
                    lemma_least_head_is_next(
                        views,
                        min,
                        max,
                        before,
                        selected@,
                        picked,
                        b as int,
                    );
                }
                pick_from(
                    &mut buckets,
                    &mut selected,
                    b,
                    Ghost(views),
                    Ghost(min),
                    Ghost(max),
                    Ghost(picked),
                );
                proof {
                    picked = picked.push(head);
                }
                progressed = true;
            }
            b = b + 1;
        }
        if progressed {
            round = round + 1;
        }
    }
    while selected.len() < limit
        invariant
            size == views.len(),
            min == min_per_region,
            max == as_nat(max_per_region),
            selected@.len() <= limit,
            picking(views, min, max, buckets@, selected@, picked),
            forall|b: int|
                0 <= b < buckets@.len() && selected@.len() < limit && bucket_open(
                    #[trigger] buckets@[b],
                    max,
                ) ==> buckets@[b].taken >= min,
        ensures
            node_views(selected@) == region_diverse(views, limit as nat, min, max),
        decreases limit - selected@.len(),
    {
        match best_bucket(&buckets, selected.len(), limit, max_per_region, Ghost(views)) {
            None => {
                proof {
                    assert(node_views(selected@).len() == picked.len());
                    lemma_nothing_left(
                        views,
                        min,
                        max,
                        buckets@,
                        selected@,
                        picked,
                        limit as nat,
                    );
                }
                break;
            },
            Some(b) => {
                let ghost before = buckets@;
                let ghost head = head_of(views, before[b as int]);
                proof {
                    assert forall|c: int|
                        0 <= c < before.len() && c != b && bucket_open(
                            #[trigger] before[c],
                            max,
                        ) implies pick_before(views, min, head, head_of(views, before[c])) by {
                        assert(fewer_or_faster(views, before[b as int], before[c]));
                        lemma_head(views, before[b as int]);
                        lemma_head(views, before[c]);
                    }
                    lemma_least_head_is_next(
                        views,
                        min,
                        max,
                        before,
                        selected@,
                        picked,
                        b as int,
                    );
                }
                pick_from(
                    &mut buckets,
                    &mut selected,
                    b,
                    Ghost(views),
                    Ghost(min),
                    Ghost(max),
                    Ghost(picked),
                );
                proof {
                    picked = picked.push(head);
                    assert(node_views(selected@).len() == picked.len());
                    assert forall|c: int|
                        0 <= c < buckets@.len() && selected@.len() < limit && bucket_open(
                            #[trigger] buckets@[c],
                            max,
                        ) implies buckets@[c].taken >= min by {
                        if c != b {
                            assert(buckets@[c] == before[c]);
                        }
                    }
                }
            },
        }
    }
    selected
}

/// The head of bucket `a` is preferred to that of `b`: its region has fewer nodes, or as many
/// and the head is faster, or it is as fast and the region's name comes first.
spec fn fewer_or_faster(nodes: Seq<NodeView>, a: RegionBucket, b: RegionBucket) -> bool {
    let a_latency = latency_key(nodes[head_of(nodes, a)]);
    let b_latency = latency_key(nodes[head_of(nodes, b)]);
    if a.taken != b.taken {
        a.taken < b.taken
    } else if a_latency != b_latency {
        a_latency < b_latency
    } else {
        text_before(a.region@, b.region@)
    }
}

/// The open bucket whose head is preferred to those of all others, if any is open.
fn best_bucket(
    buckets: &Vec<RegionBucket>,
    selected_len: usize,
    limit: usize,
    max_per_region: Option<usize>,
    Ghost(nodes): Ghost<Seq<NodeView>>,
) -> (best: Option<usize>)
    requires
        selected_len < limit,
        in_order(buckets@, nodes),
        forall|b: int|
            0 <= b < buckets@.len() ==> bucket_holds(
                #[trigger] buckets@[b],
                nodes,
                nodes.len() as int,
            ),
    ensures
        match best {
            Some(b) => {
                &&& b < buckets@.len()
                &&& bucket_open(buckets@[b as int], as_nat(max_per_region))
                &&& forall|c: int|
                    0 <= c < buckets@.len() && c != b && bucket_open(
                        #[trigger] buckets@[c],
                        as_nat(max_per_region),
                    ) ==> fewer_or_faster(nodes, buckets@[b as int], buckets@[c])
            },
            None => forall|c: int|
                0 <= c < buckets@.len() ==> !bucket_open(
                    #[trigger] buckets@[c],
                    as_nat(max_per_region),
                ),
        },
{
    let ghost max = as_nat(max_per_region);
    let mut best: Option<usize> = None;
    for b in 0..buckets.len()
        invariant
            selected_len < limit,
            max == as_nat(max_per_region),
            in_order(buckets@, nodes),
            forall|c: int|
                0 <= c < buckets@.len() ==> bucket_holds(
                    #[trigger] buckets@[c],
                    nodes,
                    nodes.len() as int,
                ),
            match best {
                Some(a) => {
                    &&& a < b
                    &&& bucket_open(buckets@[a as int], max)
                    &&& forall|c: int|
                        0 <= c < b && c != a && bucket_open(#[trigger] buckets@[c], max)
                            ==> fewer_or_faster(nodes, buckets@[a as int], buckets@[c])
                },
                None => forall|c: int|
                    0 <= c < b ==> !bucket_open(#[trigger] buckets@[c], max),
            },
    {
        if region_can_take(&buckets[b], selected_len, limit, max_per_region) {
            match best {
                None => {
                    best = Some(b);
                },
                Some(a) => {
                    proof {
                        lemma_head(nodes, buckets@[a as int]);
                        lemma_head(nodes, buckets@[b as int]);
                    }
                    if preferred(&buckets[b], &buckets[a], Ghost(nodes)) {
                        proof {
                            assert forall|c: int|
                                0 <= c < b + 1 && c != b && bucket_open(
                                    #[trigger] buckets@[c],
                                    max,
                                ) implies fewer_or_faster(
                                nodes,
                                buckets@[b as int],
                                buckets@[c],
                            ) by {
                                if c != a {
                                    lemma_fewer_or_faster_transitive(
                                        nodes,
                                        buckets@[b as int],
                                        buckets@[a as int],
                                        buckets@[c],
                                    );
                                }
                            }
                        }
                        best = Some(b);
                    } else {
                        proof {
                            if buckets@[a as int].region@ == buckets@[b as int].region@ {
                                lemma_same_bucket(nodes, buckets@, a as int, b as int);
                            }
                            lemma_text_before_total(
                                buckets@[a as int].region@,
                                buckets@[b as int].region@,
                            );
                        }
                    }
                },
            }
        }
    }
    best
}

proof fn lemma_fewer_or_faster_transitive(
    nodes: Seq<NodeView>,
    a: RegionBucket,
    b: RegionBucket,
    c: RegionBucket,
)
    requires
        fewer_or_faster(nodes, a, b),
        fewer_or_faster(nodes, b, c),
    ensures
        fewer_or_faster(nodes, a, c),
{
    if text_before(a.region@, b.region@) && text_before(b.region@, c.region@) {
        lemma_text_before_transitive(a.region@, b.region@, c.region@);
    }
}

/// Whether the head of `a` is preferred to that of `b`.
fn preferred(a: &RegionBucket, b: &RegionBucket, Ghost(nodes): Ghost<Seq<NodeView>>) -> (is: bool)
    requires
        bucket_holds(*a, nodes, nodes.len() as int),
        bucket_holds(*b, nodes, nodes.len() as int),
        a.queue@.len() > 0,
        b.queue@.len() > 0,
    ensures
        is == fewer_or_faster(nodes, *a, *b),
{
    proof {
        lemma_head(nodes, *a);
        lemma_head(nodes, *b);
    }
    if a.taken != b.taken {
        return a.taken < b.taken;
    }
    let a_latency: u64 = node_latency(&a.queue[0]);
    let b_latency: u64 = node_latency(&b.queue[0]);
    if a_latency != b_latency {
        return a_latency < b_latency;
    }
    is_before(a.region, b.region)
}

/// Whether no region has more of the nodes than `max_per_region`.
fn regions_within(nodes: &Vec<ProxyNode>, max_per_region: Option<usize>) -> (within: bool)
    ensures
        within == within_cap(node_views(nodes@), as_nat(max_per_region)),
{
    let most: usize = match max_per_region {
        None => return true,
        Some(most) => most,
    };
    let ghost views = node_views(nodes@);
    let mut regions: Vec<&'static str> = Vec::new();
    for i in 0..nodes.len()
        invariant
            views == node_views(nodes@),
            max_per_region == Some(most),
            regions@.len() == i,
            forall|j: int| 0 <= j < i ==> (#[trigger] regions@[j])@ == node_region(views[j]),
            forall|j: int|
                0 <= j < i ==> #[trigger] eligible(views, as_nat(max_per_region), j),
    {
        let region: &'static str = detect_region(nodes[i].name.as_str());
        assert(views[i as int] == nodes@[i as int]@);
        let mut count: usize = 0;
        for j in 0..i
            invariant
                regions@.len() == i,
                forall|k: int| 0 <= k < i ==> (#[trigger] regions@[k])@ == node_region(views[k]),
                count == region_count(views, region@, j as int),
                count <= j,
        {
            if same_text(regions[j], region) {
                count = count + 1;
            }
        }
        assert(count == rank(views, i as int));
        if count >= most {
            assert(!eligible(views, as_nat(max_per_region), i as int));
            return false;
        }
        regions.push(region);
    }
    true
}

/// The nodes that a subscription keeps, in ascending order of latency or, with regions served in
/// turn, in the order in which they are picked. All stay without a limit, and with one that they
/// do not exceed; with regions served in turn, only if no region has more than `max_per_region`.
pub fn select_subscription_nodes(
    nodes: Vec<ProxyNode>,
    limit: Option<usize>,
    mode: SelectMode,
    min_per_region: usize,
    max_per_region: Option<usize>,
) -> (selected: Vec<ProxyNode>)
    ensures
        node_views(selected@) == selection(
            node_views(nodes@),
            limit,
            mode,
            min_per_region,
            max_per_region,
        ),
{
    let mut sorted = sort_by_latency(nodes);
    let most: usize = match limit {
        None => return sorted,
        Some(most) => most,
    };
    assert(node_views(sorted@).len() == sorted@.len());
    match mode {
        SelectMode::LatencyTop => {
            if sorted.len() <= most {
                return sorted;
            }
            let ghost before = node_views(sorted@);
            sorted.truncate(most);
            assert(node_views(sorted@) =~= before.take(most as int));
            sorted
        },
        SelectMode::RegionDiverse => {
            if sorted.len() <= most && regions_within(&sorted, max_per_region) {
                return sorted;
            }
            let min: usize = if min_per_region == 0 {
                1
            } else {
                min_per_region
            };
            select_region_diverse(sorted, most, min, max_per_region)
        },
    }
}

// ---------------------------------------------------------------------------
// Laws of the selection
// ---------------------------------------------------------------------------

/// With regions served in turn, something has to go: the nodes exceed the limit, or a region has
/// more of them than it may keep.
pub open spec fn has_to_go(nodes: Seq<NodeView>, limit: usize, max: Option<usize>) -> bool {
    nodes.len() > limit || exists|region: Seq<char>|
        max matches Some(most) && (#[trigger] of_region(nodes, region)).len() > most
}

proof fn lemma_has_to_go(nodes: Seq<NodeView>, limit: usize, max: Option<usize>)
    ensures
        all_stay(by_latency(nodes), Some(limit), SelectMode::RegionDiverse, max) == !has_to_go(
            nodes,
            limit,
            max,
        ),
{
    lemma_all_stay_sorted(nodes, Some(limit), SelectMode::RegionDiverse, max);
    lemma_within_cap(nodes, as_nat(max));
    if let Some(most) = max {
        if within_cap(nodes, as_nat(max)) {
            assert forall|region: Seq<char>| (#[trigger] of_region(nodes, region)).len()
                <= most by {
                lemma_region_all(nodes, region);
                assert(region_total(nodes, region) <= most);
            }
        } else {
            let region = choose|region: Seq<char>| #[trigger] region_total(nodes, region) > most;
            lemma_region_all(nodes, region);
            assert(of_region(nodes, region).len() > most);
        }
    }
}

/// Without a limit, every node stays, whatever the mode and the bounds; the fastest come first.
pub proof fn law_no_limit(
    nodes: Seq<NodeView>,
    mode: SelectMode,
    min_per_region: usize,
    max_per_region: Option<usize>,
)
    ensures
        selection(nodes, None, mode, min_per_region, max_per_region) == by_latency(nodes),
{
}

/// By latency alone, the fastest stay, as many as the limit allows, whatever the bounds of
/// regions.
pub proof fn law_fastest_up_to_the_limit(
    nodes: Seq<NodeView>,
    limit: usize,
    min_per_region: usize,
    max_per_region: Option<usize>,
)
    ensures
        selection(nodes, Some(limit), SelectMode::LatencyTop, min_per_region, max_per_region)
            == by_latency(nodes).take(
            if nodes.len() <= limit {
                nodes.len() as int
            } else {
                limit as int
            },
        ),
{
    law_by_latency_is_a_stable_sort(nodes);
    assert(by_latency(nodes).take(nodes.len() as int) =~= by_latency(nodes));
}

/// With regions served in turn, every node stays where nothing has to go; the fastest come first.
pub proof fn law_nothing_has_to_go(
    nodes: Seq<NodeView>,
    limit: usize,
    min_per_region: usize,
    max_per_region: Option<usize>,
)
    requires
        !has_to_go(nodes, limit, max_per_region),
    ensures
        selection(nodes, Some(limit), SelectMode::RegionDiverse, min_per_region, max_per_region)
            == by_latency(nodes),
{
    lemma_has_to_go(nodes, limit, max_per_region);
}

/// With regions served in turn, what stays where something has to go: of every region its fastest
/// nodes, no more than it may keep, in the order of service with a share of at least one. A node
/// that its region could still keep is left out only because the limit is reached, and would have
/// come behind all that stay.
pub proof fn law_regions_are_served_in_turn(
    nodes: Seq<NodeView>,
    limit: usize,
    min_per_region: usize,
    max_per_region: Option<usize>,
)
    requires
        has_to_go(nodes, limit, max_per_region),
    ensures
        ({
            let sorted = by_latency(nodes);
            let kept = selection(
                nodes,
                Some(limit),
                SelectMode::RegionDiverse,
                min_per_region,
                max_per_region,
            );
            let min = if min_per_region == 0 {
                1nat
            } else {
                min_per_region as nat
            };
            let max = match max_per_region {
                Some(most) => Some(most as nat),
                None => None,
            };
            let turn = |p: int| of_region(kept.take(p), region_of(kept[p].name)).len();
            &&& kept.len() <= limit
            &&& forall|region: Seq<char>|
                (#[trigger] of_region(kept, region)).len() <= capped(
                    of_region(sorted, region).len(),
                    max,
                ) && of_region(kept, region) == of_region(sorted, region).take(
                    of_region(kept, region).len() as int,
                )
            &&& forall|p: int, q: int|
                0 <= p < q < kept.len() ==> served_first(
                    sorted,
                    min,
                    #[trigger] kept[p],
                    turn(p),
                    #[trigger] kept[q],
                    turn(q),
                )
            &&& forall|region: Seq<char>|
                (#[trigger] of_region(kept, region)).len() < capped(
                    of_region(sorted, region).len(),
                    max,
                ) ==> kept.len() == limit && forall|p: int|
                    0 <= p < kept.len() ==> served_first(
                        sorted,
                        min,
                        #[trigger] kept[p],
                        turn(p),
                        of_region(sorted, region)[of_region(kept, region).len() as int],
                        of_region(kept, region).len(),
                    )
        }),
{
    let sorted = by_latency(nodes);
    let min = if min_per_region == 0 {
        1nat
    } else {
        min_per_region as nat
    };
    let max = as_nat(max_per_region);
    let kept = region_diverse(sorted, limit as nat, min, max);
    lemma_has_to_go(nodes, limit, max_per_region);
    law_order_of_service(sorted, limit as nat, min, max);
    assert forall|region: Seq<char>|
        (#[trigger] of_region(kept, region)).len() <= capped(of_region(sorted, region).len(), max)
            && of_region(kept, region) == of_region(sorted, region).take(
            of_region(kept, region).len() as int,
        ) by {
        law_first_of_each_region(sorted, limit as nat, min, max, region);
    }
}

/// How many nodes of `regions` may stay: of each all that it has, or as many as it may keep.
pub open spec fn room_for(
    nodes: Seq<NodeView>,
    regions: Seq<Seq<char>>,
    max_per_region: Option<usize>,
) -> int {
    regions.fold_left(
        0int,
        |sum: int, region: Seq<char>|
            sum + capped(
                of_region(nodes, region).len(),
                match max_per_region {
                    Some(most) => Some(most as nat),
                    None => None,
                },
            ),
    )
}

/// With regions served in turn, exactly as many nodes stay as the limit and the bound of each
/// region allow. Without such a bound, that is the limit, or all nodes where they do not exceed
/// it. `regions` lists every region of a node, once.
pub proof fn law_as_many_as_allowed(
    nodes: Seq<NodeView>,
    limit: usize,
    min_per_region: usize,
    max_per_region: Option<usize>,
    regions: Seq<Seq<char>>,
)
    requires
        regions.no_duplicates(),
        forall|i: int|
            0 <= i < nodes.len() ==> regions.contains(region_of((#[trigger] nodes[i]).name)),
    ensures
        ({
            let room = room_for(nodes, regions, max_per_region);
            let kept = selection(
                nodes,
                Some(limit),
                SelectMode::RegionDiverse,
                min_per_region,
                max_per_region,
            );
            &&& kept.len() == (if room <= limit {
                room
            } else {
                limit as int
            })
            &&& max_per_region is None ==> kept.len() == (if nodes.len() <= limit {
                nodes.len() as int
            } else {
                limit as int
            })
        }),
{
    let sorted = by_latency(nodes);
    let kept = selection(
        nodes,
        Some(limit),
        SelectMode::RegionDiverse,
        min_per_region,
        max_per_region,
    );
    law_by_latency_is_a_stable_sort(nodes);
    law_selection_of_own_nodes(
        nodes,
        Some(limit),
        SelectMode::RegionDiverse,
        min_per_region,
        max_per_region,
    );
    lemma_room_is_all(nodes, regions);
    lemma_subset_regions(kept, nodes, regions);
    lemma_room_is_all(kept, regions);
    assert forall|region: Seq<char>| #[trigger] of_region(sorted, region).len() == of_region(
        nodes,
        region,
    ).len() by {
        lemma_sorted_total(nodes, region);
        lemma_region_all(sorted, region);
        lemma_region_all(nodes, region);
    }
    assert(of_region(sorted, Seq::empty()).len() == of_region(nodes, Seq::empty()).len());
    if has_to_go(nodes, limit, max_per_region) {
        law_regions_are_served_in_turn(nodes, limit, min_per_region, max_per_region);
        assert forall|region: Seq<char>| (#[trigger] of_region(kept, region)).len() <= capped(
            of_region(nodes, region).len(),
            as_nat(max_per_region),
        ) by {
            assert(of_region(sorted, region).len() == of_region(nodes, region).len());
        }
        lemma_room_bounds(kept, nodes, regions, max_per_region);
        if kept.len() < limit {
            assert forall|region: Seq<char>| (#[trigger] of_region(kept, region)).len() == capped(
                of_region(nodes, region).len(),
                as_nat(max_per_region),
            ) by {
                assert(of_region(sorted, region).len() == of_region(nodes, region).len());
            }
            lemma_room_equal(kept, nodes, regions, max_per_region);
        }
    } else {
        law_nothing_has_to_go(nodes, limit, min_per_region, max_per_region);
        assert forall|region: Seq<char>| (#[trigger] of_region(kept, region)).len() == capped(
            of_region(nodes, region).len(),
            as_nat(max_per_region),
        ) by {
            assert(of_region(sorted, region).len() == of_region(nodes, region).len());
            assert(max_per_region matches Some(most) ==> of_region(nodes, region).len() <= most);
        }
        lemma_room_equal(kept, nodes, regions, max_per_region);
    }
}

/// The nodes of a selection stand in the regions of those that it was made of.
proof fn lemma_subset_regions(kept: Seq<NodeView>, nodes: Seq<NodeView>, regions: Seq<Seq<char>>)
    requires
        kept.to_multiset().subset_of(nodes.to_multiset()),
        forall|i: int|
            0 <= i < nodes.len() ==> regions.contains(region_of((#[trigger] nodes[i]).name)),
    ensures
        forall|i: int|
            0 <= i < kept.len() ==> regions.contains(region_of((#[trigger] kept[i]).name)),
{
    broadcast use vstd::seq_lib::group_to_multiset_ensures;

    assert forall|i: int| 0 <= i < kept.len() implies regions.contains(
        region_of((#[trigger] kept[i]).name),
    ) by {
        let node = kept[i];
        assert(kept.contains(node));
        assert(kept.to_multiset().count(node) > 0);
        assert(nodes.to_multiset().count(node) > 0);
        assert(nodes.contains(node));
        let j = choose|j: int| 0 <= j < nodes.len() && nodes[j] == node;
        assert(regions.contains(region_of(nodes[j].name)));
    }
}

/// Without a bound, there is room for all nodes.
proof fn lemma_room_is_all(nodes: Seq<NodeView>, regions: Seq<Seq<char>>)
    requires
        regions.no_duplicates(),
        forall|i: int|
            0 <= i < nodes.len() ==> regions.contains(region_of((#[trigger] nodes[i]).name)),
    ensures
        room_for(nodes, regions, None) == nodes.len(),
    decreases nodes.len(),
{
    if nodes.len() == 0 {
        lemma_room_of_none(nodes, regions);
    } else {
        let front = nodes.drop_last();
        let last = nodes.last();
        assert forall|i: int| 0 <= i < front.len() implies regions.contains(
            region_of((#[trigger] front[i]).name),
        ) by {
            assert(front[i] == nodes[i]);
        }
        lemma_room_is_all(front, regions);
        assert(nodes[nodes.len() - 1] == last);
        lemma_room_of_one_more(front, last, regions);
        assert(front.push(last) =~= nodes);
    }
}

proof fn lemma_room_of_none(nodes: Seq<NodeView>, regions: Seq<Seq<char>>)
    requires
        nodes.len() == 0,
    ensures
        room_for(nodes, regions, None) == 0,
    decreases regions.len(),
{
    if regions.len() > 0 {
        lemma_room_of_none(nodes, regions.drop_last());
        nodes.lemma_filter_len(in_region(regions.last()));
    }
}

/// Another node takes one place in its region, and none in any other.
proof fn lemma_room_of_one_more(nodes: Seq<NodeView>, node: NodeView, regions: Seq<Seq<char>>)
    requires
        regions.no_duplicates(),
    ensures
        room_for(nodes.push(node), regions, None) == room_for(nodes, regions, None) + (
        if regions.contains(region_of(node.name)) {
            1int
        } else {
            0int
        }),
    decreases regions.len(),
{
    if regions.len() > 0 {
        let front = regions.drop_last();
        let last = regions.last();
        let region = region_of(node.name);
        assert forall|i: int, j: int| 0 <= i < front.len() && 0 <= j < front.len() && i
            != j implies front[i] != front[j] by {
            assert(front[i] == regions[i] && front[j] == regions[j]);
        }
        lemma_room_of_one_more(nodes, node, front);
        nodes.lemma_filter_push(node, in_region(last));
        if front.contains(region) {
            let i = choose|i: int| 0 <= i < front.len() && front[i] == region;
            assert(regions[i] == region);
            assert(regions[regions.len() - 1] == last);
        }
        if regions.contains(region) && !front.contains(region) {
            let i = choose|i: int| 0 <= i < regions.len() && regions[i] == region;
            if i < front.len() {
                assert(front[i] == region);
            }
        }
        if last == region {
            assert(regions[regions.len() - 1] == region);
        }
    }
}

proof fn lemma_room_bounds(
    kept: Seq<NodeView>,
    nodes: Seq<NodeView>,
    regions: Seq<Seq<char>>,
    max_per_region: Option<usize>,
)
    requires
        forall|region: Seq<char>|
            (#[trigger] of_region(kept, region)).len() <= capped(
                of_region(nodes, region).len(),
                as_nat(max_per_region),
            ),
    ensures
        room_for(kept, regions, None) <= room_for(nodes, regions, max_per_region),
    decreases regions.len(),
{
    if regions.len() > 0 {
        lemma_room_bounds(kept, nodes, regions.drop_last(), max_per_region);
        assert(of_region(kept, regions.last()).len() <= capped(
            of_region(nodes, regions.last()).len(),
            as_nat(max_per_region),
        ));
    }
}

proof fn lemma_room_equal(
    kept: Seq<NodeView>,
    nodes: Seq<NodeView>,
    regions: Seq<Seq<char>>,
    max_per_region: Option<usize>,
)
    requires
        forall|region: Seq<char>|
            (#[trigger] of_region(kept, region)).len() == capped(
                of_region(nodes, region).len(),
                as_nat(max_per_region),
            ),
    ensures
        room_for(kept, regions, None) == room_for(nodes, regions, max_per_region),
    decreases regions.len(),
{
    if regions.len() > 0 {
        lemma_room_equal(kept, nodes, regions.drop_last(), max_per_region);
        assert(of_region(kept, regions.last()).len() == capped(
            of_region(nodes, regions.last()).len(),
            as_nat(max_per_region),
        ));
    }
}

} // verus!
