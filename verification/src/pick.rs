//! The order in which the nodes of a subscription are picked, region by region.
use crate::latency::answer_time;
use crate::latency::latency_key;
use crate::model::NodeView;
use crate::region::region_of;
use crate::region::OTHER_REGION;
use crate::text::lemma_text_before_irreflexive;
use crate::text::lemma_text_before_total;
use crate::text::lemma_text_before_transitive;
use crate::text::text_before;
use vstd::multiset::Multiset;
use vstd::prelude::*;

verus! {

// ---------------------------------------------------------------------------
// The order in which nodes are picked
// ---------------------------------------------------------------------------

/// The region of a node.
pub open spec fn node_region(node: NodeView) -> Seq<char> {
    region_of(node.name)
}

/// How many of the first `upto` nodes stand in `region`.
pub open spec fn region_count(nodes: Seq<NodeView>, region: Seq<char>, upto: int) -> nat
    decreases upto,
{
    if upto <= 0 {
        0
    } else {
        region_count(nodes, region, upto - 1) + (if node_region(nodes[upto - 1]) == region {
            1nat
        } else {
            0nat
        })
    }
}

/// How many nodes of the same region stand before node `i`.
pub open spec fn rank(nodes: Seq<NodeView>, i: int) -> nat {
    region_count(nodes, node_region(nodes[i]), i)
}

/// Node `i` is the one of `region` with `k` others of it before.
pub open spec fn is_nth(nodes: Seq<NodeView>, region: Seq<char>, k: nat, i: int) -> bool {
    &&& 0 <= i < nodes.len()
    &&& node_region(nodes[i]) == region
    &&& rank(nodes, i) == k
}

/// The node of `region` with `k` others of it before.
pub open spec fn nth_of(nodes: Seq<NodeView>, region: Seq<char>, k: nat) -> int {
    choose|i: int| is_nth(nodes, region, k, i)
}

/// The latency of the first node of `region`.
pub open spec fn best_latency(nodes: Seq<NodeView>, region: Seq<char>) -> u64 {
    latency_key(nodes[nth_of(nodes, region, 0)])
}

/// Region `a` is served before region `b`: known regions before the rest, then by the latency of
/// their first nodes, then by name.
pub open spec fn region_before(nodes: Seq<NodeView>, a: Seq<char>, b: Seq<char>) -> bool {
    if (a == OTHER_REGION@) != (b == OTHER_REGION@) {
        b == OTHER_REGION@
    } else if best_latency(nodes, a) != best_latency(nodes, b) {
        best_latency(nodes, a) < best_latency(nodes, b)
    } else {
        text_before(a, b)
    }
}

/// Node `i` is picked before node `j`. The one with fewer of its region before it comes first.
/// Where that is the same, the regions decide as long as each is owed its share of `min` nodes;
/// beyond that the faster node does, then the name of the region.
pub open spec fn pick_before(nodes: Seq<NodeView>, min: nat, i: int, j: int) -> bool {
    let a = node_region(nodes[i]);
    let b = node_region(nodes[j]);
    if rank(nodes, i) != rank(nodes, j) {
        rank(nodes, i) < rank(nodes, j)
    } else if rank(nodes, i) < min {
        region_before(nodes, a, b)
    } else if latency_key(nodes[i]) != latency_key(nodes[j]) {
        latency_key(nodes[i]) < latency_key(nodes[j])
    } else {
        text_before(a, b)
    }
}

/// Node `i` may be picked: its region is not full with the nodes before it.
pub open spec fn eligible(nodes: Seq<NodeView>, max: Option<nat>, i: int) -> bool {
    &&& 0 <= i < nodes.len()
    &&& max matches Some(most) ==> rank(nodes, i) < most
}

/// Node `i` is the next to be picked after those in `picked`.
pub open spec fn is_next(
    nodes: Seq<NodeView>,
    min: nat,
    max: Option<nat>,
    picked: Seq<int>,
    i: int,
) -> bool {
    &&& eligible(nodes, max, i)
    &&& !picked.contains(i)
    &&& forall|j: int|
        #[trigger] eligible(nodes, max, j) && !picked.contains(j) && j != i ==> pick_before(
            nodes,
            min,
            i,
            j,
        )
}

/// The first `k` picks, or all there are if those are fewer.
pub open spec fn picks(nodes: Seq<NodeView>, min: nat, max: Option<nat>, k: nat) -> Seq<int>
    decreases k,
{
    if k == 0 {
        Seq::empty()
    } else {
        let picked = picks(nodes, min, max, (k - 1) as nat);
        if exists|i: int| is_next(nodes, min, max, picked, i) {
            picked.push(choose|i: int| is_next(nodes, min, max, picked, i))
        } else {
            picked
        }
    }
}

/// At most `limit` of `nodes`, in the order in which they are picked.
pub open spec fn region_diverse(
    nodes: Seq<NodeView>,
    limit: nat,
    min: nat,
    max: Option<nat>,
) -> Seq<NodeView> {
    picks(nodes, min, max, limit).map_values(|i: int| nodes[i])
}

/// How many nodes of `region` may be picked in all.
pub open spec fn share(nodes: Seq<NodeView>, region: Seq<char>, max: Option<nat>) -> nat {
    let count = region_count(nodes, region, nodes.len() as int);
    match max {
        Some(most) => if most < count {
            most
        } else {
            count
        },
        None => count,
    }
}

// ---------------------------------------------------------------------------
// Facts about the order
// ---------------------------------------------------------------------------

pub proof fn lemma_region_count_grows(nodes: Seq<NodeView>, region: Seq<char>, from: int, to: int)
    requires
        0 <= from <= to,
    ensures
        region_count(nodes, region, from) <= region_count(nodes, region, to),
        region_count(nodes, region, to) <= region_count(nodes, region, from) + (to - from),
    decreases to,
{
    if from < to {
        lemma_region_count_grows(nodes, region, from, to - 1);
    }
}

pub proof fn lemma_rank_grows(nodes: Seq<NodeView>, i: int, j: int)
    requires
        0 <= i < j <= nodes.len(),
    ensures
        rank(nodes, i) < region_count(nodes, node_region(nodes[i]), j),
{
    lemma_region_count_grows(nodes, node_region(nodes[i]), i + 1, j);
}

/// Two nodes of one region have different ranks.
pub proof fn lemma_nth_unique(nodes: Seq<NodeView>, region: Seq<char>, k: nat, i: int, j: int)
    requires
        is_nth(nodes, region, k, i),
        is_nth(nodes, region, k, j),
    ensures
        i == j,
{
    if i < j {
        lemma_rank_grows(nodes, i, j);
    } else if j < i {
        lemma_rank_grows(nodes, j, i);
    }
}

pub proof fn lemma_nth_is(nodes: Seq<NodeView>, region: Seq<char>, k: nat, i: int)
    requires
        is_nth(nodes, region, k, i),
    ensures
        nth_of(nodes, region, k) == i,
{
    lemma_nth_unique(nodes, region, k, nth_of(nodes, region, k), i);
}

/// A region with more than `k` nodes has one with `k` others before it.
pub proof fn lemma_nth_exists(nodes: Seq<NodeView>, region: Seq<char>, k: nat, upto: int)
    requires
        0 <= upto <= nodes.len(),
        k < region_count(nodes, region, upto),
    ensures
        is_nth(nodes, region, k, nth_of(nodes, region, k)),
        nth_of(nodes, region, k) < upto,
    decreases upto,
{
    if node_region(nodes[upto - 1]) == region && region_count(nodes, region, upto - 1) == k {
        assert(is_nth(nodes, region, k, upto - 1));
        lemma_nth_is(nodes, region, k, upto - 1);
    } else {
        lemma_nth_exists(nodes, region, k, upto - 1);
    }
}

pub proof fn lemma_region_before_transitive(
    nodes: Seq<NodeView>,
    a: Seq<char>,
    b: Seq<char>,
    c: Seq<char>,
)
    requires
        region_before(nodes, a, b),
        region_before(nodes, b, c),
    ensures
        region_before(nodes, a, c),
{
    if text_before(a, b) && text_before(b, c) {
        lemma_text_before_transitive(a, b, c);
    }
}

pub proof fn lemma_region_before_irreflexive(nodes: Seq<NodeView>, a: Seq<char>)
    ensures
        !region_before(nodes, a, a),
{
    lemma_text_before_irreflexive(a);
}

pub proof fn lemma_region_before_total(nodes: Seq<NodeView>, a: Seq<char>, b: Seq<char>)
    ensures
        a == b || region_before(nodes, a, b) || region_before(nodes, b, a),
{
    lemma_text_before_total(a, b);
}

proof fn lemma_region_before_asymmetric(nodes: Seq<NodeView>, a: Seq<char>, b: Seq<char>)
    requires
        region_before(nodes, a, b),
    ensures
        !region_before(nodes, b, a),
{
    if region_before(nodes, b, a) {
        lemma_region_before_transitive(nodes, a, b, a);
        lemma_region_before_irreflexive(nodes, a);
    }
}

/// Of two nodes, one is not picked both before and after the other.
proof fn lemma_pick_before_asymmetric(nodes: Seq<NodeView>, min: nat, i: int, j: int)
    requires
        pick_before(nodes, min, i, j),
    ensures
        !pick_before(nodes, min, j, i),
{
    let a = node_region(nodes[i]);
    let b = node_region(nodes[j]);
    if region_before(nodes, a, b) {
        lemma_region_before_asymmetric(nodes, a, b);
    }
    if text_before(a, b) && text_before(b, a) {
        lemma_text_before_transitive(a, b, a);
        lemma_text_before_irreflexive(a);
    }
}

/// There is at most one next pick.
proof fn lemma_next_unique(
    nodes: Seq<NodeView>,
    min: nat,
    max: Option<nat>,
    picked: Seq<int>,
    i: int,
    j: int,
)
    requires
        is_next(nodes, min, max, picked, i),
        is_next(nodes, min, max, picked, j),
    ensures
        i == j,
{
    if i != j {
        assert(eligible(nodes, max, i) && eligible(nodes, max, j));
        lemma_pick_before_asymmetric(nodes, min, i, j);
    }
}

/// The next pick extends the picks.
pub proof fn lemma_picks_extend(
    nodes: Seq<NodeView>,
    min: nat,
    max: Option<nat>,
    picked: Seq<int>,
    i: int,
)
    requires
        picked == picks(nodes, min, max, picked.len()),
        is_next(nodes, min, max, picked, i),
    ensures
        picked.push(i) == picks(nodes, min, max, picked.push(i).len()),
{
    let chosen = choose|j: int| is_next(nodes, min, max, picked, j);
    lemma_next_unique(nodes, min, max, picked, i, chosen);
    assert(picked.push(i).len() - 1 == picked.len());
}

/// Once everything that may be picked is picked, the picks do not change.
pub proof fn lemma_picks_end(
    nodes: Seq<NodeView>,
    min: nat,
    max: Option<nat>,
    picked: Seq<int>,
    k: nat,
)
    requires
        picked == picks(nodes, min, max, picked.len()),
        forall|i: int| #[trigger] eligible(nodes, max, i) ==> picked.contains(i),
        picked.len() <= k,
    ensures
        picks(nodes, min, max, k) == picked,
    decreases k,
{
    if picked.len() < k {
        lemma_picks_end(nodes, min, max, picked, (k - 1) as nat);
        assert forall|i: int| !is_next(nodes, min, max, picked, i) by {
            if eligible(nodes, max, i) {
                assert(picked.contains(i));
            }
        }
    }
}

// ---------------------------------------------------------------------------
// Laws of the picks
// ---------------------------------------------------------------------------

/// Of two nodes one is picked before the other.
proof fn lemma_pick_before_total(nodes: Seq<NodeView>, min: nat, i: int, j: int)
    requires
        0 <= i < nodes.len(),
        0 <= j < nodes.len(),
        i != j,
    ensures
        pick_before(nodes, min, i, j) || pick_before(nodes, min, j, i),
{
    let a = node_region(nodes[i]);
    let b = node_region(nodes[j]);
    if rank(nodes, i) == rank(nodes, j) {
        if a == b {
            assert(is_nth(nodes, a, rank(nodes, i), i));
            assert(is_nth(nodes, a, rank(nodes, i), j));
            lemma_nth_unique(nodes, a, rank(nodes, i), i, j);
        }
        lemma_region_before_total(nodes, a, b);
        lemma_text_before_total(a, b);
    }
}

proof fn lemma_pick_before_transitive(nodes: Seq<NodeView>, min: nat, i: int, j: int, k: int)
    requires
        pick_before(nodes, min, i, j),
        pick_before(nodes, min, j, k),
    ensures
        pick_before(nodes, min, i, k),
{
    let a = node_region(nodes[i]);
    let b = node_region(nodes[j]);
    let c = node_region(nodes[k]);
    if rank(nodes, i) == rank(nodes, j) && rank(nodes, j) == rank(nodes, k) {
        if rank(nodes, i) < min {
            lemma_region_before_transitive(nodes, a, b, c);
        } else if text_before(a, b) && text_before(b, c) {
            lemma_text_before_transitive(a, b, c);
        }
    }
}

/// Node `i` is picked before all others of the first `upto` that may be picked and are not.
spec fn is_least(
    nodes: Seq<NodeView>,
    min: nat,
    max: Option<nat>,
    picked: Seq<int>,
    upto: int,
    i: int,
) -> bool {
    &&& i < upto
    &&& eligible(nodes, max, i)
    &&& !picked.contains(i)
    &&& forall|j: int|
        #[trigger] eligible(nodes, max, j) && j < upto && !picked.contains(j) && j != i
            ==> pick_before(nodes, min, i, j)
}

proof fn lemma_least_exists(
    nodes: Seq<NodeView>,
    min: nat,
    max: Option<nat>,
    picked: Seq<int>,
    upto: int,
    some: int,
) -> (least: int)
    requires
        0 <= some < upto <= nodes.len(),
        eligible(nodes, max, some),
        !picked.contains(some),
    ensures
        is_least(nodes, min, max, picked, upto, least),
    decreases upto,
{
    let last = upto - 1;
    if exists|i: int| 0 <= i < last && eligible(nodes, max, i) && !picked.contains(i) {
        let i = choose|i: int| 0 <= i < last && eligible(nodes, max, i) && !picked.contains(i);
        let least = lemma_least_exists(nodes, min, max, picked, last, i);
        if eligible(nodes, max, last) && !picked.contains(last) && pick_before(
            nodes,
            min,
            last,
            least,
        ) {
            assert forall|j: int|
                #[trigger] eligible(nodes, max, j) && j < upto && !picked.contains(j) && j
                    != last implies pick_before(nodes, min, last, j) by {
                if j != least {
                    lemma_pick_before_transitive(nodes, min, last, least, j);
                }
            }
            last
        } else {
            if eligible(nodes, max, last) && !picked.contains(last) {
                lemma_pick_before_total(nodes, min, least, last);
            }
            least
        }
    } else {
        assert(some == last);
        last
    }
}

/// As long as something may be picked there is a next pick.
proof fn lemma_next_exists(
    nodes: Seq<NodeView>,
    min: nat,
    max: Option<nat>,
    picked: Seq<int>,
    some: int,
)
    requires
        eligible(nodes, max, some),
        !picked.contains(some),
    ensures
        exists|i: int| is_next(nodes, min, max, picked, i),
{
    let least = lemma_least_exists(nodes, min, max, picked, nodes.len() as int, some);
    assert(is_next(nodes, min, max, picked, least));
}

pub proof fn lemma_push_contains(picked: Seq<int>, i: int, j: int)
    ensures
        picked.push(i).contains(j) <==> picked.contains(j) || j == i,
{
    if picked.contains(j) {
        let p = choose|p: int| 0 <= p < picked.len() && picked[p] == j;
        assert(picked.push(i)[p] == j);
    }
    if j == i {
        assert(picked.push(i)[picked.len() as int] == j);
    }
    if picked.push(i).contains(j) && j != i {
        let p = choose|p: int| 0 <= p < picked.push(i).len() && picked.push(i)[p] == j;
        assert(picked[p] == j);
    }
}

/// The picks are at most `k` different nodes that may be picked, in the order of picking; any
/// other that may be picked comes after all of them, and is left out only for want of room.
pub proof fn law_picks_come_first(nodes: Seq<NodeView>, min: nat, max: Option<nat>, k: nat)
    ensures
        picks(nodes, min, max, k).len() <= k,
        picks(nodes, min, max, k).no_duplicates(),
        forall|p: int|
            0 <= p < picks(nodes, min, max, k).len() ==> eligible(
                nodes,
                max,
                #[trigger] picks(nodes, min, max, k)[p],
            ),
        forall|p: int, q: int|
            0 <= p < q < picks(nodes, min, max, k).len() ==> pick_before(
                nodes,
                min,
                #[trigger] picks(nodes, min, max, k)[p],
                #[trigger] picks(nodes, min, max, k)[q],
            ),
        forall|p: int, j: int|
            0 <= p < picks(nodes, min, max, k).len() && #[trigger] eligible(nodes, max, j)
                && !picks(nodes, min, max, k).contains(j) ==> pick_before(
                nodes,
                min,
                #[trigger] picks(nodes, min, max, k)[p],
                j,
            ),
        picks(nodes, min, max, k).len() < k ==> forall|j: int| #[trigger]
            eligible(nodes, max, j) ==> picks(nodes, min, max, k).contains(j),
    decreases k,
{
    if k > 0 {
        let before = picks(nodes, min, max, (k - 1) as nat);
        let after = picks(nodes, min, max, k);
        law_picks_come_first(nodes, min, max, (k - 1) as nat);
        if exists|i: int| is_next(nodes, min, max, before, i) {
            let i = choose|i: int| is_next(nodes, min, max, before, i);
            assert(after == before.push(i));
            assert(eligible(nodes, max, i));
            assert forall|p: int, j: int|
                0 <= p < after.len() && #[trigger] eligible(nodes, max, j) && !after.contains(
                    j,
                ) implies pick_before(nodes, min, #[trigger] after[p], j) by {
                lemma_push_contains(before, i, j);
                if p < before.len() {
                    assert(after[p] == before[p]);
                }
            }
            assert forall|p: int, q: int| 0 <= p < q < after.len() implies pick_before(
                nodes,
                min,
                #[trigger] after[p],
                #[trigger] after[q],
            ) by {
                assert(after[p] == before[p]);
                if q < before.len() {
                    assert(after[q] == before[q]);
                }
            }
            if after.len() < k {
                assert(before.contains(i));
            }
        } else {
            assert forall|j: int| #[trigger] eligible(nodes, max, j) implies before.contains(
                j,
            ) by {
                if !before.contains(j) {
                    lemma_next_exists(nodes, min, max, before, j);
                }
            }
        }
    }
}

/// No region has more nodes than `max`.
pub open spec fn within_cap(nodes: Seq<NodeView>, max: Option<nat>) -> bool {
    forall|i: int| 0 <= i < nodes.len() ==> #[trigger] eligible(nodes, max, i)
}

/// How many nodes of `region` stand in `nodes`.
pub open spec fn region_total(nodes: Seq<NodeView>, region: Seq<char>) -> nat {
    region_count(nodes, region, nodes.len() as int)
}

/// What stands behind the first `upto` nodes does not change their count.
proof fn lemma_region_count_push(
    nodes: Seq<NodeView>,
    node: NodeView,
    region: Seq<char>,
    upto: int,
)
    requires
        0 <= upto <= nodes.len(),
    ensures
        region_count(nodes.push(node), region, upto) == region_count(nodes, region, upto),
    decreases upto,
{
    if upto > 0 {
        lemma_region_count_push(nodes, node, region, upto - 1);
    }
}

pub proof fn lemma_region_total_push(nodes: Seq<NodeView>, node: NodeView, region: Seq<char>)
    ensures
        region_total(nodes.push(node), region) == region_total(nodes, region) + (if node_region(
            node,
        ) == region {
            1nat
        } else {
            0nat
        }),
{
    lemma_region_count_push(nodes, node, region, nodes.len() as int);
}

/// Where no region has more than `max`, none has a higher total, and the other way round.
pub proof fn lemma_within_cap(nodes: Seq<NodeView>, max: Option<nat>)
    ensures
        within_cap(nodes, max) <==> forall|region: Seq<char>|
            max matches Some(most) ==> #[trigger] region_total(nodes, region) <= most,
{
    if let Some(most) = max {
        if within_cap(nodes, max) {
            assert forall|region: Seq<char>| #[trigger] region_total(nodes, region) <= most by {
                if region_total(nodes, region) > most {
                    lemma_nth_exists(nodes, region, most, nodes.len() as int);
                    assert(eligible(nodes, max, nth_of(nodes, region, most)));
                }
            }
        }
        if forall|region: Seq<char>| #[trigger] region_total(nodes, region) <= most {
            assert forall|i: int| 0 <= i < nodes.len() implies #[trigger] eligible(
                nodes,
                max,
                i,
            ) by {
                lemma_rank_grows(nodes, i, nodes.len() as int);
                assert(region_total(nodes, node_region(nodes[i])) <= most);
            }
        }
    }
}

/// The nodes picked of a region are its first ones, and not more than it may get.
proof fn lemma_first_of_region(
    nodes: Seq<NodeView>,
    min: nat,
    max: Option<nat>,
    k: nat,
    region: Seq<char>,
)
    ensures
        region_total(region_diverse(nodes, k, min, max), region) <= share(nodes, region, max),
        forall|i: int|
            0 <= i < nodes.len() && node_region(#[trigger] nodes[i]) == region ==> (picks(
                nodes,
                min,
                max,
                k,
            ).contains(i) <==> rank(nodes, i) < region_total(
                region_diverse(nodes, k, min, max),
                region,
            )),
    decreases k,
{
    if k > 0 {
        let picked = picks(nodes, min, max, (k - 1) as nat);
        let kept = region_diverse(nodes, (k - 1) as nat, min, max);
        lemma_first_of_region(nodes, min, max, (k - 1) as nat, region);
        if exists|i: int| is_next(nodes, min, max, picked, i) {
            let next = choose|i: int| is_next(nodes, min, max, picked, i);
            let count = region_total(kept, region);
            assert(region_diverse(nodes, k, min, max) =~= kept.push(nodes[next]));
            lemma_region_total_push(kept, nodes[next], region);
            if node_region(nodes[next]) == region {
                lemma_rank_grows(nodes, next, nodes.len() as int);
                assert(rank(nodes, next) >= count);
                if rank(nodes, next) > count {
                    lemma_nth_exists(nodes, region, count, nodes.len() as int);
                    let earlier = nth_of(nodes, region, count);
                    assert(eligible(nodes, max, earlier));
                    assert(!picked.contains(earlier));
                    assert(pick_before(nodes, min, next, earlier));
                }
                assert forall|i: int|
                    0 <= i < nodes.len() && node_region(
                        #[trigger] nodes[i],
                    ) == region implies (picked.push(next).contains(i) <==> rank(nodes, i) < count
                    + 1) by {
                    lemma_push_contains(picked, next, i);
                    if rank(nodes, i) == count {
                        assert(is_nth(nodes, region, count, i));
                        assert(is_nth(nodes, region, count, next));
                        lemma_nth_unique(nodes, region, count, i, next);
                    }
                }
            } else {
                assert forall|i: int|
                    0 <= i < nodes.len() && node_region(
                        #[trigger] nodes[i],
                    ) == region implies (picked.push(next).contains(i) <==> rank(nodes, i)
                    < count) by {
                    lemma_push_contains(picked, next, i);
                }
            }
        }
    } else {
        assert(region_diverse(nodes, k, min, max).len() == 0);
    }
}

/// No region gets more nodes than `max`, nor more than it has.
pub proof fn law_region_cap(
    nodes: Seq<NodeView>,
    limit: nat,
    min: nat,
    max: Option<nat>,
    region: Seq<char>,
)
    ensures
        max matches Some(most) ==> region_total(region_diverse(nodes, limit, min, max), region)
            <= most,
        region_total(region_diverse(nodes, limit, min, max), region) <= region_total(
            nodes,
            region,
        ),
{
    lemma_first_of_region(nodes, min, max, limit, region);
}

/// Within a region the nodes are picked in their order and none is passed over.
pub proof fn law_region_in_order(
    nodes: Seq<NodeView>,
    limit: nat,
    min: nat,
    max: Option<nat>,
    i: int,
    j: int,
)
    requires
        0 <= i < j < nodes.len(),
        node_region(nodes[i]) == node_region(nodes[j]),
        picks(nodes, min, max, limit).contains(j),
    ensures
        picks(nodes, min, max, limit).contains(i),
        picks(nodes, min, max, limit).index_of(i) < picks(nodes, min, max, limit).index_of(j),
{
    let picked = picks(nodes, min, max, limit);
    lemma_first_of_region(nodes, min, max, limit, node_region(nodes[i]));
    lemma_rank_grows(nodes, i, j);
    law_picks_come_first(nodes, min, max, limit);
    let p = picked.index_of(i);
    let q = picked.index_of(j);
    assert(picked[p] == i && picked[q] == j);
    if q < p {
        assert(pick_before(nodes, min, picked[q], picked[p]));
    }
}

/// While a region could still get a node, no other region is more than one ahead of it. So no
/// region gets more than `min` nodes while another that has them still lacks some of its `min`.
pub proof fn law_regions_balanced(
    nodes: Seq<NodeView>,
    limit: nat,
    min: nat,
    max: Option<nat>,
    a: Seq<char>,
    b: Seq<char>,
)
    ensures
        region_total(region_diverse(nodes, limit, min, max), a) < share(nodes, a, max)
            ==> region_total(region_diverse(nodes, limit, min, max), b) <= region_total(
            region_diverse(nodes, limit, min, max),
            a,
        ) + 1,
        region_total(region_diverse(nodes, limit, min, max), a) < share(nodes, a, max)
            && region_total(region_diverse(nodes, limit, min, max), a) < min ==> region_total(
            region_diverse(nodes, limit, min, max),
            b,
        ) <= min,
{
    let kept = region_diverse(nodes, limit, min, max);
    let picked = picks(nodes, min, max, limit);
    let has_a = region_total(kept, a);
    let has_b = region_total(kept, b);
    if has_a < share(nodes, a, max) && has_b > has_a + 1 {
        lemma_first_of_region(nodes, min, max, limit, a);
        lemma_first_of_region(nodes, min, max, limit, b);
        law_picks_come_first(nodes, min, max, limit);
        lemma_nth_exists(nodes, a, has_a, nodes.len() as int);
        let left = nth_of(nodes, a, has_a);
        assert(node_region(nodes[left]) == a);
        assert(eligible(nodes, max, left));
        assert(!picked.contains(left));
        lemma_nth_exists(nodes, b, (has_b - 1) as nat, nodes.len() as int);
        let taken = nth_of(nodes, b, (has_b - 1) as nat);
        assert(node_region(nodes[taken]) == b);
        assert(picked.contains(taken));
        let p = picked.index_of(taken);
        assert(pick_before(nodes, min, picked[p], left));
    }
}

/// Nodes are left out only where the limit is reached or their region is full.
pub proof fn law_room_is_used(
    nodes: Seq<NodeView>,
    limit: nat,
    min: nat,
    max: Option<nat>,
    region: Seq<char>,
)
    ensures
        region_diverse(nodes, limit, min, max).len() <= limit,
        region_diverse(nodes, limit, min, max).len() < limit ==> region_total(
            region_diverse(nodes, limit, min, max),
            region,
        ) == share(nodes, region, max),
{
    let kept = region_diverse(nodes, limit, min, max);
    let has = region_total(kept, region);
    law_picks_come_first(nodes, min, max, limit);
    lemma_first_of_region(nodes, min, max, limit, region);
    if kept.len() < limit && has < share(nodes, region, max) {
        lemma_nth_exists(nodes, region, has, nodes.len() as int);
        let left = nth_of(nodes, region, has);
        assert(node_region(nodes[left]) == region);
        assert(eligible(nodes, max, left));
    }
}

/// A region gets `min` nodes, or all that it may get. It gets fewer only where the limit is
/// reached, and then no other region has more than `min`.
pub proof fn law_regions_get_their_share(
    nodes: Seq<NodeView>,
    limit: nat,
    min: nat,
    max: Option<nat>,
    region: Seq<char>,
    other: Seq<char>,
)
    ensures
        ({
            let kept = region_diverse(nodes, limit, min, max);
            ||| region_total(kept, region) >= min
            ||| region_total(kept, region) == share(nodes, region, max)
            ||| kept.len() == limit && region_total(kept, other) <= min
        }),
{
    lemma_first_of_region(nodes, min, max, limit, region);
    law_room_is_used(nodes, limit, min, max, region);
    law_regions_balanced(nodes, limit, min, max, region, other);
}

/// As long as regions are owed their share, a node without a known region is picked after every
/// node of a known region that has as few of its own before it.
pub proof fn law_other_region_served_last(
    nodes: Seq<NodeView>,
    min: nat,
    max: Option<nat>,
    k: nat,
    p: int,
    q: int,
)
    requires
        0 <= p < picks(nodes, min, max, k).len(),
        0 <= q < picks(nodes, min, max, k).len(),
        node_region(nodes[picks(nodes, min, max, k)[p]]) != OTHER_REGION@,
        node_region(nodes[picks(nodes, min, max, k)[q]]) == OTHER_REGION@,
        rank(nodes, picks(nodes, min, max, k)[p]) <= rank(nodes, picks(nodes, min, max, k)[q]),
        rank(nodes, picks(nodes, min, max, k)[p]) < min,
    ensures
        p < q,
{
    law_picks_come_first(nodes, min, max, k);
    if q < p {
        assert(pick_before(nodes, min, picks(nodes, min, max, k)[q], picks(nodes, min, max, k)[p]));
    }
}

/// The nodes of the first `upto` that are not picked.
spec fn left_over(nodes: Seq<NodeView>, picked: Seq<int>, upto: int) -> Multiset<NodeView>
    decreases upto,
{
    if upto <= 0 {
        Multiset::empty()
    } else if picked.contains(upto - 1) {
        left_over(nodes, picked, upto - 1)
    } else {
        left_over(nodes, picked, upto - 1).insert(nodes[upto - 1])
    }
}

proof fn lemma_left_over_push(nodes: Seq<NodeView>, picked: Seq<int>, i: int, upto: int)
    requires
        !picked.contains(i),
        0 <= i,
    ensures
        left_over(nodes, picked, upto) == (if i < upto {
            left_over(nodes, picked.push(i), upto).insert(nodes[i])
        } else {
            left_over(nodes, picked.push(i), upto)
        }),
    decreases upto,
{
    if upto > 0 {
        lemma_left_over_push(nodes, picked, i, upto - 1);
        lemma_push_contains(picked, i, upto - 1);
        let rest = left_over(nodes, picked.push(i), upto - 1);
        assert(rest.insert(nodes[i]).insert(nodes[upto - 1]) =~= rest.insert(
            nodes[upto - 1],
        ).insert(nodes[i]));
    }
}

proof fn lemma_left_over_all(nodes: Seq<NodeView>, upto: int)
    requires
        0 <= upto <= nodes.len(),
    ensures
        left_over(nodes, Seq::empty(), upto) == nodes.take(upto).to_multiset(),
    decreases upto,
{
    broadcast use vstd::seq_lib::group_to_multiset_ensures;

    if upto > 0 {
        lemma_left_over_all(nodes, upto - 1);
        assert(nodes.take(upto) =~= nodes.take(upto - 1).push(nodes[upto - 1]));
    } else {
        assert(nodes.take(0).to_multiset() =~= Multiset::empty());
    }
}

proof fn lemma_picked_and_left_over(nodes: Seq<NodeView>, min: nat, max: Option<nat>, k: nat)
    ensures
        region_diverse(nodes, k, min, max).to_multiset().add(
            left_over(nodes, picks(nodes, min, max, k), nodes.len() as int),
        ) == nodes.to_multiset(),
    decreases k,
{
    broadcast use vstd::seq_lib::group_to_multiset_ensures;

    let kept = region_diverse(nodes, k, min, max);
    let size = nodes.len() as int;
    if k == 0 {
        lemma_left_over_all(nodes, size);
        assert(nodes.take(size) =~= nodes);
        assert(kept =~= Seq::<NodeView>::empty());
        assert(kept.to_multiset().add(left_over(nodes, Seq::empty(), size))
            =~= nodes.to_multiset());
    } else {
        let before = picks(nodes, min, max, (k - 1) as nat);
        let kept_before = region_diverse(nodes, (k - 1) as nat, min, max);
        lemma_picked_and_left_over(nodes, min, max, (k - 1) as nat);
        if exists|i: int| is_next(nodes, min, max, before, i) {
            let i = choose|i: int| is_next(nodes, min, max, before, i);
            lemma_left_over_push(nodes, before, i, size);
            assert(kept =~= kept_before.push(nodes[i]));
            assert(kept.to_multiset().add(left_over(nodes, before.push(i), size))
                =~= kept_before.to_multiset().add(left_over(nodes, before, size)));
        }
    }
}

/// What is picked was there before, and nothing is picked twice.
pub proof fn law_picked_from_nodes(nodes: Seq<NodeView>, limit: nat, min: nat, max: Option<nat>)
    ensures
        region_diverse(nodes, limit, min, max).to_multiset().subset_of(nodes.to_multiset()),
{
    lemma_picked_and_left_over(nodes, min, max, limit);
}

// ---------------------------------------------------------------------------
// Reordering between regions
// ---------------------------------------------------------------------------

/// The nodes of `region` among the first `upto`, in their order.
pub open spec fn region_nodes(nodes: Seq<NodeView>, region: Seq<char>, upto: int) -> Seq<NodeView>
    decreases upto,
{
    if upto <= 0 {
        Seq::empty()
    } else if node_region(nodes[upto - 1]) == region {
        region_nodes(nodes, region, upto - 1).push(nodes[upto - 1])
    } else {
        region_nodes(nodes, region, upto - 1)
    }
}

/// Region by region, `a` and `b` have the same nodes in the same order.
pub open spec fn same_by_region(a: Seq<NodeView>, b: Seq<NodeView>) -> bool {
    forall|region: Seq<char>| #[trigger]
        region_nodes(a, region, a.len() as int) == region_nodes(b, region, b.len() as int)
}

/// The nodes of a region are as many as are counted.
proof fn lemma_region_nodes_len(nodes: Seq<NodeView>, region: Seq<char>, upto: int)
    ensures
        region_nodes(nodes, region, upto).len() == region_count(nodes, region, upto),
    decreases upto,
{
    if upto > 0 {
        lemma_region_nodes_len(nodes, region, upto - 1);
    }
}

/// A node stands among those of its region at its rank.
proof fn lemma_region_nodes_at(nodes: Seq<NodeView>, i: int, upto: int)
    requires
        0 <= i < upto <= nodes.len(),
    ensures
        rank(nodes, i) < region_nodes(nodes, node_region(nodes[i]), upto).len(),
        region_nodes(nodes, node_region(nodes[i]), upto)[rank(nodes, i) as int] == nodes[i],
    decreases upto,
{
    if i == upto - 1 {
        lemma_region_nodes_len(nodes, node_region(nodes[i]), i);
    } else {
        lemma_region_nodes_at(nodes, i, upto - 1);
    }
}

/// The node of `b` with the region and the rank that node `i` has in `a`.
spec fn twin(a: Seq<NodeView>, b: Seq<NodeView>, i: int) -> int {
    nth_of(b, node_region(a[i]), rank(a, i))
}

/// A node and its twin are the same node, and each is the twin of the other.
proof fn lemma_twin(a: Seq<NodeView>, b: Seq<NodeView>, i: int)
    requires
        same_by_region(a, b),
        0 <= i < a.len(),
    ensures
        0 <= twin(a, b, i) < b.len(),
        b[twin(a, b, i)] == a[i],
        rank(b, twin(a, b, i)) == rank(a, i),
        twin(b, a, twin(a, b, i)) == i,
{
    let region = node_region(a[i]);
    assert(region_nodes(a, region, a.len() as int) == region_nodes(b, region, b.len() as int));
    lemma_region_nodes_at(a, i, a.len() as int);
    lemma_region_nodes_len(b, region, b.len() as int);
    lemma_nth_exists(b, region, rank(a, i), b.len() as int);
    lemma_region_nodes_at(b, twin(a, b, i), b.len() as int);
    assert(is_nth(a, region, rank(a, i), i));
    lemma_nth_is(a, region, rank(a, i), i);
}

proof fn lemma_same_by_region_symmetric(a: Seq<NodeView>, b: Seq<NodeView>)
    requires
        same_by_region(a, b),
    ensures
        same_by_region(b, a),
{
    assert forall|region: Seq<char>| #[trigger]
        region_nodes(b, region, b.len() as int) == region_nodes(a, region, a.len() as int) by {
        assert(region_nodes(a, region, a.len() as int) == region_nodes(b, region, b.len() as int));
    }
}

/// The first node of a region is as fast in both orders.
proof fn lemma_twin_best(a: Seq<NodeView>, b: Seq<NodeView>, i: int)
    requires
        same_by_region(a, b),
        0 <= i < a.len(),
    ensures
        best_latency(a, node_region(a[i])) == best_latency(b, node_region(a[i])),
{
    let region = node_region(a[i]);
    lemma_rank_grows(a, i, a.len() as int);
    lemma_nth_exists(a, region, 0, a.len() as int);
    lemma_twin(a, b, nth_of(a, region, 0));
}

/// Twins are picked in the order of the nodes whose twins they are.
proof fn lemma_twin_before(a: Seq<NodeView>, b: Seq<NodeView>, min: nat, i: int, j: int)
    requires
        same_by_region(a, b),
        0 <= i < a.len(),
        0 <= j < a.len(),
    ensures
        pick_before(a, min, i, j) == pick_before(b, min, twin(a, b, i), twin(a, b, j)),
{
    lemma_twin(a, b, i);
    lemma_twin(a, b, j);
    lemma_twin_best(a, b, i);
    lemma_twin_best(a, b, j);
}

/// The twin of the next pick is the next pick after the twins.
proof fn lemma_twin_next(
    a: Seq<NodeView>,
    b: Seq<NodeView>,
    min: nat,
    max: Option<nat>,
    picked: Seq<int>,
    twins: Seq<int>,
    i: int,
)
    requires
        same_by_region(a, b),
        twins.len() == picked.len(),
        forall|p: int| 0 <= p < picked.len() ==> 0 <= #[trigger] picked[p] < a.len(),
        forall|p: int| 0 <= p < picked.len() ==> #[trigger] twins[p] == twin(a, b, picked[p]),
        is_next(a, min, max, picked, i),
    ensures
        is_next(b, min, max, twins, twin(a, b, i)),
{
    lemma_twin(a, b, i);
    lemma_same_by_region_symmetric(a, b);
    let t = twin(a, b, i);
    if twins.contains(t) {
        let p = choose|p: int| 0 <= p < twins.len() && twins[p] == t;
        assert(twins[p] == twin(a, b, picked[p]));
        lemma_twin(a, b, picked[p]);
        assert(picked.contains(i));
    }
    assert forall|u: int|
        #[trigger] eligible(b, max, u) && !twins.contains(u) && u != t implies pick_before(
        b,
        min,
        t,
        u,
    ) by {
        lemma_twin(b, a, u);
        let j = twin(b, a, u);
        if picked.contains(j) {
            let p = choose|p: int| 0 <= p < picked.len() && picked[p] == j;
            assert(twins[p] == u);
        }
        assert(eligible(a, max, j));
        lemma_twin_before(a, b, min, i, j);
    }
}

/// The picks of one order are the twins of those of the other.
proof fn lemma_twin_picks(a: Seq<NodeView>, b: Seq<NodeView>, min: nat, max: Option<nat>, k: nat)
    requires
        same_by_region(a, b),
    ensures
        picks(b, min, max, k).len() == picks(a, min, max, k).len(),
        forall|p: int|
            0 <= p < picks(a, min, max, k).len() ==> 0 <= #[trigger] picks(a, min, max, k)[p]
                < a.len(),
        forall|p: int|
            0 <= p < picks(a, min, max, k).len() ==> #[trigger] picks(b, min, max, k)[p] == twin(
                a,
                b,
                picks(a, min, max, k)[p],
            ),
    decreases k,
{
    if k > 0 {
        lemma_twin_picks(a, b, min, max, (k - 1) as nat);
        let picked = picks(a, min, max, (k - 1) as nat);
        let twins = picks(b, min, max, (k - 1) as nat);
        if exists|i: int| is_next(a, min, max, picked, i) {
            let i = choose|i: int| is_next(a, min, max, picked, i);
            lemma_twin_next(a, b, min, max, picked, twins, i);
            let chosen = choose|j: int| is_next(b, min, max, twins, j);
            lemma_next_unique(b, min, max, twins, twin(a, b, i), chosen);
        } else if exists|j: int| is_next(b, min, max, twins, j) {
            let j = choose|j: int| is_next(b, min, max, twins, j);
            lemma_same_by_region_symmetric(a, b);
            assert forall|p: int| 0 <= p < twins.len() implies 0 <= #[trigger] twins[p] < b.len()
                && picked[p] == twin(b, a, twins[p]) by {
                assert(0 <= picked[p] < a.len());
                lemma_twin(a, b, picked[p]);
            }
            lemma_twin_next(b, a, min, max, twins, picked, j);
        }
    }
}

/// How the nodes of different regions are mixed does not matter: with the same nodes in the same
/// order within every region, the same nodes are picked in the same order.
pub proof fn law_mixing_regions_changes_nothing(
    a: Seq<NodeView>,
    b: Seq<NodeView>,
    limit: nat,
    min: nat,
    max: Option<nat>,
)
    requires
        same_by_region(a, b),
    ensures
        region_diverse(a, limit, min, max) == region_diverse(b, limit, min, max),
{
    lemma_twin_picks(a, b, min, max, limit);
    let ours = region_diverse(a, limit, min, max);
    let theirs = region_diverse(b, limit, min, max);
    assert forall|p: int| 0 <= p < ours.len() implies ours[p] == theirs[p] by {
        let i = picks(a, min, max, limit)[p];
        assert(picks(b, min, max, limit)[p] == twin(a, b, i));
        lemma_twin(a, b, i);
    }
    assert(ours =~= theirs);
}

// ---------------------------------------------------------------------------
// What is picked, region by region
// ---------------------------------------------------------------------------

/// The node stands in `region`.
pub open spec fn in_region(region: Seq<char>) -> spec_fn(NodeView) -> bool {
    |node: NodeView| region_of(node.name) == region
}

/// The nodes of one region, in their order.
pub open spec fn of_region(nodes: Seq<NodeView>, region: Seq<char>) -> Seq<NodeView> {
    nodes.filter(in_region(region))
}

/// `number`, or `most` where that is less.
pub open spec fn capped(number: nat, most: Option<nat>) -> nat {
    match most {
        Some(most) => if most < number {
            most
        } else {
            number
        },
        None => number,
    }
}

/// A node is served before another. `a_turn` and `b_turn` count the nodes of the same region that
/// each has before it, in `sorted`. The earlier turn comes first. In the first `min` turns the
/// regions follow each other: those without a name last, then the one whose first node is faster,
/// then by name. In later turns the faster node comes first, then the name of the region decides.
pub open spec fn served_first(
    sorted: Seq<NodeView>,
    min: nat,
    a: NodeView,
    a_turn: nat,
    b: NodeView,
    b_turn: nat,
) -> bool {
    let a_region = region_of(a.name);
    let b_region = region_of(b.name);
    let a_first = answer_time(of_region(sorted, a_region)[0]);
    let b_first = answer_time(of_region(sorted, b_region)[0]);
    if a_turn != b_turn {
        a_turn < b_turn
    } else if a_turn < min {
        if (a_region == "其他"@) != (b_region == "其他"@) {
            b_region == "其他"@
        } else if a_first != b_first {
            a_first < b_first
        } else {
            text_before(a_region, b_region)
        }
    } else if answer_time(a) != answer_time(b) {
        answer_time(a) < answer_time(b)
    } else {
        text_before(a_region, b_region)
    }
}

pub proof fn lemma_region_filter(nodes: Seq<NodeView>, region: Seq<char>, upto: int)
    requires
        0 <= upto <= nodes.len(),
    ensures
        region_nodes(nodes, region, upto) == of_region(nodes.take(upto), region),
        region_count(nodes, region, upto) == of_region(nodes.take(upto), region).len(),
    decreases upto,
{
    reveal(Seq::filter);
    lemma_region_nodes_len(nodes, region, upto);
    if upto > 0 {
        lemma_region_filter(nodes, region, upto - 1);
        assert(nodes.take(upto).drop_last() =~= nodes.take(upto - 1));
    } else {
        assert(nodes.take(0) =~= Seq::<NodeView>::empty());
    }
}

pub proof fn lemma_region_all(nodes: Seq<NodeView>, region: Seq<char>)
    ensures
        region_nodes(nodes, region, nodes.len() as int) == of_region(nodes, region),
        region_total(nodes, region) == of_region(nodes, region).len(),
{
    lemma_region_filter(nodes, region, nodes.len() as int);
    assert(nodes.take(nodes.len() as int) =~= nodes);
}

/// The order of picking, in terms of the nodes themselves.
proof fn lemma_served_first(nodes: Seq<NodeView>, min: nat, i: int, j: int)
    requires
        0 <= i < nodes.len(),
        0 <= j < nodes.len(),
    ensures
        pick_before(nodes, min, i, j) == served_first(
            nodes,
            min,
            nodes[i],
            rank(nodes, i),
            nodes[j],
            rank(nodes, j),
        ),
{
    lemma_first_of(nodes, i);
    lemma_first_of(nodes, j);
}

proof fn lemma_first_of(nodes: Seq<NodeView>, i: int)
    requires
        0 <= i < nodes.len(),
    ensures
        best_latency(nodes, node_region(nodes[i])) as int == answer_time(
            of_region(nodes, region_of(nodes[i].name))[0],
        ),
{
    let region = node_region(nodes[i]);
    lemma_region_all(nodes, region);
    lemma_rank_grows(nodes, i, nodes.len() as int);
    lemma_nth_exists(nodes, region, 0, nodes.len() as int);
    lemma_region_nodes_at(nodes, nth_of(nodes, region, 0), nodes.len() as int);
}

/// The next pick is the first node of its region that is not picked yet.
proof fn lemma_next_rank(nodes: Seq<NodeView>, min: nat, max: Option<nat>, k: nat, next: int)
    requires
        is_next(nodes, min, max, picks(nodes, min, max, k), next),
    ensures
        rank(nodes, next) == region_total(
            region_diverse(nodes, k, min, max),
            node_region(nodes[next]),
        ),
{
    let region = node_region(nodes[next]);
    let count = region_total(region_diverse(nodes, k, min, max), region);
    lemma_first_of_region(nodes, min, max, k, region);
    lemma_rank_grows(nodes, next, nodes.len() as int);
    assert(nodes[next] == nodes[next]);
    if rank(nodes, next) > count {
        lemma_nth_exists(nodes, region, count, nodes.len() as int);
        let earlier = nth_of(nodes, region, count);
        assert(node_region(nodes[earlier]) == region);
        assert(eligible(nodes, max, earlier));
        assert(pick_before(nodes, min, next, earlier));
    }
}

/// Every pick has as many of its region before it among the picks as among the nodes.
proof fn lemma_pick_ranks(nodes: Seq<NodeView>, min: nat, max: Option<nat>, k: nat)
    ensures
        forall|p: int|
            0 <= p < picks(nodes, min, max, k).len() ==> rank(
                region_diverse(nodes, k, min, max),
                p,
            ) == rank(nodes, #[trigger] picks(nodes, min, max, k)[p]),
    decreases k,
{
    if k > 0 {
        lemma_pick_ranks(nodes, min, max, (k - 1) as nat);
        let before = picks(nodes, min, max, (k - 1) as nat);
        let kept = region_diverse(nodes, (k - 1) as nat, min, max);
        if exists|i: int| is_next(nodes, min, max, before, i) {
            let next = choose|i: int| is_next(nodes, min, max, before, i);
            lemma_next_rank(nodes, min, max, (k - 1) as nat, next);
            let longer = region_diverse(nodes, k, min, max);
            assert(longer =~= kept.push(nodes[next]));
            assert forall|p: int| 0 <= p < picks(nodes, min, max, k).len() implies rank(longer, p)
                == rank(nodes, #[trigger] picks(nodes, min, max, k)[p]) by {
                lemma_region_count_push(kept, nodes[next], node_region(longer[p]), p);
                if p < before.len() {
                    assert(rank(kept, p) == rank(nodes, before[p]));
                    assert(longer[p] == kept[p]);
                }
            }
        }
    }
}

/// What is picked of a region is what stands first in it.
pub proof fn law_first_of_each_region(
    nodes: Seq<NodeView>,
    limit: nat,
    min: nat,
    max: Option<nat>,
    region: Seq<char>,
)
    ensures
        ({
            let kept = of_region(region_diverse(nodes, limit, min, max), region);
            &&& kept.len() <= capped(of_region(nodes, region).len(), max)
            &&& kept == of_region(nodes, region).take(kept.len() as int)
        }),
{
    let all = region_diverse(nodes, limit, min, max);
    let kept = of_region(all, region);
    let own = of_region(nodes, region);
    lemma_region_all(all, region);
    lemma_region_all(nodes, region);
    lemma_first_of_region(nodes, min, max, limit, region);
    lemma_pick_ranks(nodes, min, max, limit);
    law_picks_come_first(nodes, min, max, limit);
    assert forall|r: int| 0 <= r < kept.len() implies kept[r] == own[r] by {
        lemma_nth_exists(all, region, r as nat, all.len() as int);
        let p = nth_of(all, region, r as nat);
        lemma_region_nodes_at(all, p, all.len() as int);
        let i = picks(nodes, min, max, limit)[p];
        assert(eligible(nodes, max, i));
        assert(all[p] == nodes[i]);
        lemma_region_nodes_at(nodes, i, nodes.len() as int);
    }
    assert(kept =~= own.take(kept.len() as int));
}

/// What is picked comes in the order of service, and what could still be picked would come behind
/// it: it is left out only because the limit is reached.
pub proof fn law_order_of_service(nodes: Seq<NodeView>, limit: nat, min: nat, max: Option<nat>)
    ensures
        ({
            let kept = region_diverse(nodes, limit, min, max);
            let turn = |p: int| of_region(kept.take(p), region_of(kept[p].name)).len();
            &&& kept.len() <= limit
            &&& forall|p: int, q: int|
                0 <= p < q < kept.len() ==> served_first(
                    nodes,
                    min,
                    #[trigger] kept[p],
                    turn(p),
                    #[trigger] kept[q],
                    turn(q),
                )
            &&& forall|region: Seq<char>|
                (#[trigger] of_region(kept, region)).len() < capped(
                    of_region(nodes, region).len(),
                    max,
                ) ==> kept.len() == limit && forall|p: int|
                    0 <= p < kept.len() ==> served_first(
                        nodes,
                        min,
                        #[trigger] kept[p],
                        turn(p),
                        of_region(nodes, region)[of_region(kept, region).len() as int],
                        of_region(kept, region).len(),
                    )
        }),
{
    let kept = region_diverse(nodes, limit, min, max);
    let picked = picks(nodes, min, max, limit);
    let turn = |p: int| of_region(kept.take(p), region_of(kept[p].name)).len();
    law_picks_come_first(nodes, min, max, limit);
    lemma_pick_ranks(nodes, min, max, limit);
    assert forall|p: int| 0 <= p < kept.len() implies #[trigger] turn(p) == rank(nodes, picked[p])
        && kept[p] == nodes[picked[p]] && 0 <= picked[p] < nodes.len() by {
        assert(eligible(nodes, max, picked[p]));
        lemma_region_filter(kept, region_of(kept[p].name), p);
    }
    assert forall|p: int, q: int| 0 <= p < q < kept.len() implies served_first(
        nodes,
        min,
        #[trigger] kept[p],
        turn(p),
        #[trigger] kept[q],
        turn(q),
    ) by {
        assert(turn(p) == rank(nodes, picked[p]) && turn(q) == rank(nodes, picked[q]));
        assert(pick_before(nodes, min, picked[p], picked[q]));
        lemma_served_first(nodes, min, picked[p], picked[q]);
    }
    assert forall|region: Seq<char>|
        (#[trigger] of_region(kept, region)).len() < capped(
            of_region(nodes, region).len(),
            max,
        ) implies kept.len() == limit && forall|p: int|
        0 <= p < kept.len() ==> served_first(
            nodes,
            min,
            #[trigger] kept[p],
            turn(p),
            of_region(nodes, region)[of_region(kept, region).len() as int],
            of_region(kept, region).len(),
        ) by {
        let has = of_region(kept, region).len();
        lemma_region_all(kept, region);
        lemma_region_all(nodes, region);
        law_room_is_used(nodes, limit, min, max, region);
        lemma_first_of_region(nodes, min, max, limit, region);
        lemma_nth_exists(nodes, region, has, nodes.len() as int);
        let left = nth_of(nodes, region, has);
        lemma_region_nodes_at(nodes, left, nodes.len() as int);
        assert(node_region(nodes[left]) == region);
        assert(eligible(nodes, max, left));
        assert(!picked.contains(left));
        assert forall|p: int| 0 <= p < kept.len() implies served_first(
            nodes,
            min,
            #[trigger] kept[p],
            turn(p),
            of_region(nodes, region)[has as int],
            has,
        ) by {
            assert(turn(p) == rank(nodes, picked[p]));
            assert(pick_before(nodes, min, picked[p], left));
            lemma_served_first(nodes, min, picked[p], left);
        }
    }
}

} // verus!
