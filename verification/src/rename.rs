//! Names for nodes: their airport, their region and, where that is taken, a number.
use crate::model::node_views;
use crate::model::NodeView;
use crate::model::ProxyNode;
use crate::number::decimal;
use crate::number::decimal_text;
use crate::number::is_digit;
use crate::number::lemma_decimal_digits;
use crate::number::lemma_decimal_injective;
use crate::region::detect_region;
use crate::region::lemma_region_ends_without_digit;
use crate::region::region_of;
use vstd::prelude::*;
use vstd::string::StringExecFns;

verus! {

/// The airport and the region of a node.
pub open spec fn base_name(node: NodeView) -> Seq<char> {
    node.group_name + "-"@ + region_of(node.name)
}

/// How many of the first `upto` nodes have the base name `base`.
pub open spec fn base_count(nodes: Seq<NodeView>, base: Seq<char>, upto: int) -> nat
    decreases upto,
{
    if upto <= 0 {
        0
    } else {
        base_count(nodes, base, upto - 1) + (if base_name(nodes[upto - 1]) == base {
            1nat
        } else {
            0nat
        })
    }
}

/// The name of the `n`th node with the base name `base`: the first goes without a number.
pub open spec fn numbered(base: Seq<char>, n: nat) -> Seq<char> {
    if n == 1 {
        base
    } else {
        base + "-"@ + decimal(n)
    }
}

/// The new name of node `i`.
pub open spec fn unique_name(nodes: Seq<NodeView>, i: int) -> Seq<char> {
    numbered(base_name(nodes[i]), base_count(nodes, base_name(nodes[i]), i + 1))
}

/// The nodes under their new names, otherwise unchanged.
pub open spec fn renamed(nodes: Seq<NodeView>) -> Seq<NodeView> {
    Seq::new(nodes.len(), |i: int| NodeView { name: unique_name(nodes, i), ..nodes[i] })
}

proof fn lemma_base_count_grows(nodes: Seq<NodeView>, base: Seq<char>, from: int, to: int)
    requires
        0 <= from <= to,
    ensures
        base_count(nodes, base, from) <= base_count(nodes, base, to),
    decreases to,
{
    if from < to {
        lemma_base_count_grows(nodes, base, from, to - 1);
    }
}

/// A base name and a number can be told from their joint name.
proof fn lemma_numbered_injective(a: Seq<char>, n: nat, b: Seq<char>, m: nat)
    requires
        a.len() > 0,
        b.len() > 0,
        !is_digit(a.last()),
        !is_digit(b.last()),
        numbered(a, n) == numbered(b, m),
    ensures
        a == b,
        n == m,
{
    reveal_strlit("-");
    lemma_decimal_digits(n);
    lemma_decimal_digits(m);
    let x = decimal(n);
    let y = decimal(m);
    let name = numbered(a, n);
    if n == 1 && m != 1 {
        assert(name.last() == y.last());
        assert(is_digit(y[y.len() - 1]));
    } else if n != 1 && m == 1 {
        assert(name.last() == x.last());
        assert(is_digit(x[x.len() - 1]));
    } else if n != 1 && m != 1 {
        let left = a + "-"@ + x;
        let right = b + "-"@ + y;
        assert(left == name && right == name);
        assert("-"@.len() == 1 && "-"@[0] == '-');
        assert(left.len() == a.len() + 1 + x.len());
        assert(right.len() == b.len() + 1 + y.len());
        assert(!is_digit('-'));
        assert(x.len() == y.len()) by {
            if x.len() < y.len() {
                let at = a.len() as int;
                assert(left[at] == '-');
                assert(right[at] == y[at - b.len() - 1]);
                assert(is_digit(y[at - b.len() - 1]));
            } else if y.len() < x.len() {
                let at = b.len() as int;
                assert(right[at] == '-');
                assert(left[at] == x[at - a.len() - 1]);
                assert(is_digit(x[at - a.len() - 1]));
            }
        }
        assert(a.len() == b.len());
        assert(a =~= name.take(a.len() as int));
        assert(b =~= name.take(a.len() as int));
        assert(x =~= name.skip(a.len() as int + 1));
        assert(y =~= name.skip(a.len() as int + 1));
        lemma_decimal_injective(n, m);
    }
}

/// No two nodes get the same name.
pub proof fn law_names_are_unique(nodes: Seq<NodeView>, i: int, j: int)
    requires
        0 <= i < nodes.len(),
        0 <= j < nodes.len(),
        i != j,
    ensures
        renamed(nodes)[i].name != renamed(nodes)[j].name,
{
    if j < i {
        lemma_names_are_unique_in_order(nodes, j, i);
    } else {
        lemma_names_are_unique_in_order(nodes, i, j);
    }
}

proof fn lemma_names_are_unique_in_order(nodes: Seq<NodeView>, i: int, j: int)
    requires
        0 <= i < j < nodes.len(),
    ensures
        unique_name(nodes, i) != unique_name(nodes, j),
{
    let a = base_name(nodes[i]);
    let b = base_name(nodes[j]);
    let n = base_count(nodes, a, i + 1);
    let m = base_count(nodes, b, j + 1);
    lemma_region_ends_without_digit(nodes[i].name);
    lemma_region_ends_without_digit(nodes[j].name);
    if unique_name(nodes, i) == unique_name(nodes, j) {
        lemma_numbered_injective(a, n, b, m);
        lemma_base_count_grows(nodes, a, i + 1, j);
    }
}

/// Renames each node to its airport and its region, which its name so far tells. The second node
/// of the same airport and region gets a 2 behind that, the third a 3, and so on.
pub fn uniquify_proxy_names(nodes: &mut [ProxyNode])
    ensures
        node_views(final(nodes)@) == renamed(node_views(old(nodes)@)),
{
    let ghost views = node_views(nodes@);
    let size: usize = nodes.len();
    let mut bases: Vec<String> = Vec::new();
    for i in 0..size
        invariant
            size == nodes@.len() == views.len(),
            bases@.len() == i,
            forall|j: int| 0 <= j < i ==> (#[trigger] bases@[j])@ == base_name(views[j]),
            forall|j: int| 0 <= j < i ==> (#[trigger] nodes@[j])@ == renamed(views)[j],
            forall|j: int| i <= j < size ==> (#[trigger] nodes@[j])@ == views[j],
    {
        let ghost before = nodes@;
        assert(before[i as int]@ == views[i as int]);
        let mut base = nodes[i].group_name.clone();
        base.append("-");
        base.append(detect_region(nodes[i].name.as_str()));
        let mut count: usize = 1;
        for j in 0..i
            invariant
                i < size,
                bases@.len() == i,
                forall|k: int| 0 <= k < i ==> (#[trigger] bases@[k])@ == base_name(views[k]),
                count == base_count(views, base@, j as int) + 1,
                count <= j + 1,
        {
            if bases[j] == base {
                count = count + 1;
            }
        }
        assert(count == base_count(views, base@, i + 1));
        let name: String = if count == 1 {
            base.clone()
        } else {
            let mut name = base.clone();
            name.append("-");
            name.append(decimal_text(count as u64).as_str());
            name
        };
        nodes[i].name = name;
        bases.push(base);
        assert forall|j: int| 0 <= j < size implies (#[trigger] nodes@[j])@ == (if j <= i {
            renamed(views)[j]
        } else {
            views[j]
        }) by {
            if j != i {
                assert(nodes@[j] == before[j]);
            }
        }
    }
    assert(node_views(nodes@) =~= renamed(views));
}

/// How a node is renamed: to its airport, a hyphen and the region that its name tells. Of the
/// nodes for which that is the same, the second has `-2` behind it, the third `-3`, and so on. It
/// is otherwise the same node.
pub proof fn law_new_names(nodes: Seq<NodeView>, i: int)
    requires
        0 <= i < nodes.len(),
    ensures
        renamed(nodes).len() == nodes.len(),
        ({
            let base = nodes[i].group_name + "-"@ + region_of(nodes[i].name);
            let count = nodes.take(i + 1).filter(
                |node: NodeView| node.group_name + "-"@ + region_of(node.name) == base,
            ).len();
            renamed(nodes)[i] == (NodeView {
                name: if count == 1 {
                    base
                } else {
                    base + "-"@ + decimal(count)
                },
                kind: nodes[i].kind,
                server: nodes[i].server,
                port: nodes[i].port,
                source_tier: nodes[i].source_tier,
                group_name: nodes[i].group_name,
                latency: nodes[i].latency,
                other_fields: nodes[i].other_fields,
            })
        }),
{
    lemma_base_filter(nodes, base_name(nodes[i]), i + 1);
}

proof fn lemma_base_filter(nodes: Seq<NodeView>, base: Seq<char>, upto: int)
    requires
        0 <= upto <= nodes.len(),
    ensures
        base_count(nodes, base, upto) == nodes.take(upto).filter(
            |node: NodeView| node.group_name + "-"@ + region_of(node.name) == base,
        ).len(),
    decreases upto,
{
    reveal(Seq::filter);
    if upto > 0 {
        lemma_base_filter(nodes, base, upto - 1);
        assert(nodes.take(upto).drop_last() =~= nodes.take(upto - 1));
    } else {
        assert(nodes.take(0) =~= Seq::<NodeView>::empty());
    }
}

} // verus!
