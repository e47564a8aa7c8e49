//! Parts of documents: when the subtrees of two nodes are the same, and what a
//! document is without some of its subtrees.

use crate::xml;
use crate::xml::NodeView;
use vstd::prelude::*;

verus! {

// ---------------------------------------------------------------------------
// Same subtrees
// ---------------------------------------------------------------------------

/// Whether node `i` of one document and node `j` of another have the same subtree.
pub open spec fn same_subtree(t: Seq<NodeView>, i: int, u: Seq<NodeView>, j: int) -> bool {
    &&& 0 <= i < t.len()
    &&& 0 <= j < u.len()
    &&& t.subrange(i, i + t[i].size) == u.subrange(j, j + u[j].size)
}

/// Whether some nodes of one document have the same subtrees as some nodes of
/// another, one by one.
pub open spec fn alike(
    t: Seq<NodeView>,
    nodes: Seq<int>,
    u: Seq<NodeView>,
    others: Seq<int>,
) -> bool {
    &&& nodes.len() == others.len()
    &&& forall|k: int|
        #![trigger nodes[k]]
        #![trigger others[k]]
        0 <= k < nodes.len() ==> same_subtree(t, nodes[k], u, others[k])
}

/// Whether two documents have the same where a search ended: nodes with the same
/// subtree, or none in both.
pub open spec fn same_found(
    t: Seq<NodeView>,
    i: Option<int>,
    u: Seq<NodeView>,
    j: Option<int>,
) -> bool {
    match (i, j) {
        (Some(i), Some(j)) => same_subtree(t, i, u, j),
        (None, None) => true,
        _ => false,
    }
}

/// The nodes of same subtrees are the same, one by one.
pub proof fn same_nodes(t: Seq<NodeView>, i: int, u: Seq<NodeView>, j: int, k: int)
    requires
        xml::well_formed(t),
        xml::well_formed(u),
        same_subtree(t, i, u, j),
        0 <= k < t[i].size,
    ensures
        t[i].size == u[j].size,
        t[i + k] == u[j + k],
{
    assert(t.subrange(i, i + t[i].size).len() == t[i].size);
    assert(u.subrange(j, j + u[j].size).len() == u[j].size);
    assert(t.subrange(i, i + t[i].size)[k] == t[i + k]);
    assert(u.subrange(j, j + u[j].size)[k] == u[j + k]);
}

proof fn same_siblings(t: Seq<NodeView>, i: int, u: Seq<NodeView>, j: int, k: int)
    requires
        xml::well_formed(t),
        xml::well_formed(u),
        same_subtree(t, i, u, j),
        0 < k <= t[i].size,
    ensures
        alike(
            t,
            xml::siblings(t, i + k, i + t[i].size),
            u,
            xml::siblings(u, j + k, j + u[j].size),
        ),
    decreases t[i].size - k,
{
    let n = t[i].size;
    same_nodes(t, i, u, j, 0);
    if k < n {
        let c = i + k;
        same_nodes(t, i, u, j, k);
        assert(c + t[c].size <= i + n);
        assert(t.subrange(c, c + t[c].size) == t.subrange(i, i + n).subrange(
            k,
            (k + t[c].size) as int,
        ));
        assert(u.subrange(j + k, j + k + t[c].size) == u.subrange(j, j + n).subrange(
            k,
            (k + t[c].size) as int,
        ));
        assert(same_subtree(t, c, u, j + k));
        same_siblings(t, i, u, j, k + t[c].size);
    }
}

/// The children of same subtrees have the same subtrees.
pub proof fn same_children(t: Seq<NodeView>, i: int, u: Seq<NodeView>, j: int)
    requires
        xml::well_formed(t),
        xml::well_formed(u),
        same_subtree(t, i, u, j),
    ensures
        alike(t, xml::children_of(t, i), u, xml::children_of(u, j)),
{
    same_siblings(t, i, u, j, 1);
}

proof fn same_first_element(
    t: Seq<NodeView>,
    nodes: Seq<int>,
    u: Seq<NodeView>,
    others: Seq<int>,
    name: Seq<char>,
)
    requires
        xml::well_formed(t),
        xml::well_formed(u),
        alike(t, nodes, u, others),
    ensures
        same_found(t, xml::first_element(t, nodes, name), u, xml::first_element(u, others, name)),
    decreases nodes.len(),
{
    if nodes.len() > 0 {
        same_nodes(t, nodes[0], u, others[0], 0);
        let rest = nodes.drop_first();
        let more = others.drop_first();
        assert forall|k: int| 0 <= k < rest.len() implies same_subtree(t, rest[k], u, more[k]) by {
            assert(rest[k] == nodes[k + 1]);
        }
        same_first_element(t, rest, u, more, name);
    }
}

/// A path leads to the same place from the roots of same subtrees.
pub proof fn same_path(
    t: Seq<NodeView>,
    i: int,
    u: Seq<NodeView>,
    j: int,
    path: Seq<Seq<char>>,
)
    requires
        xml::well_formed(t),
        xml::well_formed(u),
        same_subtree(t, i, u, j),
    ensures
        same_found(t, xml::at_path(t, i, path), u, xml::at_path(u, j, path)),
        xml::val_at(t, i, path) == xml::val_at(u, j, path),
    decreases path.len(),
{
    same_nodes(t, i, u, j, 0);
    if path.len() > 0 {
        same_children(t, i, u, j);
        same_first_element(t, xml::children_of(t, i), u, xml::children_of(u, j), path[0]);
        match (
            xml::first_element(t, xml::children_of(t, i), path[0]),
            xml::first_element(u, xml::children_of(u, j), path[0]),
        ) {
            (Some(a), Some(b)) => same_path(t, a, u, b, path.drop_first()),
            _ => {},
        }
    }
}

// ---------------------------------------------------------------------------
// Without some subtrees
// ---------------------------------------------------------------------------

/// Whether node `k` goes when the subtrees of the nodes in `cut` are taken out.
pub open spec fn gone(t: Seq<NodeView>, cut: Set<int>, k: int) -> bool {
    exists|i: int| #[trigger] cut.contains(i) && 0 <= i <= k < i + t[i].size
}

/// How many of the nodes before `n` stay: the place of node `n` afterwards.
pub open spec fn rank(t: Seq<NodeView>, cut: Set<int>, n: int) -> int
    decreases n,
{
    if n <= 0 {
        0
    } else if gone(t, cut, n - 1) {
        rank(t, cut, n - 1)
    } else {
        rank(t, cut, n - 1) + 1
    }
}

/// A node with its subtree reduced to what stays of it.
pub open spec fn reduced(t: Seq<NodeView>, cut: Set<int>, k: int) -> NodeView {
    NodeView { size: (rank(t, cut, k + t[k].size) - rank(t, cut, k)) as nat, ..t[k] }
}

/// The first `n` nodes of a document without the subtrees of the nodes in `cut`.
pub open spec fn pruned_upto(t: Seq<NodeView>, cut: Set<int>, n: int) -> Seq<NodeView>
    decreases n,
{
    if n <= 0 {
        Seq::empty()
    } else if gone(t, cut, n - 1) {
        pruned_upto(t, cut, n - 1)
    } else {
        pruned_upto(t, cut, n - 1).push(reduced(t, cut, n - 1))
    }
}

/// A document without the subtrees of the nodes in `cut`.
pub open spec fn pruned(t: Seq<NodeView>, cut: Set<int>) -> Seq<NodeView> {
    pruned_upto(t, cut, t.len() as int)
}

/// The places of those of some nodes that stay.
pub open spec fn survivors(t: Seq<NodeView>, cut: Set<int>, nodes: Seq<int>) -> Seq<int>
    decreases nodes.len(),
{
    if nodes.len() == 0 {
        Seq::empty()
    } else if gone(t, cut, nodes.last()) {
        survivors(t, cut, nodes.drop_last())
    } else {
        survivors(t, cut, nodes.drop_last()).push(rank(t, cut, nodes.last()))
    }
}

/// Places keep the order of nodes, and no two nodes that stay have the same place.
pub proof fn rank_grows(t: Seq<NodeView>, cut: Set<int>, a: int, b: int)
    requires
        a <= b,
    ensures
        0 <= rank(t, cut, a) <= rank(t, cut, b),
        0 <= a < b && !gone(t, cut, a) ==> rank(t, cut, a) < rank(t, cut, b),
    decreases b - a, b,
{
    if a < b {
        rank_grows(t, cut, a, b - 1);
    } else if a > 0 {
        rank_grows(t, cut, a - 1, a - 1);
    }
}

proof fn kept_upto(t: Seq<NodeView>, cut: Set<int>, n: int, k: int)
    requires
        0 <= k < n,
        !gone(t, cut, k),
    ensures
        pruned_upto(t, cut, n).len() == rank(t, cut, n),
        0 <= rank(t, cut, k) < rank(t, cut, n),
        pruned_upto(t, cut, n)[rank(t, cut, k)] == reduced(t, cut, k),
    decreases n,
{
    pruned_length(t, cut, n - 1);
    rank_grows(t, cut, k, n);
    if k < n - 1 {
        kept_upto(t, cut, n - 1, k);
    }
}

/// As many nodes stay before node `n` as its place says.
pub proof fn pruned_length(t: Seq<NodeView>, cut: Set<int>, n: int)
    ensures
        pruned_upto(t, cut, n).len() == rank(t, cut, n),
    decreases n,
{
    if n > 0 {
        pruned_length(t, cut, n - 1);
    }
}

/// A node that stays is found at its place, with its subtree reduced.
pub proof fn kept_node(t: Seq<NodeView>, cut: Set<int>, k: int)
    requires
        0 <= k < t.len(),
        !gone(t, cut, k),
    ensures
        0 <= rank(t, cut, k) < pruned(t, cut).len(),
        pruned(t, cut)[rank(t, cut, k)] == reduced(t, cut, k),
{
    kept_upto(t, cut, t.len() as int, k);
}

proof fn kept_at(t: Seq<NodeView>, cut: Set<int>, n: int, m: int) -> (k: int)
    requires
        0 <= m < rank(t, cut, n),
    ensures
        0 <= k < n,
        !gone(t, cut, k),
        rank(t, cut, k) == m,
    decreases n,
{
    if !gone(t, cut, n - 1) && m == rank(t, cut, n - 1) {
        n - 1
    } else {
        kept_at(t, cut, n - 1, m)
    }
}

/// A document of which the root stays is a document again.
pub proof fn pruned_is_well_formed(t: Seq<NodeView>, cut: Set<int>)
    requires
        xml::well_formed(t),
        !cut.contains(0),
    ensures
        xml::well_formed(pruned(t, cut)),
{
    let u = pruned(t, cut);
    let n = t.len() as int;
    pruned_length(t, cut, n);
    kept_node(t, cut, 0);
    assert forall|m: int| 0 <= m < u.len() implies 1 <= (#[trigger] u[m]).size <= u.len() - m by {
        let k = kept_at(t, cut, n, m);
        kept_node(t, cut, k);
        assert(1 <= t[k].size <= n - k);
        rank_grows(t, cut, k, k + t[k].size);
        rank_grows(t, cut, k + t[k].size, n);
    }
    assert forall|m: int, l: int|
        #![trigger u[m], u[l]]
        0 <= m < l < u.len() && l < m + u[m].size implies l + u[l].size <= m + u[m].size by {
        let k = kept_at(t, cut, n, m);
        let j = kept_at(t, cut, n, l);
        kept_node(t, cut, k);
        kept_node(t, cut, j);
        assert(1 <= t[k].size <= n - k && 1 <= t[j].size <= n - j);
        rank_grows(t, cut, k, k + t[k].size);
        rank_grows(t, cut, j, j + t[j].size);
        if j <= k {
            rank_grows(t, cut, j, k);
        }
        if k + t[k].size <= j {
            rank_grows(t, cut, k + t[k].size, j);
        }
        rank_grows(t, cut, j + t[j].size, k + t[k].size);
    }
}

/// With a node goes all of its subtree.
proof fn gone_subtree(t: Seq<NodeView>, cut: Set<int>, k: int, m: int)
    requires
        xml::well_formed(t),
        0 <= k < t.len(),
        gone(t, cut, k),
        k <= m <= k + t[k].size,
    ensures
        rank(t, cut, m) == rank(t, cut, k),
    decreases m - k,
{
    if m > k {
        gone_subtree(t, cut, k, m - 1);
        let i = choose|i: int| #[trigger] cut.contains(i) && 0 <= i <= k < i + t[i].size;
        assert(k + t[k].size <= i + t[i].size) by {
            if i < k {
                assert(t[i].size <= t.len() - i && t[k].size <= t.len() - k);
            }
        }
        assert(gone(t, cut, m - 1));
    }
}

proof fn survivors_add(t: Seq<NodeView>, cut: Set<int>, a: Seq<int>, b: Seq<int>)
    ensures
        survivors(t, cut, a + b) == survivors(t, cut, a) + survivors(t, cut, b),
    decreases b.len(),
{
    if b.len() == 0 {
        assert(a + b == a);
        assert(survivors(t, cut, a) + survivors(t, cut, b) == survivors(t, cut, a));
    } else {
        survivors_add(t, cut, a, b.drop_last());
        assert((a + b).drop_last() == a + b.drop_last());
        assert(survivors(t, cut, a + b) == survivors(t, cut, a) + survivors(t, cut, b));
    }
}

/// Of some nodes, the first comes first if it stays.
pub proof fn survivors_first(t: Seq<NodeView>, cut: Set<int>, nodes: Seq<int>)
    requires
        nodes.len() > 0,
    ensures
        survivors(t, cut, nodes) == (if gone(t, cut, nodes[0]) {
            survivors(t, cut, nodes.drop_first())
        } else {
            seq![rank(t, cut, nodes[0])] + survivors(t, cut, nodes.drop_first())
        }),
{
    let one = seq![nodes[0]];
    assert(nodes == one + nodes.drop_first());
    survivors_add(t, cut, one, nodes.drop_first());
    assert(one.drop_last() == Seq::<int>::empty());
    assert(survivors(t, cut, one.drop_last()) == Seq::<int>::empty());
    assert(survivors(t, cut, one) == (if gone(t, cut, nodes[0]) {
        Seq::<int>::empty()
    } else {
        seq![rank(t, cut, nodes[0])]
    }));
    assert(survivors(t, cut, nodes) == survivors(t, cut, one) + survivors(
        t,
        cut,
        nodes.drop_first(),
    ));
}

/// Where all of some nodes stay, they are found at their places.
pub proof fn all_survive(t: Seq<NodeView>, cut: Set<int>, nodes: Seq<int>)
    requires
        forall|k: int| 0 <= k < nodes.len() ==> !gone(t, cut, #[trigger] nodes[k]),
    ensures
        survivors(t, cut, nodes) == nodes.map_values(|k: int| rank(t, cut, k)),
    decreases nodes.len(),
{
    if nodes.len() > 0 {
        let some = nodes.drop_last();
        assert forall|k: int| 0 <= k < some.len() implies !gone(t, cut, #[trigger] some[k]) by {
            assert(some[k] == nodes[k]);
        }
        all_survive(t, cut, some);
        assert(survivors(t, cut, nodes) == nodes.map_values(|k: int| rank(t, cut, k)));
    } else {
        assert(survivors(t, cut, nodes) == nodes.map_values(|k: int| rank(t, cut, k)));
    }
}

proof fn pruned_siblings(t: Seq<NodeView>, cut: Set<int>, i: int, a: int)
    requires
        xml::well_formed(t),
        0 <= i < t.len(),
        i < a <= i + t[i].size,
    ensures
        xml::siblings(pruned(t, cut), rank(t, cut, a), rank(t, cut, i + t[i].size)) == survivors(
            t,
            cut,
            xml::siblings(t, a, i + t[i].size),
        ),
    decreases i + t[i].size - a,
{
    let u = pruned(t, cut);
    let end = i + t[i].size;
    if a < end {
        let next = a + t[a].size;
        let rest = xml::siblings(t, next, end);
        assert(next <= end);
        assert(t[a].size >= 1);
        pruned_siblings(t, cut, i, next);
        assert(xml::siblings(t, a, end).drop_first() == rest);
        survivors_first(t, cut, xml::siblings(t, a, end));
        if gone(t, cut, a) {
            gone_subtree(t, cut, a, next);
        } else {
            kept_node(t, cut, a);
            rank_grows(t, cut, a, next);
            rank_grows(t, cut, a, end);
            assert(rank(t, cut, a) + u[rank(t, cut, a)].size == rank(t, cut, next));
        }
    } else {
        rank_grows(t, cut, a, a);
        assert(xml::siblings(t, a, end) == Seq::<int>::empty());
    }
}

/// The children of a node that stays are those of its children that stay.
pub proof fn pruned_children(t: Seq<NodeView>, cut: Set<int>, i: int)
    requires
        xml::well_formed(t),
        0 <= i < t.len(),
        !gone(t, cut, i),
    ensures
        xml::children_of(pruned(t, cut), rank(t, cut, i)) == survivors(
            t,
            cut,
            xml::children_of(t, i),
        ),
{
    assert(t[i].size >= 1);
    kept_node(t, cut, i);
    rank_grows(t, cut, i, i + t[i].size);
    pruned_siblings(t, cut, i, i + 1);
}

/// The children of a node stand in its subtree, one after the other: the subtree of
/// no node before a child reaches into it.
proof fn sibling_starts(t: Seq<NodeView>, i: int, a: int, m: int, w: int)
    requires
        xml::well_formed(t),
        0 <= i < t.len(),
        i < a <= i + t[i].size,
        0 <= m < xml::siblings(t, a, i + t[i].size).len(),
    ensures
        a <= xml::siblings(t, a, i + t[i].size)[m] < i + t[i].size,
        a <= w < xml::siblings(t, a, i + t[i].size)[m] ==> w + t[w].size <= xml::siblings(
            t,
            a,
            i + t[i].size,
        )[m],
    decreases i + t[i].size - a,
{
    let end = i + t[i].size;
    let nodes = xml::siblings(t, a, end);
    if a < end && m > 0 {
        let next = a + t[a].size;
        assert(next <= end);
        assert(t[a].size >= 1);
        assert(nodes[m] == xml::siblings(t, next, end)[m - 1]);
        sibling_starts(t, i, next, m - 1, w);
        if a < w < next {
            assert(t[w].size <= t.len() - w);
        }
    }
}

/// A child of a node that stays is a node of the document after it, and goes only
/// where it is in `cut` itself.
pub proof fn child_goes_by_itself(t: Seq<NodeView>, cut: Set<int>, i: int, m: int)
    requires
        xml::well_formed(t),
        0 <= i < t.len(),
        !gone(t, cut, i),
        0 <= m < xml::children_of(t, i).len(),
    ensures
        i < xml::children_of(t, i)[m] < i + t[i].size,
        gone(t, cut, xml::children_of(t, i)[m]) ==> cut.contains(xml::children_of(t, i)[m]),
{
    let c = xml::children_of(t, i)[m];
    assert(t[i].size >= 1);
    sibling_starts(t, i, i + 1, m, i);
    if gone(t, cut, c) {
        let w = choose|w: int| #[trigger] cut.contains(w) && 0 <= w <= c < w + t[w].size;
        sibling_starts(t, i, i + 1, m, w);
    }
}

/// The children of a node stand in its subtree, and their subtrees have no node in
/// common: where node `x` is in those of two children, they are one.
pub proof fn children_are_apart(t: Seq<NodeView>, i: int, m: int, n: int, x: int)
    requires
        xml::well_formed(t),
        0 <= i < t.len(),
        0 <= m < xml::children_of(t, i).len(),
        0 <= n < xml::children_of(t, i).len(),
    ensures
        ({
            let a = xml::children_of(t, i)[m];
            let b = xml::children_of(t, i)[n];
            &&& i < a < i + t[i].size <= t.len()
            &&& a + t[a].size <= i + t[i].size
            &&& a <= x < a + t[a].size && b <= x < b + t[b].size ==> a == b
        }),
{
    let a = xml::children_of(t, i)[m];
    let b = xml::children_of(t, i)[n];
    assert(t[i].size >= 1);
    sibling_starts(t, i, i + 1, m, b);
    sibling_starts(t, i, i + 1, n, a);
}

proof fn pruned_first_element(t: Seq<NodeView>, cut: Set<int>, nodes: Seq<int>, name: Seq<char>)
    requires
        forall|m: int| 0 <= m < nodes.len() ==> 0 <= #[trigger] nodes[m] < t.len(),
        forall|m: int|
            0 <= m < nodes.len() && gone(t, cut, #[trigger] nodes[m]) ==> t[nodes[m]].tag != name,
    ensures
        xml::first_element(pruned(t, cut), survivors(t, cut, nodes), name) == (
        match xml::first_element(t, nodes, name) {
            Some(j) => Some(rank(t, cut, j)),
            None => None,
        }),
        xml::first_element(t, nodes, name) matches Some(j) ==> nodes.contains(j) && !gone(
            t,
            cut,
            j,
        ),
    decreases nodes.len(),
{
    if nodes.len() > 0 {
        let rest = nodes.drop_first();
        assert forall|m: int| 0 <= m < rest.len() implies 0 <= #[trigger] rest[m] < t.len() by {
            assert(rest[m] == nodes[m + 1]);
        }
        assert forall|m: int|
            0 <= m < rest.len() && gone(t, cut, #[trigger] rest[m]) implies t[rest[m]].tag
            != name by {
            assert(rest[m] == nodes[m + 1]);
        }
        pruned_first_element(t, cut, rest, name);
        survivors_first(t, cut, nodes);
        if !gone(t, cut, nodes[0]) {
            kept_node(t, cut, nodes[0]);
            assert(survivors(t, cut, nodes).drop_first() == survivors(t, cut, rest));
        }
        match xml::first_element(t, rest, name) {
            Some(j) => {
                let m = choose|m: int| 0 <= m < rest.len() && rest[m] == j;
                assert(nodes[m + 1] == j);
            },
            None => {},
        }
        assert(nodes.contains(nodes[0]));
    }
}

/// A path leads to the same node as before, as long as no node of a name on the path
/// is taken out.
pub proof fn pruned_path(t: Seq<NodeView>, cut: Set<int>, i: int, path: Seq<Seq<char>>)
    requires
        xml::well_formed(t),
        0 <= i < t.len(),
        !gone(t, cut, i),
        forall|c: int, m: int|
            #![trigger cut.contains(c), path[m]]
            cut.contains(c) && 0 <= m < path.len() ==> t[c].tag != path[m],
    ensures
        xml::at_path(pruned(t, cut), rank(t, cut, i), path) == (match xml::at_path(t, i, path) {
            Some(j) => Some(rank(t, cut, j)),
            None => None,
        }),
        xml::val_at(pruned(t, cut), rank(t, cut, i), path) == xml::val_at(t, i, path),
    decreases path.len(),
{
    kept_node(t, cut, i);
    if path.len() > 0 {
        let nodes = xml::children_of(t, i);
        pruned_children(t, cut, i);
        assert forall|m: int| 0 <= m < nodes.len() implies 0 <= #[trigger] nodes[m] < t.len() by {
            child_goes_by_itself(t, cut, i, m);
        }
        assert forall|m: int|
            0 <= m < nodes.len() && gone(t, cut, #[trigger] nodes[m]) implies t[nodes[m]].tag
            != path[0] by {
            child_goes_by_itself(t, cut, i, m);
        }
        pruned_first_element(t, cut, nodes, path[0]);
        match xml::first_element(t, nodes, path[0]) {
            Some(j) => {
                let rest = path.drop_first();
                assert forall|c: int, m: int|
                    #![trigger cut.contains(c), rest[m]]
                    cut.contains(c) && 0 <= m < rest.len() implies t[c].tag != rest[m] by {
                    assert(rest[m] == path[m + 1]);
                }
                pruned_path(t, cut, j, rest);
            },
            None => {},
        }
    }
}

} // verus!
