//! Line-to-block merging: the disjoint-set forest that joins neighbouring
//! lines, and the grouping of lines into blocks.
use vstd::prelude::*;
use crate::ordering::{count_set, count_true, lemma_count_true_constant};
use std::collections::HashMap;

verus! {

// ---------------------------------------------------------------------------
// Disjoint-set forest
// ---------------------------------------------------------------------------

/// The conditions that `roots` and `depth` meet at node `i` of `parent`.
pub open spec fn forest_at(parent: Seq<usize>, roots: Seq<int>, depth: Seq<nat>, i: int) -> bool {
    &&& parent[i] < parent.len()
    &&& 0 <= roots[i] < parent.len()
    &&& parent[roots[i]] == roots[i]
    &&& roots[parent[i] as int] == roots[i]
    &&& (parent[i] == i ==> roots[i] == i)
    &&& (parent[i] == i <==> depth[i] == 0)
    &&& (parent[i] != i ==> depth[parent[i] as int] < depth[i])
}

/// `roots` and `depth` witness that `parent` is a forest of parent links:
/// every link stays in range, following links strictly decreases `depth`,
/// `depth` is zero exactly at the roots (the nodes that are their own
/// parent), and `roots[i]` is the root reached from `i`.
#[verifier::opaque]
pub open spec fn forest_witness(parent: Seq<usize>, roots: Seq<int>, depth: Seq<nat>) -> bool {
    &&& roots.len() == parent.len()
    &&& depth.len() == parent.len()
    &&& forall|i: int| 0 <= i < parent.len() ==> #[trigger] forest_at(parent, roots, depth, i)
}

/// `parent` is a forest: following parent links from any node ends at a
/// root after finitely many steps.
pub open spec fn is_forest(parent: Seq<usize>) -> bool {
    exists|roots: Seq<int>, depth: Seq<nat>| forest_witness(parent, roots, depth)
}

/// A witness of `is_forest`, when there is one.
pub closed spec fn witness(parent: Seq<usize>) -> (Seq<int>, Seq<nat>) {
    choose|roots: Seq<int>, depth: Seq<nat>| forest_witness(parent, roots, depth)
}

/// The root that `x` reaches by following parent links (meaningful when
/// `parent` is a forest; see `lemma_root_of`).
pub closed spec fn root_of(parent: Seq<usize>, x: int) -> int {
    witness(parent).0[x]
}

/// The depth that the chosen witness gives `x`.
pub closed spec fn depth_of(parent: Seq<usize>, x: int) -> nat {
    witness(parent).1[x]
}

proof fn lemma_roots_agree(
    parent: Seq<usize>,
    r1: Seq<int>,
    d1: Seq<nat>,
    r2: Seq<int>,
    d2: Seq<nat>,
    x: int,
)
    requires
        forest_witness(parent, r1, d1),
        forest_witness(parent, r2, d2),
        0 <= x < parent.len(),
    ensures
        r1[x] == r2[x],
    decreases d1[x],
{
    reveal(forest_witness);
    assert(forest_at(parent, r1, d1, x));
    assert(forest_at(parent, r2, d2, x));
    if parent[x] != x {
        lemma_roots_agree(parent, r1, d1, r2, d2, parent[x] as int);
    }
}

proof fn lemma_witness(parent: Seq<usize>)
    requires
        is_forest(parent),
    ensures
        forest_witness(parent, witness(parent).0, witness(parent).1),
{
}

/// In a forest the root of a node does not depend on the witness: every
/// witness names `root_of` as the root of each node.
pub proof fn lemma_root_of(parent: Seq<usize>, roots: Seq<int>, depth: Seq<nat>)
    requires
        forest_witness(parent, roots, depth),
    ensures
        is_forest(parent),
        roots.len() == parent.len(),
        depth.len() == parent.len(),
        forall|i: int|
            #![trigger root_of(parent, i)]
            #![trigger roots[i]]
            0 <= i < parent.len() ==> root_of(parent, i) == roots[i],
{
    reveal(forest_witness);
    let w = witness(parent);
    assert(forest_witness(parent, w.0, w.1));
    assert forall|i: int| 0 <= i < parent.len() implies #[trigger] root_of(parent, i) == roots[i] by {
        lemma_roots_agree(parent, w.0, w.1, roots, depth, i);
    }
}

/// Facts about roots: a root lies in range and is its own parent, a node
/// that is its own parent is its own root, and following a link goes
/// strictly closer to the root.
pub proof fn lemma_root_facts(parent: Seq<usize>)
    requires
        is_forest(parent),
    ensures
        forall|i: int|
            0 <= i < parent.len() ==> {
                &&& 0 <= #[trigger] root_of(parent, i) < parent.len()
                &&& parent[i] < parent.len()
                &&& parent[root_of(parent, i)] == root_of(parent, i)
                &&& (parent[i] == i ==> root_of(parent, i) == i)
                &&& (parent[i] != i ==> depth_of(parent, parent[i] as int) < depth_of(parent, i))
            },
{
    reveal(forest_witness);
    let w = witness(parent);
    assert(forest_witness(parent, w.0, w.1));
    assert forall|i: int| 0 <= i < parent.len() implies {
        &&& 0 <= #[trigger] root_of(parent, i) < parent.len()
        &&& parent[i] < parent.len()
        &&& parent[root_of(parent, i)] == root_of(parent, i)
        &&& (parent[i] == i ==> root_of(parent, i) == i)
        &&& (parent[i] != i ==> depth_of(parent, parent[i] as int) < depth_of(parent, i))
    } by {
        assert(forest_at(parent, w.0, w.1, i));
        assert(forest_at(parent, w.0, w.1, w.0[i]));
    }
}

/// A node shares its root with its parent, and a root is its own root.
pub proof fn lemma_root_step(parent: Seq<usize>, i: int)
    requires
        is_forest(parent),
        0 <= i < parent.len(),
    ensures
        root_of(parent, parent[i] as int) == root_of(parent, i),
        root_of(parent, root_of(parent, i)) == root_of(parent, i),
{
    reveal(forest_witness);
    let w = witness(parent);
    assert(forest_witness(parent, w.0, w.1));
    assert(forest_at(parent, w.0, w.1, i));
    assert(forest_at(parent, w.0, w.1, w.0[i]));
}

/// The forest in which every node is its own root.
pub open spec fn singletons(n: nat) -> Seq<usize> {
    Seq::new(n, |i: int| i as usize)
}

/// Every node of the singleton forest is its own root.
pub proof fn lemma_singletons(n: nat)
    requires
        n <= usize::MAX + 1,
    ensures
        is_forest(singletons(n)),
        forall|i: int| 0 <= i < n ==> #[trigger] root_of(singletons(n), i) == i,
{
    reveal(forest_witness);
    let p = singletons(n);
    let roots = Seq::new(n, |i: int| i);
    let depth = Seq::new(n, |i: int| 0nat);
    assert forall|i: int| 0 <= i < n implies #[trigger] forest_at(p, roots, depth, i) by {}
    assert(forest_witness(p, roots, depth));
    lemma_root_of(p, roots, depth);
}

/// Node `y` lies on the path of parent links from `x` to its root (both
/// ends included).
pub open spec fn on_path(parent: Seq<usize>, x: int, y: int) -> bool
    decreases depth_of(parent, x),
    when is_forest(parent) && 0 <= x < parent.len()
{
    if x == y {
        true
    } else if parent[x] == x {
        false
    } else {
        proof {
            lemma_root_facts(parent);
            assert(0 <= root_of(parent, x));
        }
        on_path(parent, parent[x] as int, y)
    }
}

/// `parent` with every link on the path from `x` redirected to the root.
pub open spec fn compressed(parent: Seq<usize>, x: int) -> Seq<usize> {
    Seq::new(
        parent.len(),
        |i: int|
            if on_path(parent, x, i) {
                root_of(parent, x) as usize
            } else {
                parent[i]
            },
    )
}

proof fn lemma_compress(p1: Seq<usize>, roots: Seq<int>, depth: Seq<nat>, x: int)
    requires
        forest_witness(p1, roots, depth),
        0 <= x < p1.len(),
        p1[x] != x,
    ensures
        forest_witness(p1.update(x, roots[x] as usize), roots, depth),
{
    reveal(forest_witness);
    assert(forest_at(p1, roots, depth, x));
    let p2 = p1.update(x, roots[x] as usize);
    assert forall|i: int| 0 <= i < p2.len() implies #[trigger] forest_at(p2, roots, depth, i) by {
        assert(forest_at(p1, roots, depth, i));
        assert(forest_at(p1, roots, depth, roots[x]));
    }
}

/// The roots after linking root `ra` under root `rb`.
spec fn linked_roots(roots: Seq<int>, ra: int, rb: int) -> Seq<int> {
    Seq::new(roots.len(), |i: int| if roots[i] == ra { rb } else { roots[i] })
}

/// The depths after linking root `ra` under root `rb`.
spec fn linked_depth(roots: Seq<int>, depth: Seq<nat>, ra: int) -> Seq<nat> {
    Seq::new(depth.len(), |i: int| if roots[i] == ra { depth[i] + 1 } else { depth[i] })
}

proof fn lemma_link(p1: Seq<usize>, roots: Seq<int>, depth: Seq<nat>, ra: int, rb: int)
    requires
        forest_witness(p1, roots, depth),
        0 <= ra < p1.len(),
        0 <= rb < p1.len(),
        p1[ra] == ra,
        p1[rb] == rb,
        ra != rb,
    ensures
        forest_witness(
            p1.update(ra, rb as usize),
            linked_roots(roots, ra, rb),
            linked_depth(roots, depth, ra),
        ),
{
    reveal(forest_witness);
    let p2 = p1.update(ra, rb as usize);
    let r2 = linked_roots(roots, ra, rb);
    let d2 = linked_depth(roots, depth, ra);
    assert(forest_at(p1, roots, depth, ra));
    assert(forest_at(p1, roots, depth, rb));
    assert forall|i: int| 0 <= i < p2.len() implies #[trigger] forest_at(p2, r2, d2, i) by {
        assert(forest_at(p1, roots, depth, i));
        assert(forest_at(p1, roots, depth, roots[i]));
        assert(forest_at(p1, roots, depth, p1[i] as int));
    }
}

/// Returns the root of `x`, compressing the path from `x`: every link on it
/// is redirected to the root. The partition into trees is unchanged.
pub fn find(parent: &mut [usize], x: usize) -> (r: usize)
    requires
        is_forest(old(parent)@),
        x < old(parent)@.len(),
    ensures
        r == root_of(old(parent)@, x as int),
        is_forest(final(parent)@),
        final(parent)@.len() == old(parent)@.len(),
        forall|i: int|
            0 <= i < old(parent)@.len() ==> #[trigger] root_of(final(parent)@, i) == root_of(
                old(parent)@,
                i,
            ),
        final(parent)@ == compressed(old(parent)@, x as int),
    decreases depth_of(old(parent)@, x as int),
{
    let ghost p0 = parent@;
    proof {
        lemma_witness(p0);
        lemma_root_facts(p0);
        lemma_root_step(p0, x as int);
    }
    let up = parent[x];
    if up != x {
        let r = find(parent, up);
        let ghost p1 = parent@;
        proof {
            lemma_witness(p1);
            lemma_root_facts(p1);
            let w1 = witness(p1);
            lemma_root_of(p1, w1.0, w1.1);
            assert(root_of(p1, x as int) == r);
            assert(p1[x as int] != x);
            lemma_compress(p1, w1.0, w1.1, x as int);
            lemma_root_of(p1.update(x as int, r), w1.0, w1.1);
        }
        parent[x] = r;
        proof {
            let p2 = parent@;
            assert forall|i: int| 0 <= i < p0.len() implies #[trigger] p2[i] == if on_path(
                p0,
                x as int,
                i,
            ) {
                r
            } else {
                p0[i]
            } by {
                assert(on_path(p0, x as int, i) == (i == x || on_path(p0, up as int, i)));
            }
            assert(p2 =~= compressed(p0, x as int));
        }
        r
    } else {
        proof {
            assert forall|i: int| 0 <= i < p0.len() implies #[trigger] p0[i] == if on_path(
                p0,
                x as int,
                i,
            ) {
                x
            } else {
                p0[i]
            } by {
                assert(on_path(p0, x as int, i) == (i == x));
            }
            assert(p0 =~= compressed(p0, x as int));
        }
        x
    }
}

/// The roots of `after` are those of `before` once the tree of `a` is
/// hung under the root of `b`: nodes of `a`'s tree take `b`'s root, every
/// other node keeps its root.
pub open spec fn joined_roots(before: Seq<usize>, after: Seq<usize>, a: int, b: int) -> bool {
    forall|i: int|
        0 <= i < before.len() ==> #[trigger] root_of(after, i) == if root_of(before, i) == root_of(
            before,
            a,
        ) {
            root_of(before, b)
        } else {
            root_of(before, i)
        }
}

/// Nodes `i` and `j` are in the same tree of `parent`.
pub open spec fn same_tree(parent: Seq<usize>, i: int, j: int) -> bool {
    root_of(parent, i) == root_of(parent, j)
}

/// Joining the trees of `a` and `b` puts two nodes in one tree exactly
/// when they were in one tree before, or one was in `a`'s tree and the
/// other in `b`'s.
pub proof fn law_union_joins_exactly(
    before: Seq<usize>,
    after: Seq<usize>,
    a: int,
    b: int,
    i: int,
    j: int,
)
    requires
        is_forest(before),
        0 <= a < before.len(),
        0 <= b < before.len(),
        0 <= i < before.len(),
        0 <= j < before.len(),
        joined_roots(before, after, a, b),
    ensures
        same_tree(after, i, j) <==> (same_tree(before, i, j) || (same_tree(before, i, a)
            && same_tree(before, j, b)) || (same_tree(before, i, b) && same_tree(before, j, a))),
        same_tree(after, a, b),
{
}

/// Joins the trees of `a` and `b`: the root of `a`'s tree is linked under
/// the root of `b`'s tree. Every node of `a`'s tree then has `b`'s root;
/// every other node keeps its root.
pub fn union(parent: &mut [usize], a: usize, b: usize)
    requires
        is_forest(old(parent)@),
        a < old(parent)@.len(),
        b < old(parent)@.len(),
    ensures
        is_forest(final(parent)@),
        final(parent)@.len() == old(parent)@.len(),
        joined_roots(old(parent)@, final(parent)@, a as int, b as int),
        final(parent)@ == ({
            let after_finds = compressed(compressed(old(parent)@, a as int), b as int);
            if root_of(old(parent)@, a as int) == root_of(old(parent)@, b as int) {
                after_finds
            } else {
                after_finds.update(
                    root_of(old(parent)@, a as int),
                    root_of(old(parent)@, b as int) as usize,
                )
            }
        }),
{
    let ghost p0 = parent@;
    let ra = find(parent, a);
    let rb = find(parent, b);
    let ghost p1 = parent@;
    proof {
        lemma_witness(p1);
        lemma_root_facts(p1);
        assert(0 <= root_of(p1, a as int));
        assert(0 <= root_of(p1, b as int));
    }
    if ra != rb {
        proof {
            let w1 = witness(p1);
            lemma_root_of(p1, w1.0, w1.1);
            lemma_link(p1, w1.0, w1.1, ra as int, rb as int);
            lemma_root_of(
                p1.update(ra as int, rb),
                linked_roots(w1.0, ra as int, rb as int),
                linked_depth(w1.0, w1.1, ra as int),
            );
        }
        parent[ra] = rb;
        proof {
            let w1 = witness(p1);
            let p2 = parent@;
            assert forall|i: int| 0 <= i < p0.len() implies #[trigger] root_of(p2, i) == if root_of(
                p0,
                i,
            ) == root_of(p0, a as int) {
                root_of(p0, b as int)
            } else {
                root_of(p0, i)
            } by {
                assert(root_of(p1, i) == root_of(p0, i));
                assert(root_of(p2, i) == linked_roots(w1.0, ra as int, rb as int)[i]);
            }
        }
    }
}

// ---------------------------------------------------------------------------
// Connected components of a neighbour relation
// ---------------------------------------------------------------------------

/// `label` gives both ends of every edge the same value.
pub open spec fn respects(label: Seq<int>, edges: Seq<(usize, usize)>) -> bool {
    forall|k: int|
        0 <= k < edges.len() ==> label[(#[trigger] edges[k]).0 as int] == label[edges[k].1 as int]
}

/// Nodes `i` and `j` of `0..n` are joined by a chain of edges (in either
/// direction): every labelling of the nodes that gives both ends of each
/// edge the same value gives `i` and `j` the same value.
pub open spec fn linked(n: nat, edges: Seq<(usize, usize)>, i: int, j: int) -> bool {
    forall|label: Seq<int>|
        #![trigger respects(label, edges)]
        label.len() == n && respects(label, edges) ==> label[i] == label[j]
}

/// Being linked is an equivalence: every node is linked to itself, links
/// go both ways, and links compose.
pub proof fn law_linked_is_equivalence(n: nat, edges: Seq<(usize, usize)>, i: int, j: int, k: int)
    ensures
        linked(n, edges, i, i),
        linked(n, edges, i, j) ==> linked(n, edges, j, i),
        linked(n, edges, i, j) && linked(n, edges, j, k) ==> linked(n, edges, i, k),
{
}

/// The two ends of every edge are linked.
pub proof fn law_edge_ends_linked(n: nat, edges: Seq<(usize, usize)>, k: int)
    requires
        0 <= k < edges.len(),
    ensures
        linked(n, edges, edges[k].0 as int, edges[k].1 as int),
{
}

/// More neighbouring pairs never split a block: nodes linked by some edges
/// stay linked when further edges are added.
pub proof fn law_linked_grows_with_edges(
    n: nat,
    edges: Seq<(usize, usize)>,
    more: Seq<(usize, usize)>,
    i: int,
    j: int,
)
    requires
        linked(n, edges, i, j),
    ensures
        linked(n, edges + more, i, j),
{
    assert forall|label: Seq<int>|
        #![trigger respects(label, edges + more)]
        label.len() == n && respects(label, edges + more) implies label[i] == label[j] by {
        assert forall|k: int| 0 <= k < edges.len() implies label[(#[trigger] edges[k]).0 as int]
            == label[edges[k].1 as int] by {
            assert((edges + more)[k] == edges[k]);
        }
        assert(respects(label, edges));
    }
}

/// Every edge joins two nodes of `0..n`.
pub open spec fn edges_within(n: nat, edges: Seq<(usize, usize)>) -> bool {
    forall|k: int| 0 <= k < edges.len() ==> (#[trigger] edges[k]).0 < n && edges[k].1 < n
}

/// Every labelling that respects `edges` is constant on each tree of
/// `parent`.
#[verifier::opaque]
spec fn labels_follow_roots(parent: Seq<usize>, edges: Seq<(usize, usize)>, n: nat) -> bool {
    forall|label: Seq<int>|
        #![trigger respects(label, edges)]
        label.len() == n && respects(label, edges) ==> forall|x: int|
            0 <= x < n ==> #[trigger] label[x] == label[root_of(parent, x)]
}

/// The first `k` edges join nodes of the same tree of `parent`.
#[verifier::opaque]
spec fn edges_joined(parent: Seq<usize>, edges: Seq<(usize, usize)>, k: int) -> bool {
    forall|m: int|
        0 <= m < k ==> root_of(parent, (#[trigger] edges[m]).0 as int) == root_of(
            parent,
            edges[m].1 as int,
        )
}

proof fn lemma_start_joining(edges: Seq<(usize, usize)>, n: nat)
    requires
        n <= usize::MAX + 1,
    ensures
        labels_follow_roots(singletons(n), edges, n),
        edges_joined(singletons(n), edges, 0),
{
    reveal(labels_follow_roots);
    reveal(edges_joined);
    lemma_singletons(n);
}

proof fn lemma_union_step(
    p0: Seq<usize>,
    p1: Seq<usize>,
    edges: Seq<(usize, usize)>,
    n: nat,
    k: int,
)
    requires
        is_forest(p0),
        p0.len() == n,
        edges_within(n, edges),
        0 <= k < edges.len(),
        forall|i: int|
            0 <= i < n ==> #[trigger] root_of(p1, i) == if root_of(p0, i) == root_of(
                p0,
                edges[k].0 as int,
            ) {
                root_of(p0, edges[k].1 as int)
            } else {
                root_of(p0, i)
            },
        labels_follow_roots(p0, edges, n),
        edges_joined(p0, edges, k),
    ensures
        labels_follow_roots(p1, edges, n),
        edges_joined(p1, edges, k + 1),
{
    reveal(labels_follow_roots);
    reveal(edges_joined);
    let a = edges[k].0 as int;
    let b = edges[k].1 as int;
    assert(a < n && b < n);
    lemma_root_facts(p0);
    assert forall|label: Seq<int>|
        #![trigger respects(label, edges)]
        label.len() == n && respects(label, edges) implies forall|x: int|
        0 <= x < n ==> #[trigger] label[x] == label[root_of(p1, x)] by {
        assert(label[a] == label[root_of(p0, a)]);
        assert(label[b] == label[root_of(p0, b)]);
        assert(label[a] == label[b]);
        assert forall|x: int| 0 <= x < n implies #[trigger] label[x] == label[root_of(p1, x)] by {
            assert(label[x] == label[root_of(p0, x)]);
        }
    }
    assert forall|m: int| 0 <= m < k + 1 implies root_of(p1, (#[trigger] edges[m]).0 as int)
        == root_of(p1, edges[m].1 as int) by {
        assert(edges[m].0 < n && edges[m].1 < n);
    }
}

proof fn lemma_roots_are_components(
    joined: Seq<usize>,
    edges: Seq<(usize, usize)>,
    n: nat,
    i: int,
    j: int,
)
    requires
        is_forest(joined),
        joined.len() == n,
        edges_within(n, edges),
        labels_follow_roots(joined, edges, n),
        edges_joined(joined, edges, edges.len() as int),
        0 <= i < n,
        0 <= j < n,
    ensures
        root_of(joined, i) == root_of(joined, j) <==> linked(n, edges, i, j),
{
    reveal(labels_follow_roots);
    reveal(edges_joined);
    let own = Seq::new(n, |x: int| root_of(joined, x));
    assert(respects(own, edges)) by {
        assert forall|m: int| 0 <= m < edges.len() implies own[(#[trigger] edges[m]).0 as int]
            == own[edges[m].1 as int] by {
            assert(edges[m].0 < n && edges[m].1 < n);
        }
    }
    if root_of(joined, i) == root_of(joined, j) {
        assert forall|label: Seq<int>|
            #![trigger respects(label, edges)]
            label.len() == n && respects(label, edges) implies label[i] == label[j] by {
            assert(label[i] == label[root_of(joined, i)]);
            assert(label[j] == label[root_of(joined, j)]);
        }
    }
    if linked(n, edges, i, j) {
        assert(own[i] == own[j]);
    }
}

/// Labels every node of `0..n` with the root of its component under
/// `edges`: two nodes get the same label exactly when they are linked.
/// This is the union-find pass of block merging: each edge is a pair of
/// neighbouring lines, joined in the order given.
pub fn component_roots(n: usize, edges: &Vec<(usize, usize)>) -> (roots: Vec<usize>)
    requires
        edges_within(n as nat, edges@),
    ensures
        roots@.len() == n,
        forall|i: int| 0 <= i < n ==> #[trigger] roots@[i] < n,
        forall|i: int, j: int|
            0 <= i < n && 0 <= j < n ==> (#[trigger] roots@[i] == #[trigger] roots@[j] <==> linked(
                n as nat,
                edges@,
                i,
                j,
            )),
{
    let mut parent: Vec<usize> = Vec::new();
    let mut i: usize = 0;
    while i < n
        invariant
            i <= n,
            parent@ == singletons(i as nat),
        decreases n - i,
    {
        parent.push(i);
        i = i + 1;
        proof {
            assert(parent@ =~= singletons(i as nat));
        }
    }
    proof {
        lemma_singletons(n as nat);
        lemma_start_joining(edges@, n as nat);
    }
    let mut k: usize = 0;
    while k < edges.len()
        invariant
            k <= edges.len(),
            edges_within(n as nat, edges@),
            is_forest(parent@),
            parent@.len() == n,
            labels_follow_roots(parent@, edges@, n as nat),
            edges_joined(parent@, edges@, k as int),
        decreases edges.len() - k,
    {
        let (a, b) = edges[k];
        let ghost p0 = parent@;
        proof {
            assert(edges@[k as int].0 < n && edges@[k as int].1 < n);
        }
        union(parent.as_mut_slice(), a, b);
        proof {
            lemma_union_step(p0, parent@, edges@, n as nat, k as int);
        }
        k = k + 1;
    }
    let ghost joined = parent@;
    let mut roots: Vec<usize> = Vec::new();
    let mut i: usize = 0;
    while i < n
        invariant
            i <= n,
            is_forest(parent@),
            parent@.len() == n,
            joined.len() == n,
            forall|x: int| 0 <= x < n ==> #[trigger] root_of(parent@, x) == root_of(joined, x),
            roots@.len() == i,
            forall|x: int| 0 <= x < i ==> #[trigger] roots@[x] == root_of(joined, x),
        decreases n - i,
    {
        let r = find(parent.as_mut_slice(), i);
        roots.push(r);
        i = i + 1;
    }
    proof {
        lemma_root_facts(joined);
        assert forall|i: int, j: int| 0 <= i < n && 0 <= j < n implies (#[trigger] roots@[i]
            == #[trigger] roots@[j] <==> linked(n as nat, edges@, i, j)) by {
            lemma_roots_are_components(joined, edges@, n as nat, i, j);
        }
        assert forall|i: int| 0 <= i < n implies #[trigger] roots@[i] < n by {
            assert(0 <= root_of(joined, i) < n);
        }
    }
    roots
}

// ---------------------------------------------------------------------------
// Neighbouring line pairs
// ---------------------------------------------------------------------------

/// Line `j` is a neighbour of line `i` for merging: they are different
/// lines, and either both are upright and `horizontal[i][j]` holds, or
/// neither is and `vertical[i][j]` holds. An upright and a vertical line
/// are never neighbours.
pub open spec fn may_merge(
    upright: Seq<bool>,
    horizontal: Seq<Vec<bool>>,
    vertical: Seq<Vec<bool>>,
    i: int,
    j: int,
) -> bool {
    i != j && if upright[i] && upright[j] {
        horizontal[i]@[j]
    } else if !upright[i] && !upright[j] {
        vertical[i]@[j]
    } else {
        false
    }
}

/// Pair `p` comes before pair `q` (by first line, then second).
pub open spec fn pair_lt(p: (usize, usize), q: (usize, usize)) -> bool {
    p.0 < q.0 || (p.0 == q.0 && p.1 < q.1)
}

/// The pair `(i, j)` is one of `pairs`.
pub open spec fn has_pair(pairs: Seq<(usize, usize)>, i: int, j: int) -> bool {
    exists|k: int| 0 <= k < pairs.len() && #[trigger] pairs[k] == (i as usize, j as usize)
}

/// The neighbouring pairs of `n` lines, in order of first line then second:
/// exactly the pairs `(i, j)` that `may_merge` admits. `horizontal[i][j]`
/// and `vertical[i][j]` tell whether line `j` is a neighbour of line `i` as
/// upright text and as vertical text.
pub fn neighbour_pairs(
    upright: &Vec<bool>,
    horizontal: &Vec<Vec<bool>>,
    vertical: &Vec<Vec<bool>>,
) -> (pairs: Vec<(usize, usize)>)
    requires
        horizontal@.len() == upright@.len(),
        vertical@.len() == upright@.len(),
        forall|i: int| 0 <= i < upright@.len() ==> (#[trigger] horizontal@[i])@.len() == upright@.len(),
        forall|i: int| 0 <= i < upright@.len() ==> (#[trigger] vertical@[i])@.len() == upright@.len(),
    ensures
        edges_within(upright@.len(), pairs@),
        forall|k: int|
            0 <= k < pairs@.len() ==> may_merge(
                upright@,
                horizontal@,
                vertical@,
                (#[trigger] pairs@[k]).0 as int,
                pairs@[k].1 as int,
            ),
        forall|k: int|
            0 <= k < pairs@.len() ==> upright@[(#[trigger] pairs@[k]).0 as int] == upright@[pairs@[k].1 as int],
        forall|k: int, l: int| 0 <= k < l < pairs@.len() ==> pair_lt(#[trigger] pairs@[k], #[trigger] pairs@[l]),
        forall|i: int, j: int|
            0 <= i < upright@.len() && 0 <= j < upright@.len() && #[trigger] may_merge(
                upright@,
                horizontal@,
                vertical@,
                i,
                j,
            ) ==> has_pair(pairs@, i, j),
{
    let n = upright.len();
    let mut pairs: Vec<(usize, usize)> = Vec::new();
    let mut i: usize = 0;
    while i < n
        invariant
            n == upright@.len(),
            horizontal@.len() == n,
            vertical@.len() == n,
            forall|r: int| 0 <= r < n ==> (#[trigger] horizontal@[r])@.len() == n,
            forall|r: int| 0 <= r < n ==> (#[trigger] vertical@[r])@.len() == n,
            i <= n,
            forall|k: int| 0 <= k < pairs@.len() ==> (#[trigger] pairs@[k]).0 < i && pairs@[k].1 < n,
            forall|k: int|
                0 <= k < pairs@.len() ==> may_merge(
                    upright@,
                    horizontal@,
                    vertical@,
                    (#[trigger] pairs@[k]).0 as int,
                    pairs@[k].1 as int,
                ),
            forall|k: int, l: int|
                0 <= k < l < pairs@.len() ==> pair_lt(#[trigger] pairs@[k], #[trigger] pairs@[l]),
            forall|a: int, b: int|
                0 <= a < i && 0 <= b < n && #[trigger] may_merge(upright@, horizontal@, vertical@, a, b)
                    ==> has_pair(pairs@, a, b),
        decreases n - i,
    {
        let mut j: usize = 0;
        while j < n
            invariant
                n == upright@.len(),
                horizontal@.len() == n,
                vertical@.len() == n,
                forall|r: int| 0 <= r < n ==> (#[trigger] horizontal@[r])@.len() == n,
                forall|r: int| 0 <= r < n ==> (#[trigger] vertical@[r])@.len() == n,
                i < n,
                j <= n,
                forall|k: int|
                    0 <= k < pairs@.len() ==> ((#[trigger] pairs@[k]).0 < i || (pairs@[k].0 == i
                        && pairs@[k].1 < j)) && pairs@[k].1 < n,
                forall|k: int|
                    0 <= k < pairs@.len() ==> may_merge(
                        upright@,
                        horizontal@,
                        vertical@,
                        (#[trigger] pairs@[k]).0 as int,
                        pairs@[k].1 as int,
                    ),
                forall|k: int, l: int|
                    0 <= k < l < pairs@.len() ==> pair_lt(#[trigger] pairs@[k], #[trigger] pairs@[l]),
                forall|a: int, b: int|
                    0 <= a < n && 0 <= b < n && (a < i || (a == i && b < j)) && #[trigger] may_merge(
                        upright@,
                        horizontal@,
                        vertical@,
                        a,
                        b,
                    ) ==> has_pair(pairs@, a, b),
            decreases n - j,
        {
            let neighbours = if i == j {
                false
            } else if upright[i] && upright[j] {
                horizontal[i][j]
            } else if !upright[i] && !upright[j] {
                vertical[i][j]
            } else {
                false
            };
            let ghost before = pairs@;
            if neighbours {
                pairs.push((i, j));
                proof {
                    assert forall|a: int, b: int|
                        0 <= a < n && 0 <= b < n && (a < i || (a == i && b < j + 1)) && #[trigger] may_merge(
                            upright@,
                            horizontal@,
                            vertical@,
                            a,
                            b,
                        ) implies has_pair(pairs@, a, b) by {
                        if a == i && b == j {
                            assert(pairs@[before.len() as int] == (i, j));
                        } else {
                            let k = choose|k: int| 0 <= k < before.len() && #[trigger] before[k] == (a as usize, b as usize);
                            assert(pairs@[k] == before[k]);
                        }
                    }
                }
            }
            j = j + 1;
        }
        i = i + 1;
    }
    proof {
        assert forall|k: int|
            0 <= k < pairs@.len() implies upright@[(#[trigger] pairs@[k]).0 as int] == upright@[pairs@[k].1 as int] by {
            assert(may_merge(upright@, horizontal@, vertical@, pairs@[k].0 as int, pairs@[k].1 as int));
        }
    }
    pairs
}

/// Which pairs `neighbour_pairs` lists: for two distinct lines `i` and
/// `j`, the pair `(i, j)` is listed exactly when the neighbour test of their
/// direction, read from `i` to `j`, holds (`horizontal[i][j]` for upright
/// lines, `vertical[i][j]` for vertical ones), whatever the test from `j` to
/// `i` gives; lines of different directions are never paired.
pub proof fn law_neighbour_pairs_follow_one_sided_tests(
    upright: Seq<bool>,
    horizontal: Seq<Vec<bool>>,
    vertical: Seq<Vec<bool>>,
    pairs: Seq<(usize, usize)>,
    i: int,
    j: int,
)
    requires
        upright.len() <= usize::MAX,
        edges_within(upright.len(), pairs),
        forall|k: int|
            0 <= k < pairs.len() ==> may_merge(
                upright,
                horizontal,
                vertical,
                (#[trigger] pairs[k]).0 as int,
                pairs[k].1 as int,
            ),
        forall|a: int, b: int|
            0 <= a < upright.len() && 0 <= b < upright.len() && #[trigger] may_merge(
                upright,
                horizontal,
                vertical,
                a,
                b,
            ) ==> has_pair(pairs, a, b),
        0 <= i < upright.len(),
        0 <= j < upright.len(),
        i != j,
    ensures
        (exists|k: int| 0 <= k < pairs.len() && #[trigger] pairs[k] == (i as usize, j as usize)) <==> (if upright[i]
            && upright[j] {
            horizontal[i]@[j]
        } else if !upright[i] && !upright[j] {
            vertical[i]@[j]
        } else {
            false
        }),
{
    if exists|k: int| 0 <= k < pairs.len() && #[trigger] pairs[k] == (i as usize, j as usize) {
        let k = choose|k: int| 0 <= k < pairs.len() && #[trigger] pairs[k] == (i as usize, j as usize);
        assert(may_merge(upright, horizontal, vertical, pairs[k].0 as int, pairs[k].1 as int));
    }
    if may_merge(upright, horizontal, vertical, i, j) {
        assert(has_pair(pairs, i, j));
    }
}

/// A block never mixes upright and vertical lines: when every neighbouring
/// pair joins lines of the same direction, linked lines have the same
/// direction.
pub proof fn law_blocks_keep_direction(
    n: nat,
    upright: Seq<bool>,
    edges: Seq<(usize, usize)>,
    i: int,
    j: int,
)
    requires
        upright.len() == n,
        0 <= i < n,
        0 <= j < n,
        edges_within(n, edges),
        forall|k: int|
            0 <= k < edges.len() ==> upright[(#[trigger] edges[k]).0 as int] == upright[edges[k].1 as int],
        linked(n, edges, i, j),
    ensures
        upright[i] == upright[j],
{
    let label = Seq::new(n, |x: int| if upright[x] { 1int } else { 0int });
    assert(respects(label, edges)) by {
        assert forall|k: int| 0 <= k < edges.len() implies label[(#[trigger] edges[k]).0 as int]
            == label[edges[k].1 as int] by {
            assert(edges[k].0 < n && edges[k].1 < n);
        }
    }
    assert(label[i] == label[j]);
}

// ---------------------------------------------------------------------------
// Grouping nodes by label
// ---------------------------------------------------------------------------

/// The member lists of `groups`.
pub open spec fn members(groups: Seq<Vec<usize>>) -> Seq<Seq<usize>> {
    groups.map_values(|g: Vec<usize>| g@)
}

/// Node `x` is a member of one of `groups`.
pub open spec fn in_some_group(groups: Seq<Seq<usize>>, x: int) -> bool {
    exists|g: int, a: int|
        0 <= g < groups.len() && 0 <= a < groups[g].len() && #[trigger] groups[g][a] == x
}

/// `groups` lists each of `0..n` exactly once: every group is non-empty and
/// strictly ascending, no node is in two groups, and the groups are ordered
/// by their smallest member (the order in which a scan of `0..n` first
/// meets them).
pub open spec fn ordered_partition(groups: Seq<Seq<usize>>, n: nat) -> bool {
    &&& forall|g: int| 0 <= g < groups.len() ==> #[trigger] groups[g].len() > 0
    &&& forall|g: int, a: int|
        0 <= g < groups.len() && 0 <= a < groups[g].len() ==> #[trigger] groups[g][a] < n
    &&& forall|g: int, a: int, b: int|
        0 <= g < groups.len() && 0 <= a < b < groups[g].len() ==> #[trigger] groups[g][a]
            < #[trigger] groups[g][b]
    &&& forall|g: int, h: int|
        0 <= g < h < groups.len() ==> #[trigger] groups[g][0] < #[trigger] groups[h][0]
    &&& forall|x: int| 0 <= x < n ==> #[trigger] in_some_group(groups, x)
    &&& forall|g: int, a: int, h: int, b: int|
        0 <= g < groups.len() && 0 <= a < groups[g].len() && 0 <= h < groups.len() && 0 <= b
            < groups[h].len() && #[trigger] groups[g][a] == #[trigger] groups[h][b] ==> g == h
}

/// Groups the nodes `0..labels.len()` by label: nodes share a group exactly
/// when they share a label; groups come in the order of their first node,
/// and each lists its nodes in ascending order.
pub fn group_by_label(labels: &Vec<usize>) -> (groups: Vec<Vec<usize>>)
    ensures
        ordered_partition(members(groups@), labels@.len()),
        forall|g: int, a: int, h: int, b: int|
            0 <= g < groups@.len() && 0 <= a < groups@[g]@.len() && 0 <= h < groups@.len() && 0
                <= b < groups@[h]@.len() ==> (g == h <==> labels@[#[trigger] groups@[g]@[a] as int]
                == labels@[#[trigger] groups@[h]@[b] as int]),
{
    let n = labels.len();
    // index[r]: the group of the nodes with label r, once there is one.
    let mut index: HashMap<usize, usize> = HashMap::new();
    let mut groups: Vec<Vec<usize>> = Vec::new();
    // gid[x]: the group of node x; pos[x]: its place in that group.
    let ghost mut gid: Seq<int> = Seq::empty();
    let ghost mut pos: Seq<int> = Seq::empty();
    let mut i: usize = 0;
    while i < n
        invariant
            n == labels@.len(),
            i <= n,
            gid.len() == i,
            pos.len() == i,
            groups@.len() <= i,
            forall|x: int|
                #![trigger gid[x]]
                0 <= x < i ==> 0 <= gid[x] < groups@.len() && 0 <= pos[x] < groups@[gid[x]]@.len()
                    && groups@[gid[x]]@[pos[x]] == x,
            forall|g: int| 0 <= g < groups@.len() ==> #[trigger] groups@[g]@.len() > 0,
            forall|g: int, a: int|
                0 <= g < groups@.len() && 0 <= a < groups@[g]@.len() ==> #[trigger] groups@[g]@[a]
                    < i && gid[groups@[g]@[a] as int] == g,
            forall|x: int, y: int|
                0 <= x < i && 0 <= y < i ==> (#[trigger] gid[x] == #[trigger] gid[y] <==> labels@[x]
                    == labels@[y]),
            forall|x: int|
                0 <= x < i ==> index@.contains_key(#[trigger] labels@[x]) && index@[labels@[x]]
                    == gid[x],
            forall|r: usize|
                #[trigger] index@.contains_key(r) ==> index@[r] < groups@.len() && labels@[groups@[index@[r] as int]@[0] as int]
                    == r,
            forall|g: int, a: int, b: int|
                0 <= g < groups@.len() && 0 <= a < b < groups@[g]@.len() ==> #[trigger] groups@[g]@[a]
                    < #[trigger] groups@[g]@[b],
            forall|g: int, h: int|
                0 <= g < h < groups@.len() ==> #[trigger] groups@[g]@[0] < #[trigger] groups@[h]@[0],
        decreases n - i,
    {
        let r = labels[i];
        let ghost old_groups = groups@;
        match index.get(&r) {
            None => {
                proof {
                    assert forall|x: int| 0 <= x < i implies #[trigger] labels@[x] != r by {
                        assert(index@.contains_key(labels@[x]));
                    }
                }
                let g = groups.len();
                let mut fresh: Vec<usize> = Vec::new();
                fresh.push(i);
                groups.push(fresh);
                index.insert(r, g);
                proof {
                    gid = gid.push(g as int);
                    pos = pos.push(0);
                    assert(groups@[g as int]@ == seq![i]);
                    assert forall|g1: int, h1: int|
                        0 <= g1 < h1 < groups@.len() implies #[trigger] groups@[g1]@[0]
                        < #[trigger] groups@[h1]@[0] by {
                        if h1 == g {
                            assert(groups@[g1]@[0] < i);
                        }
                    }
                }
            },
            Some(found) => {
                let g = *found;
                // the first node of the group has label r
                let ghost w = groups@[g as int]@[0] as int;
                proof {
                    assert(gid[w] == g);
                    assert(labels@[w] == r);
                }
                groups[g].push(i);
                proof {
                    gid = gid.push(g as int);
                    pos = pos.push(old_groups[g as int]@.len() as int);
                    assert(groups@[g as int]@ == old_groups[g as int]@.push(i));
                    assert forall|x: int, y: int|
                        0 <= x < i + 1 && 0 <= y < i + 1 implies (#[trigger] gid[x] == #[trigger] gid[y]
                        <==> labels@[x] == labels@[y]) by {
                        if x == i && y < i {
                            assert(gid[y] == gid[w] <==> labels@[y] == labels@[w]);
                        }
                        if y == i && x < i {
                            assert(gid[x] == gid[w] <==> labels@[x] == labels@[w]);
                        }
                    }
                }
            },
        }
        i = i + 1;
    }
    proof {
        let m = members(groups@);
        assert forall|x: int| 0 <= x < n implies #[trigger] in_some_group(m, x) by {
            assert(m[gid[x]][pos[x]] == x);
        }
        assert forall|g: int, a: int, h: int, b: int|
            0 <= g < m.len() && 0 <= a < m[g].len() && 0 <= h < m.len() && 0 <= b < m[h].len()
                && #[trigger] m[g][a] == #[trigger] m[h][b] implies g == h by {
            assert(gid[groups@[g]@[a] as int] == g);
            assert(gid[groups@[h]@[b] as int] == h);
        }
        assert forall|g: int, a: int, h: int, b: int|
            0 <= g < groups@.len() && 0 <= a < groups@[g]@.len() && 0 <= h < groups@.len() && 0
                <= b < groups@[h]@.len() implies (g == h <==> labels@[#[trigger] groups@[g]@[a] as int]
            == labels@[#[trigger] groups@[h]@[b] as int]) by {
            let x = groups@[g]@[a] as int;
            let y = groups@[h]@[b] as int;
            assert(gid[x] == g);
            assert(gid[y] == h);
        }
    }
    groups
}

/// The blocks of `n` lines whose neighbouring pairs are `edges`: the
/// connected components of the edges, each listing its lines in ascending
/// order, in the order of their first line. Two lines share a block
/// exactly when a chain of neighbouring pairs links them.
pub fn block_groups(n: usize, edges: &Vec<(usize, usize)>) -> (groups: Vec<Vec<usize>>)
    requires
        edges_within(n as nat, edges@),
    ensures
        ordered_partition(members(groups@), n as nat),
        forall|g: int, a: int, h: int, b: int|
            0 <= g < groups@.len() && 0 <= a < groups@[g]@.len() && 0 <= h < groups@.len() && 0
                <= b < groups@[h]@.len() ==> (g == h <==> linked(
                n as nat,
                edges@,
                #[trigger] groups@[g]@[a] as int,
                #[trigger] groups@[h]@[b] as int,
            )),
{
    let roots = component_roots(n, edges);
    let groups = group_by_label(&roots);
    proof {
        let m = members(groups@);
        assert forall|g: int, a: int, h: int, b: int|
            0 <= g < groups@.len() && 0 <= a < groups@[g]@.len() && 0 <= h < groups@.len() && 0
                <= b < groups@[h]@.len() implies (g == h <==> linked(
            n as nat,
            edges@,
            #[trigger] groups@[g]@[a] as int,
            #[trigger] groups@[h]@[b] as int,
        )) by {
            assert(m[g][a] < n);
            assert(m[h][b] < n);
            assert(roots@[groups@[g]@[a] as int] == roots@[groups@[h]@[b] as int] <==> linked(
                n as nat,
                edges@,
                groups@[g]@[a] as int,
                groups@[h]@[b] as int,
            ));
        }
    }
    groups
}

// ---------------------------------------------------------------------------
// Tabular blocks
// ---------------------------------------------------------------------------

/// A block needs at least this many lines for a repeated edge to mean a
/// table.
pub const MIN_TABULAR_LINES: usize = 3;

/// What is known of one edge (left or right) of a line in a block.
pub struct EdgeAlignment {
    /// The edge lies away from the block's own outer left and right edges.
    pub internal: bool,
    /// For each line of the block (this one included), whether one of its
    /// edges lies at this edge.
    pub touching: Vec<bool>,
}

/// The edge is an internal edge that at least two lines share.
pub open spec fn edge_repeats(edge: EdgeAlignment) -> bool {
    edge.internal && count_true(edge.touching@) >= 2
}

/// One of the line's two edges is a repeated internal edge.
pub open spec fn has_repeated_internal_edge(line: (EdgeAlignment, EdgeAlignment)) -> bool {
    edge_repeats(line.0) || edge_repeats(line.1)
}

/// The block is tabular: it has at least `MIN_TABULAR_LINES` lines and a
/// strict majority of them have a repeated internal edge.
pub open spec fn tabular(lines: Seq<(EdgeAlignment, EdgeAlignment)>) -> bool {
    lines.len() >= MIN_TABULAR_LINES && 2 * count_true(
        lines.map_values(|l: (EdgeAlignment, EdgeAlignment)| has_repeated_internal_edge(l)),
    ) > lines.len()
}

fn edge_repeats_exec(edge: &EdgeAlignment) -> (r: bool)
    ensures
        r == edge_repeats(*edge),
{
    edge.internal && count_set(&edge.touching) >= 2
}

/// Whether a block whose lines have the given left and right edge
/// alignments is tabular: a repeated internal edge (a shared table-column
/// boundary) in most of at least three lines.
pub fn block_is_tabular(lines: &Vec<(EdgeAlignment, EdgeAlignment)>) -> (t: bool)
    ensures
        t == tabular(lines@),
{
    if lines.len() < MIN_TABULAR_LINES {
        return false;
    }
    let mut flags: Vec<bool> = Vec::new();
    let mut i: usize = 0;
    while i < lines.len()
        invariant
            i <= lines@.len(),
            flags@.len() == i,
            forall|k: int|
                0 <= k < i ==> #[trigger] flags@[k] == has_repeated_internal_edge(lines@[k]),
        decreases lines@.len() - i,
    {
        let line = &lines[i];
        let aligned = edge_repeats_exec(&line.0) || edge_repeats_exec(&line.1);
        flags.push(aligned);
        i = i + 1;
    }
    proof {
        assert(flags@ =~= lines@.map_values(
            |l: (EdgeAlignment, EdgeAlignment)| has_repeated_internal_edge(l),
        ));
    }
    let aligned_count = count_set(&flags);
    aligned_count > lines.len() - aligned_count
}

/// Left and right edges count alike: swapping the left and right edge of
/// every line does not change whether the block is tabular.
pub proof fn law_tabular_edges_symmetric(
    lines: Seq<(EdgeAlignment, EdgeAlignment)>,
    swapped: Seq<(EdgeAlignment, EdgeAlignment)>,
)
    requires
        swapped.len() == lines.len(),
        forall|i: int| 0 <= i < lines.len() ==> #[trigger] swapped[i] == (lines[i].1, lines[i].0),
    ensures
        tabular(swapped) == tabular(lines),
{
    let f = |l: (EdgeAlignment, EdgeAlignment)| has_repeated_internal_edge(l);
    assert(swapped.map_values(f) =~= lines.map_values(f)) by {
        assert forall|i: int| 0 <= i < lines.len() implies swapped.map_values(f)[i] == lines.map_values(
            f,
        )[i] by {
            assert(swapped[i] == (lines[i].1, lines[i].0));
        }
    }
}

/// A block of at least `MIN_TABULAR_LINES` lines, each with an internal left
/// or right edge that at least two lines touch, is tabular.
pub proof fn law_tabular_when_every_line_aligned(lines: Seq<(EdgeAlignment, EdgeAlignment)>)
    requires
        lines.len() >= MIN_TABULAR_LINES,
        forall|i: int|
            0 <= i < lines.len() ==> ((#[trigger] lines[i]).0.internal && count_true(lines[i].0.touching@) >= 2)
                || (lines[i].1.internal && count_true(lines[i].1.touching@) >= 2),
    ensures
        tabular(lines),
{
    let flags = lines.map_values(|l: (EdgeAlignment, EdgeAlignment)| has_repeated_internal_edge(l));
    assert(forall|i: int| 0 <= i < flags.len() ==> #[trigger] flags[i] == true);
    lemma_count_true_constant(flags, true);
}

/// A block none of whose lines has an internal left or right edge that at
/// least two lines touch is not tabular; nor is a block of fewer than
/// `MIN_TABULAR_LINES` lines.
pub proof fn law_not_tabular_without_aligned_lines(lines: Seq<(EdgeAlignment, EdgeAlignment)>)
    requires
        lines.len() < MIN_TABULAR_LINES || forall|i: int|
            0 <= i < lines.len() ==> !((#[trigger] lines[i]).0.internal && count_true(
                lines[i].0.touching@,
            ) >= 2) && !(lines[i].1.internal && count_true(lines[i].1.touching@) >= 2),
    ensures
        !tabular(lines),
{
    if lines.len() >= MIN_TABULAR_LINES {
        let flags = lines.map_values(|l: (EdgeAlignment, EdgeAlignment)| has_repeated_internal_edge(l));
        assert(forall|i: int| 0 <= i < flags.len() ==> #[trigger] flags[i] == false);
        lemma_count_true_constant(flags, false);
    }
}

/// A block is tabular exactly when it has at least `MIN_TABULAR_LINES`
/// lines and a strict majority of them has an internal left or right edge
/// that at least two lines touch.
pub proof fn law_tabular_is_strict_majority(lines: Seq<(EdgeAlignment, EdgeAlignment)>)
    ensures
        tabular(lines) <==> lines.len() >= MIN_TABULAR_LINES && 2 * count_true(
            Seq::new(
                lines.len(),
                |i: int|
                    (lines[i].0.internal && count_true(lines[i].0.touching@) >= 2) || (lines[i].1.internal
                        && count_true(lines[i].1.touching@) >= 2),
            ),
        ) > lines.len(),
{
    assert(lines.map_values(|l: (EdgeAlignment, EdgeAlignment)| has_repeated_internal_edge(l)) =~= Seq::new(
        lines.len(),
        |i: int|
            (lines[i].0.internal && count_true(lines[i].0.touching@) >= 2) || (lines[i].1.internal
                && count_true(lines[i].1.touching@) >= 2),
    ));
}

} // verus!
