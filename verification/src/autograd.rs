use vstd::prelude::*;

use crate::broadcast::{broadcast_source, broadcasts_to};
use crate::shape::{
    broadcast_coords, in_bounds, lemma_unravel_ravel, numel, ravel_index,
    ravel_spec, shape_product, unravel_index, unravel_spec,
};

verus! {

// ---------------------------------------------------------------------------
// Traversal of the computation graph
// ---------------------------------------------------------------------------

/// Every parent index names a node of the graph.
pub open spec fn graph_well_formed(parents: Seq<Seq<usize>>) -> bool {
    forall|y: int, k: int|
        0 <= y < parents.len() && 0 <= k < parents[y].len() ==> #[trigger] parents[y][k]
            < parents.len()
}

/// The parent lists held by a vector of vectors.
pub open spec fn parent_views(v: Seq<Vec<usize>>) -> Seq<Seq<usize>> {
    Seq::new(v.len(), |i: int| v[i]@)
}

/// No node is listed twice.
pub open spec fn distinct_nodes(s: Seq<usize>) -> bool {
    forall|a: int, b: int| 0 <= a < s.len() && 0 <= b < s.len() && a != b ==> s[a] != s[b]
}

/// Every parent of a listed node is listed.
pub open spec fn closed_under_parents(parents: Seq<Seq<usize>>, s: Seq<usize>) -> bool {
    forall|j: int, k: int|
        0 <= j < s.len() && 0 <= k < parents[s[j] as int].len() ==> s.contains(
            #[trigger] parents[s[j] as int][k],
        )
}

/// Every listed node other than `root` is a parent of a node listed after it.
pub open spec fn discovered_later(parents: Seq<Seq<usize>>, root: usize, s: Seq<usize>) -> bool {
    forall|j: int|
        0 <= j < s.len() && s[j] != root ==> exists|i: int, k: int|
            j < i < s.len() && 0 <= k < parents[s[i] as int].len() && #[trigger] parents[s[i] as int][k]
                == s[j]
}

/// Same property for a list built in visiting order (before reversal).
pub open spec fn discovered_earlier(parents: Seq<Seq<usize>>, root: usize, s: Seq<usize>) -> bool {
    forall|j: int|
        0 <= j < s.len() && s[j] != root ==> exists|i: int, k: int|
            0 <= i < j && 0 <= k < parents[s[i] as int].len() && #[trigger] parents[s[i] as int][k]
                == s[j]
}

/// Nodes listed on the stack are pending: each is the root or a parent of
/// a visited node.
pub open spec fn pending_ok(
    parents: Seq<Seq<usize>>,
    root: usize,
    order: Seq<usize>,
    stack: Seq<usize>,
) -> bool {
    forall|s: int|
        0 <= s < stack.len() && stack[s] != root ==> exists|i: int, k: int|
            0 <= i < order.len() && 0 <= k < parents[order[i] as int].len() && #[trigger] parents[order[i] as int][k]
                == stack[s]
}

/// Number of nodes not yet visited.
pub open spec fn unvisited_count(v: Seq<bool>) -> nat
    decreases v.len(),
{
    if v.len() == 0 {
        0
    } else {
        unvisited_count(v.drop_last()) + if v.last() {
            0nat
        } else {
            1nat
        }
    }
}

/// Marking an unvisited node lowers the number of unvisited nodes by one.
pub proof fn lemma_unvisited_mark(v: Seq<bool>, i: int)
    requires
        0 <= i < v.len(),
        !v[i],
    ensures
        unvisited_count(v.update(i, true)) + 1 == unvisited_count(v),
    decreases v.len(),
{
    let w = v.update(i, true);
    if i == v.len() - 1 {
        assert(w.drop_last() =~= v.drop_last());
    } else {
        assert(w.drop_last() =~= v.drop_last().update(i, true));
        lemma_unvisited_mark(v.drop_last(), i);
    }
}

/// The entries of `ps` not marked in `visited`, in order.
pub open spec fn unvisited_parents(ps: Seq<usize>, visited: Seq<bool>) -> Seq<usize>
    decreases ps.len(),
{
    if ps.len() == 0 {
        Seq::empty()
    } else {
        let prev = unvisited_parents(ps.drop_last(), visited);
        if visited[ps.last() as int] {
            prev
        } else {
            prev.push(ps.last())
        }
    }
}

/// The visiting order a depth-first traversal ends with, continued from the
/// state (`visited`, `order`, `stack`): the top of the stack is popped; a
/// visited node is skipped; otherwise it is marked, listed, and its
/// unvisited parents are pushed in order.
pub open spec fn dfs_visit(
    parents: Seq<Seq<usize>>,
    visited: Seq<bool>,
    order: Seq<usize>,
    stack: Seq<usize>,
) -> Seq<usize>
    decreases unvisited_count(visited), stack.len(),
{
    if stack.len() == 0 {
        order
    } else {
        let node = stack.last();
        let rest = stack.drop_last();
        if node >= visited.len() {
            order
        } else if visited[node as int] {
            dfs_visit(parents, visited, order, rest)
        } else {
            let marked = visited.update(node as int, true);
            proof {
                lemma_unvisited_mark(visited, node as int);
            }
            dfs_visit(
                parents,
                marked,
                order.push(node),
                rest + unvisited_parents(parents[node as int], marked),
            )
        }
    }
}

/// Visiting order of the depth-first traversal of `parents` from `root`.
pub open spec fn dfs_order(parents: Seq<Seq<usize>>, root: usize) -> Seq<usize> {
    dfs_visit(parents, Seq::new(parents.len(), |i: int| false), Seq::empty(), seq![root])
}

/// Nodes of the graph reachable from `root`, in the order the gradient
/// pass visits them last-to-first: a depth-first traversal from `root`
/// over parent edges, each node listed once, reversed so that `root` comes
/// last.
pub fn collect_nodes(parents: &Vec<Vec<usize>>, root: usize) -> (result: Vec<usize>)
    requires
        root < parents@.len(),
        graph_well_formed(parent_views(parents@)),
    ensures
        result@.len() > 0,
        result@.last() == root,
        distinct_nodes(result@),
        forall|j: int| 0 <= j < result@.len() ==> #[trigger] result@[j] < parents@.len(),
        closed_under_parents(parent_views(parents@), result@),
        discovered_later(parent_views(parents@), root, result@),
        result@ == dfs_order(parent_views(parents@), root).reverse(),
{
    let ghost g = parent_views(parents@);
    let n = parents.len();
    let mut visited: Vec<bool> = Vec::new();
    let mut i: usize = 0;
    while i < n
        invariant
            i <= n,
            visited@.len() == i,
            forall|x: int| 0 <= x < i ==> !(#[trigger] visited@[x]),
        decreases n - i,
    {
        visited.push(false);
        i += 1;
    }
    let mut order: Vec<usize> = Vec::new();
    let mut stack: Vec<usize> = Vec::new();
    stack.push(root);
    let ghost visit = dfs_order(g, root);
    assert(visited@ =~= Seq::new(g.len(), |i: int| false));
    assert(stack@ =~= seq![root]);
    while stack.len() > 0
        invariant
            dfs_visit(g, visited@, order@, stack@) == visit,
            n == parents@.len(),
            g == parent_views(parents@),
            graph_well_formed(g),
            root < n,
            visited@.len() == n,
            forall|x: int| 0 <= x < n ==> (#[trigger] visited@[x] <==> order@.contains(x as usize)),
            distinct_nodes(order@),
            forall|j: int| 0 <= j < order@.len() ==> #[trigger] order@[j] < n,
            forall|s: int| 0 <= s < stack@.len() ==> #[trigger] stack@[s] < n,
            order@.len() > 0 ==> order@[0] == root,
            order@.len() == 0 ==> stack@ == seq![root],
            forall|j: int, k: int|
                0 <= j < order@.len() && 0 <= k < g[order@[j] as int].len() ==> order@.contains(
                    #[trigger] g[order@[j] as int][k],
                ) || stack@.contains(g[order@[j] as int][k]),
            discovered_earlier(g, root, order@),
            pending_ok(g, root, order@, stack@),
        decreases unvisited_count(visited@), stack@.len(),
    {
        let ghost stack_before = stack@;
        let node = stack.pop().unwrap();
        assert(stack_before == stack@.push(node));
        assert(node < n) by {
            assert(stack_before[stack_before.len() - 1] == node);
        }
        assert forall|x: usize| stack_before.contains(x) && x != node implies stack@.contains(x) by {
            let s = choose|s: int| 0 <= s < stack_before.len() && stack_before[s] == x;
            assert(s < stack@.len());
            assert(stack@[s] == x);
        }
        if visited[node] {
            assert(stack_before.drop_last() =~= stack@);
            assert(dfs_visit(g, visited@, order@, stack_before) == dfs_visit(
                g,
                visited@,
                order@,
                stack@,
            ));
            assert(order@.contains(node));
            assert forall|j: int, k: int|
                0 <= j < order@.len() && 0 <= k < g[order@[j] as int].len() implies order@.contains(
                    #[trigger] g[order@[j] as int][k],
                ) || stack@.contains(g[order@[j] as int][k]) by {
                let p = g[order@[j] as int][k];
                if !order@.contains(p) {
                    assert(stack_before.contains(p));
                }
            }
            assert forall|s: int|
                0 <= s < stack@.len() && stack@[s] != root implies exists|i: int, k: int|
                    0 <= i < order@.len() && 0 <= k < g[order@[i] as int].len()
                        && #[trigger] g[order@[i] as int][k] == stack@[s] by {
                assert(stack_before[s] == stack@[s]);
            }
            continue;
        }
        let ghost order_before = order@;
        let ghost visited_before = visited@;
        assert(!order_before.contains(node));
        proof {
            if order_before.len() > 0 && node != root {
                assert(stack_before[stack_before.len() - 1] == node);
            }
        }
        visited.set(node, true);
        order.push(node);
        proof {
            lemma_unvisited_mark(visited_before, node as int);
            assert forall|x: int| 0 <= x < n implies (#[trigger] visited@[x] <==> order@.contains(
                x as usize,
            )) by {
                if x == node {
                    assert(order@[order@.len() - 1] == node);
                } else {
                    assert(visited@[x] == visited_before[x]);
                    if order_before.contains(x as usize) {
                        let j = choose|j: int| 0 <= j < order_before.len() && order_before[j] == x as usize;
                        assert(order@[j] == x as usize);
                    }
                    if order@.contains(x as usize) {
                        let j = choose|j: int| 0 <= j < order@.len() && order@[j] == x as usize;
                        assert(j < order_before.len());
                        assert(order_before[j] == x as usize);
                    }
                }
            }
            assert forall|j: int|
                0 <= j < order@.len() && order@[j] != root implies exists|i: int, k: int|
                    0 <= i < j && 0 <= k < g[order@[i] as int].len() && #[trigger] g[order@[i] as int][k]
                        == order@[j] by {
                if j < order_before.len() {
                    assert(order@[j] == order_before[j]);
                    let (i, k) = choose|i: int, k: int|
                        0 <= i < j && 0 <= k < g[order_before[i] as int].len()
                            && #[trigger] g[order_before[i] as int][k] == order_before[j];
                    assert(order@[i] == order_before[i]);
                } else {
                    let s = stack_before.len() - 1;
                    assert(stack_before[s] == node);
                    let (i, k) = choose|i: int, k: int|
                        0 <= i < order_before.len() && 0 <= k < g[order_before[i] as int].len()
                            && #[trigger] g[order_before[i] as int][k] == stack_before[s];
                    assert(order@[i] == order_before[i]);
                }
            }
        }
        let ghost stack_after_pop = stack@;
        proof {
            assert(g[node as int].take(0) =~= Seq::<usize>::empty());
            assert(stack@ =~= stack_after_pop + unvisited_parents(g[node as int].take(0), visited@));
        }
        proof {
            assert forall|s: int|
                0 <= s < stack@.len() && stack@[s] != root implies exists|i: int, kk: int|
                    0 <= i < order@.len() && 0 <= kk < g[order@[i] as int].len()
                        && #[trigger] g[order@[i] as int][kk] == stack@[s] by {
                assert(stack_before[s] == stack@[s]);
                let (i, kk) = choose|i: int, kk: int|
                    0 <= i < order_before.len() && 0 <= kk < g[order_before[i] as int].len()
                        && #[trigger] g[order_before[i] as int][kk] == stack_before[s];
                assert(order@[i] == order_before[i]);
            }
        }
        let pl = parents[node].len();
        let mut k: usize = 0;
        while k < pl
            invariant
                n == parents@.len(),
                g == parent_views(parents@),
                graph_well_formed(g),
                node < n,
                pl == g[node as int].len(),
                k <= pl,
                visited@.len() == n,
                forall|x: int| 0 <= x < n ==> (#[trigger] visited@[x] <==> order@.contains(x as usize)),
                order@.len() > 0,
                order@[order@.len() - 1] == node,
                forall|s: int| 0 <= s < stack@.len() ==> #[trigger] stack@[s] < n,
                forall|kk: int|
                    0 <= kk < k ==> order@.contains(#[trigger] g[node as int][kk]) || stack@.contains(
                        g[node as int][kk],
                    ),
                forall|x: usize| stack_after_pop.contains(x) ==> #[trigger] stack@.contains(x),
                pending_ok(g, root, order@, stack@),
                stack@.len() >= stack_after_pop.len(),
                stack@ == stack_after_pop + unvisited_parents(g[node as int].take(k as int), visited@),
            decreases pl - k,
        {
            let p = parents[node][k];
            assert(p == g[node as int][k as int]);
            assert(p < n);
            proof {
                let tk = g[node as int].take(k + 1);
                assert(tk.drop_last() =~= g[node as int].take(k as int));
                assert(tk.last() == p);
            }
            if !visited[p] {
                let ghost st = stack@;
                stack.push(p);
                proof {
                    assert(stack@[stack@.len() - 1] == p);
                    assert(stack@ =~= stack_after_pop + unvisited_parents(
                        g[node as int].take(k + 1),
                        visited@,
                    ));
                    assert forall|x: usize| st.contains(x) implies #[trigger] stack@.contains(x) by {
                        let s = choose|s: int| 0 <= s < st.len() && st[s] == x;
                        assert(stack@[s] == x);
                    }
                    assert forall|s: int|
                        0 <= s < stack@.len() && stack@[s] != root implies exists|i: int, kk: int|
                            0 <= i < order@.len() && 0 <= kk < g[order@[i] as int].len()
                                && #[trigger] g[order@[i] as int][kk] == stack@[s] by {
                        if s < st.len() {
                            assert(stack@[s] == st[s]);
                        } else {
                            let i = order@.len() - 1;
                            assert(g[order@[i] as int][k as int] == stack@[s]);
                        }
                    }
                }
            }
            k += 1;
        }
        proof {
            assert(g[node as int].take(pl as int) =~= g[node as int]);
            assert(visited@ =~= visited_before.update(node as int, true));
            assert(stack_before.drop_last() =~= stack_after_pop);
            assert(dfs_visit(g, visited_before, order_before, stack_before) == dfs_visit(
                g,
                visited@,
                order@,
                stack@,
            ));
            assert forall|j: int, kk: int|
                0 <= j < order@.len() && 0 <= kk < g[order@[j] as int].len() implies order@.contains(
                    #[trigger] g[order@[j] as int][kk],
                ) || stack@.contains(g[order@[j] as int][kk]) by {
                let p = g[order@[j] as int][kk];
                if j < order_before.len() {
                    assert(order@[j] == order_before[j]);
                    if order_before.contains(p) {
                        let i = choose|i: int| 0 <= i < order_before.len() && order_before[i] == p;
                        assert(order@[i] == p);
                    } else if p == node {
                        assert(order@[order@.len() - 1] == p);
                    } else {
                        assert(stack_before.contains(p));
                        assert(stack_after_pop.contains(p));
                    }
                }
            }
        }
    }
    let mut result: Vec<usize> = Vec::new();
    let len = order.len();
    let mut j: usize = len;
    while j > 0
        invariant
            j <= len,
            len == order@.len(),
            result@.len() == len - j,
            forall|x: int| 0 <= x < result@.len() ==> #[trigger] result@[x] == order@[len - 1 - x],
        decreases j,
    {
        j -= 1;
        result.push(order[j]);
    }
    proof {
        let r = result@;
        assert(order@ == visit);
        assert(r =~= visit.reverse());
        assert(r.len() == len);
        assert(len > 0);
        assert(r[len - 1] == order@[0]);
        assert forall|a: int, b: int| 0 <= a < r.len() && 0 <= b < r.len() && a != b implies r[a]
            != r[b] by {
            assert(r[a] == order@[len - 1 - a]);
            assert(r[b] == order@[len - 1 - b]);
        }
        assert forall|x: usize| order@.contains(x) implies r.contains(x) by {
            let i = choose|i: int| 0 <= i < order@.len() && order@[i] == x;
            assert(r[len - 1 - i] == x);
        }
        assert forall|j2: int, k: int|
            0 <= j2 < r.len() && 0 <= k < g[r[j2] as int].len() implies r.contains(
                #[trigger] g[r[j2] as int][k],
            ) by {
            let jo = len - 1 - j2;
            assert(r[j2] == order@[jo]);
            assert(order@.contains(g[order@[jo] as int][k]));
        }
        assert forall|j2: int|
            0 <= j2 < r.len() && r[j2] != root implies exists|i: int, k: int|
                j2 < i < r.len() && 0 <= k < g[r[i] as int].len() && #[trigger] g[r[i] as int][k]
                    == r[j2] by {
            let jo = len - 1 - j2;
            assert(r[j2] == order@[jo]);
            let (io, k) = choose|io: int, k: int|
                0 <= io < jo && 0 <= k < g[order@[io] as int].len() && #[trigger] g[order@[io] as int][k]
                    == order@[jo];
            let i = len - 1 - io;
            assert(r[i] == order@[io]);
        }
    }
    result
}

/// `x` is reachable from `root` over at most `k` parent edges.
pub open spec fn reachable_within(g: Seq<Seq<usize>>, root: usize, x: usize, k: nat) -> bool
    decreases k,
{
    if k == 0 {
        x == root
    } else {
        reachable_within(g, root, x, (k - 1) as nat) || exists|y: usize, j: int|
            0 <= y < g.len() && 0 <= j < g[y as int].len() && #[trigger] g[y as int][j] == x
                && reachable_within(g, root, y, (k - 1) as nat)
    }
}

/// `x` is reachable from `root` over parent edges.
pub open spec fn reachable(g: Seq<Seq<usize>>, root: usize, x: usize) -> bool {
    exists|k: nat| #[trigger] reachable_within(g, root, x, k)
}

proof fn lemma_listed_reachable(g: Seq<Seq<usize>>, root: usize, r: Seq<usize>, j: int) -> (k: nat)
    requires
        0 <= j < r.len(),
        forall|i: int| 0 <= i < r.len() ==> #[trigger] r[i] < g.len(),
        discovered_later(g, root, r),
    ensures
        reachable_within(g, root, r[j], k),
    decreases r.len() - j,
{
    if r[j] == root {
        0
    } else {
        let (i, kk) = choose|i: int, kk: int|
            j < i < r.len() && 0 <= kk < g[r[i] as int].len() && #[trigger] g[r[i] as int][kk]
                == r[j];
        let ki = lemma_listed_reachable(g, root, r, i);
        let y = r[i];
        assert(0 <= y < g.len() && 0 <= kk < g[y as int].len() && g[y as int][kk] == r[j]
            && reachable_within(g, root, y, ki));
        assert(reachable_within(g, root, r[j], ki + 1));
        ki + 1
    }
}

proof fn lemma_reachable_listed(g: Seq<Seq<usize>>, root: usize, r: Seq<usize>, x: usize, k: nat)
    requires
        r.len() > 0,
        r.last() == root,
        closed_under_parents(g, r),
        reachable_within(g, root, x, k),
    ensures
        r.contains(x),
    decreases k,
{
    if k == 0 {
        assert(r[r.len() - 1] == root);
    } else if reachable_within(g, root, x, (k - 1) as nat) {
        lemma_reachable_listed(g, root, r, x, (k - 1) as nat);
    } else {
        let (y, j) = choose|y: usize, j: int|
            0 <= y < g.len() && 0 <= j < g[y as int].len() && #[trigger] g[y as int][j] == x
                && reachable_within(g, root, y, (k - 1) as nat);
        lemma_reachable_listed(g, root, r, y, (k - 1) as nat);
        let i = choose|i: int| 0 <= i < r.len() && r[i] == y;
        assert(r.contains(g[r[i] as int][j]));
    }
}

/// The nodes the traversal lists are exactly the nodes reachable from the
/// root (stated over the properties `collect_nodes` ensures).
pub proof fn lemma_collected_nodes_are_reachable(g: Seq<Seq<usize>>, root: usize, r: Seq<usize>)
    requires
        r.len() > 0,
        r.last() == root,
        forall|i: int| 0 <= i < r.len() ==> #[trigger] r[i] < g.len(),
        closed_under_parents(g, r),
        discovered_later(g, root, r),
    ensures
        forall|x: usize| r.contains(x) <==> reachable(g, root, x),
{
    assert forall|x: usize| r.contains(x) <==> reachable(g, root, x) by {
        if r.contains(x) {
            let j = choose|j: int| 0 <= j < r.len() && r[j] == x;
            let k = lemma_listed_reachable(g, root, r, j);
            assert(reachable_within(g, root, x, k));
        }
        if reachable(g, root, x) {
            let k = choose|k: nat| #[trigger] reachable_within(g, root, x, k);
            lemma_reachable_listed(g, root, r, x, k);
        }
    }
}

// ---------------------------------------------------------------------------
// Recording operations in the graph
// ---------------------------------------------------------------------------

/// Whether an operation records its gradient function on its output: it
/// does when the output or any of its inputs requires a gradient. (A matrix
/// product consults its inputs only; its output is new and requires none.)
pub fn records_gradient(output_wants: bool, inputs_want: &Vec<bool>) -> (b: bool)
    ensures
        b == (output_wants || exists|i: int| 0 <= i < inputs_want@.len() && #[trigger] inputs_want@[i]),
{
    if output_wants {
        return true;
    }
    let mut i: usize = 0;
    while i < inputs_want.len()
        invariant
            i <= inputs_want@.len(),
            forall|j: int| 0 <= j < i ==> !#[trigger] inputs_want@[j],
        decreases inputs_want@.len() - i,
    {
        if inputs_want[i] {
            return true;
        }
        i += 1;
    }
    false
}

/// Whether the gradient function of a matrix product hands gradients to its
/// operands: it does for two 2-D operands only.
pub fn matmul_emits_gradients(a_ndim: usize, b_ndim: usize) -> (b: bool)
    ensures
        b == (a_ndim == 2 && b_ndim == 2),
{
    a_ndim == 2 && b_ndim == 2
}

// ---------------------------------------------------------------------------
// Which gradient functions the gradient pass runs
// ---------------------------------------------------------------------------

/// Node handled at step `t` (counted from 1) of the gradient pass, which
/// walks the traversal order from its end, so that the root comes first.
pub open spec fn pass_node(order: Seq<usize>, t: int) -> usize {
    order[order.len() - t]
}

/// Nodes holding a gradient after `t` steps of the gradient pass. The root
/// holds one from the start; a node that holds one and has a gradient
/// function hands a gradient to every node it emits to that needs one.
pub open spec fn gradient_holders(
    order: Seq<usize>,
    emits: Seq<Seq<usize>>,
    has_fn: Seq<bool>,
    wants: Seq<bool>,
    root: usize,
    t: int,
) -> Set<usize>
    decreases t,
{
    if t <= 0 {
        set![root]
    } else {
        let prev = gradient_holders(order, emits, has_fn, wants, root, t - 1);
        let v = pass_node(order, t);
        if prev.contains(v) && has_fn[v as int] {
            prev.union(Set::new(|p: usize| emits[v as int].contains(p) && wants[p as int]))
        } else {
            prev
        }
    }
}

/// Step `t` of the gradient pass runs the gradient function of its node.
pub open spec fn runs_at(
    order: Seq<usize>,
    emits: Seq<Seq<usize>>,
    has_fn: Seq<bool>,
    wants: Seq<bool>,
    root: usize,
    t: int,
) -> bool {
    let v = pass_node(order, t);
    gradient_holders(order, emits, has_fn, wants, root, t - 1).contains(v) && has_fn[v as int]
}

/// Nodes whose gradient functions run in the first `t` steps, in order.
pub open spec fn gradient_runs(
    order: Seq<usize>,
    emits: Seq<Seq<usize>>,
    has_fn: Seq<bool>,
    wants: Seq<bool>,
    root: usize,
    t: int,
) -> Seq<usize>
    decreases t,
{
    if t <= 0 {
        Seq::empty()
    } else {
        let prev = gradient_runs(order, emits, has_fn, wants, root, t - 1);
        if runs_at(order, emits, has_fn, wants, root, t) {
            prev.push(pass_node(order, t))
        } else {
            prev
        }
    }
}

proof fn lemma_holder_received(
    order: Seq<usize>,
    emits: Seq<Seq<usize>>,
    has_fn: Seq<bool>,
    wants: Seq<bool>,
    root: usize,
    s: int,
    x: usize,
)
    requires
        gradient_holders(order, emits, has_fn, wants, root, s).contains(x),
        x != root,
    ensures
        wants[x as int],
        exists|t: int|
            1 <= t <= s && #[trigger] runs_at(order, emits, has_fn, wants, root, t) && emits[pass_node(
                order,
                t,
            ) as int].contains(x),
    decreases s,
{
    if s > 0 {
        let prev = gradient_holders(order, emits, has_fn, wants, root, s - 1);
        if prev.contains(x) {
            lemma_holder_received(order, emits, has_fn, wants, root, s - 1, x);
            let t = choose|t: int|
                1 <= t <= s - 1 && #[trigger] runs_at(order, emits, has_fn, wants, root, t)
                    && emits[pass_node(order, t) as int].contains(x);
            assert(1 <= t <= s);
        } else {
            assert(runs_at(order, emits, has_fn, wants, root, s));
        }
    }
}

/// Gradients flow from the root along the graph: every node whose gradient
/// function runs, other than the root, requires a gradient and was handed
/// one by a node whose gradient function ran before it.
pub proof fn lemma_runs_were_handed_gradients(
    order: Seq<usize>,
    emits: Seq<Seq<usize>>,
    has_fn: Seq<bool>,
    wants: Seq<bool>,
    root: usize,
    t: int,
)
    requires
        1 <= t <= order.len(),
        runs_at(order, emits, has_fn, wants, root, t),
        pass_node(order, t) != root,
    ensures
        wants[pass_node(order, t) as int],
        exists|u: int|
            1 <= u < t && #[trigger] runs_at(order, emits, has_fn, wants, root, u) && emits[pass_node(
                order,
                u,
            ) as int].contains(pass_node(order, t)),
{
    lemma_holder_received(order, emits, has_fn, wants, root, t - 1, pass_node(order, t));
}

/// The nodes whose gradient functions the gradient pass runs, in the order
/// it runs them. The pass walks `order` from its end; a node runs when it
/// holds a gradient and has a gradient function (`has_fn`), and then hands
/// gradients to the nodes it emits to (`emits`) that require one
/// (`wants`: whether a node requires a gradient).
pub fn gradient_plan(
    order: &Vec<usize>,
    emits: &Vec<Vec<usize>>,
    has_fn: &Vec<bool>,
    wants: &Vec<bool>,
    root: usize,
) -> (plan: Vec<usize>)
    requires
        root < emits@.len(),
        graph_well_formed(parent_views(emits@)),
        has_fn@.len() == emits@.len(),
        wants@.len() == emits@.len(),
        forall|j: int| 0 <= j < order@.len() ==> #[trigger] order@[j] < emits@.len(),
    ensures
        plan@ == gradient_runs(
            order@,
            parent_views(emits@),
            has_fn@,
            wants@,
            root,
            order@.len() as int,
        ),
{
    let ghost g = parent_views(emits@);
    let n = emits.len();
    let mut holds: Vec<bool> = Vec::new();
    let mut i: usize = 0;
    while i < n
        invariant
            i <= n,
            holds@.len() == i,
            forall|x: int| 0 <= x < i ==> #[trigger] holds@[x] == (x == root),
        decreases n - i,
    {
        holds.push(i == root);
        i += 1;
    }
    let mut plan: Vec<usize> = Vec::new();
    let len = order.len();
    let mut t: usize = 0;
    while t < len
        invariant
            n == emits@.len(),
            g == parent_views(emits@),
            graph_well_formed(g),
            root < n,
            has_fn@.len() == n,
            wants@.len() == n,
            forall|j: int| 0 <= j < order@.len() ==> #[trigger] order@[j] < n,
            len == order@.len(),
            t <= len,
            holds@.len() == n,
            forall|x: int|
                0 <= x < n ==> (#[trigger] holds@[x] <==> gradient_holders(
                    order@,
                    g,
                    has_fn@,
                    wants@,
                    root,
                    t as int,
                ).contains(x as usize)),
            plan@ == gradient_runs(order@, g, has_fn@, wants@, root, t as int),
        decreases len - t,
    {
        let v = order[len - 1 - t];
        let ghost prev = gradient_holders(order@, g, has_fn@, wants@, root, t as int);
        assert(v == pass_node(order@, t + 1));
        if holds[v] && has_fn[v] {
            plan.push(v);
            let ps = &emits[v];
            let mut k: usize = 0;
            while k < ps.len()
                invariant
                    n == emits@.len(),
                    g == parent_views(emits@),
                    graph_well_formed(g),
                    v < n,
                    ps@ == g[v as int],
                    wants@.len() == n,
                    k <= ps@.len(),
                    holds@.len() == n,
                    forall|x: int|
                        0 <= x < n ==> (#[trigger] holds@[x] <==> (prev.contains(x as usize) || (
                        ps@.take(k as int).contains(x as usize) && wants@[x]))),
                decreases ps@.len() - k,
            {
                let p = ps[k];
                assert(p < n) by {
                    assert(g[v as int][k as int] == p);
                }
                let ghost before = holds@;
                if wants[p] {
                    holds.set(p, true);
                }
                assert forall|x: int| 0 <= x < n implies (#[trigger] holds@[x] <==> (prev.contains(
                    x as usize,
                ) || (ps@.take(k + 1).contains(x as usize) && wants@[x]))) by {
                    let t1 = ps@.take(k + 1);
                    let t0 = ps@.take(k as int);
                    if t1.contains(x as usize) && x != p as int {
                        let j = choose|j: int| 0 <= j < t1.len() && t1[j] == x as usize;
                        assert(j < k && t0[j] == x as usize);
                    }
                    if t0.contains(x as usize) {
                        let j = choose|j: int| 0 <= j < t0.len() && t0[j] == x as usize;
                        assert(t1[j] == x as usize);
                    }
                    if x == p as int {
                        assert(t1[k as int] == p);
                    } else {
                        assert(holds@[x] == before[x]);
                    }
                }
                k += 1;
            }
            assert(ps@.take(ps@.len() as int) =~= ps@);
        }
        t += 1;
    }
    plan
}

// ---------------------------------------------------------------------------
// Reducing a broadcast gradient to an operand's shape
// ---------------------------------------------------------------------------

/// Axis offset between a gradient shape and a target aligned on the right.
pub open spec fn reduce_offset(grad_shape: Seq<usize>, target: Seq<usize>) -> int {
    if grad_shape.len() >= target.len() {
        grad_shape.len() - target.len()
    } else {
        0
    }
}

/// Target coordinates a gradient element at coordinates `c` is added to:
/// axes aligned on the right keep their coordinate where the dimensions
/// agree and collapse to 0 elsewhere.
pub open spec fn reduce_coords(c: Seq<usize>, grad_shape: Seq<usize>, target: Seq<usize>) -> Seq<
    usize,
> {
    let off = reduce_offset(grad_shape, target);
    Seq::new(
        target.len(),
        |ti: int|
            if ti + off < grad_shape.len() && grad_shape[ti + off] == target[ti] {
                c[ti + off]
            } else {
                0
            },
    )
}

/// Flat target position of gradient element `f`.
pub open spec fn reduce_target(f: int, grad_shape: Seq<usize>, target: Seq<usize>) -> int {
    ravel_spec(reduce_coords(unravel_spec(f, grad_shape), grad_shape, target), target)
}

proof fn lemma_reduce_coords_in_bounds(c: Seq<usize>, grad_shape: Seq<usize>, target: Seq<usize>)
    requires
        in_bounds(c, grad_shape),
        forall|i: int| 0 <= i < target.len() ==> #[trigger] target[i] > 0,
    ensures
        in_bounds(reduce_coords(c, grad_shape, target), target),
{
    let r = reduce_coords(c, grad_shape, target);
    let off = reduce_offset(grad_shape, target);
    assert forall|ti: int| 0 <= ti < target.len() implies #[trigger] r[ti] < target[ti] by {
        if ti + off < grad_shape.len() && grad_shape[ti + off] == target[ti] {
            assert(c[ti + off] < grad_shape[ti + off]);
        }
    }
}

/// For every element of a gradient of shape `grad_shape`, the flat
/// position of the `target_shape` tensor it is summed into.
pub fn sum_to_shape_map(grad_shape: &[usize], target_shape: &[usize]) -> (map: Vec<usize>)
    requires
        shape_product(grad_shape@) <= usize::MAX,
        shape_product(target_shape@) <= usize::MAX,
        shape_product(grad_shape@) > 0 ==> shape_product(target_shape@) > 0,
    ensures
        map@.len() == shape_product(grad_shape@),
        forall|f: int|
            0 <= f < map@.len() ==> #[trigger] map@[f] == reduce_target(f, grad_shape@, target_shape@)
                && map@[f] < shape_product(target_shape@),
{
    let n = numel(grad_shape);
    let off = if grad_shape.len() >= target_shape.len() {
        grad_shape.len() - target_shape.len()
    } else {
        0
    };
    if n > 0 {
        proof {
            crate::shape::lemma_product_positive(target_shape@);
        }
    }
    let mut map: Vec<usize> = Vec::new();
    let mut f: usize = 0;
    while f < n
        invariant
            n == shape_product(grad_shape@),
            n > 0 ==> forall|i: int| 0 <= i < target_shape@.len() ==> #[trigger] target_shape@[i] > 0,
            shape_product(target_shape@) <= usize::MAX,
            off == reduce_offset(grad_shape@, target_shape@),
            f <= n,
            map@.len() == f,
            forall|q: int|
                0 <= q < f ==> #[trigger] map@[q] == reduce_target(q, grad_shape@, target_shape@)
                    && map@[q] < shape_product(target_shape@),
        decreases n - f,
    {
        let coords = unravel_index(f, grad_shape);
        let ghost want = reduce_coords(coords@, grad_shape@, target_shape@);
        let mut tc: Vec<usize> = Vec::new();
        let mut ti: usize = 0;
        let glen = grad_shape.len();
        let tlen = target_shape.len();
        while ti < tlen
            invariant
                glen == grad_shape@.len(),
                tlen == target_shape@.len(),
                off == reduce_offset(grad_shape@, target_shape@),
                coords@.len() == grad_shape@.len(),
                want == reduce_coords(coords@, grad_shape@, target_shape@),
                ti <= target_shape@.len(),
                tc@ =~= want.take(ti as int),
            decreases target_shape@.len() - ti,
        {
            let gi = ti + off;
            let c = if gi < grad_shape.len() && grad_shape[gi] == target_shape[ti] {
                coords[gi]
            } else {
                0
            };
            tc.push(c);
            ti += 1;
        }
        assert(tc@ =~= want);
        proof {
            lemma_reduce_coords_in_bounds(coords@, grad_shape@, target_shape@);
        }
        let dst = ravel_index(tc.as_slice(), target_shape);
        map.push(dst);
        f += 1;
    }
    map
}

/// Reducing to the gradient's own shape sends every element to its own
/// position.
pub proof fn lemma_reduce_same_shape(f: int, s: Seq<usize>)
    requires
        0 <= f < shape_product(s),
    ensures
        reduce_target(f, s, s) == f,
{
    let u = unravel_spec(f, s);
    lemma_unravel_ravel(f, s);
    assert(reduce_coords(u, s, s) =~= u);
}

/// The gradient of a broadcast operand flows back to the element it was
/// read from: for an operand shape that broadcasts to the output shape, the
/// position an output gradient is summed into is the position the forward
/// broadcast read.
pub proof fn lemma_reduce_matches_broadcast(f: int, out_shape: Seq<usize>, s: Seq<usize>)
    requires
        broadcasts_to(s, out_shape),
        0 <= f < shape_product(out_shape),
    ensures
        reduce_target(f, out_shape, s) == broadcast_source(f, out_shape, s),
{
    let c = unravel_spec(f, out_shape);
    lemma_unravel_ravel(f, out_shape);
    let rc = reduce_coords(c, out_shape, s);
    let bc = broadcast_coords(c, s);
    assert forall|ti: int| 0 <= ti < s.len() implies #[trigger] rc[ti] == bc[ti] by {
        let off = out_shape.len() - s.len();
        assert(c[ti + off] < out_shape[ti + off]);
    }
    assert(rc =~= bc);
}

} // verus!
