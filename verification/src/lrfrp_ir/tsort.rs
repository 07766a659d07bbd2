use vstd::prelude::*;

use vstd::arithmetic::div_mod::lemma_small_mod;

verus! {

// Nodes are equation indices; `adj[i]` lists the indices equation `i`
// depends on.  Colors: 0 = unvisited, 1 = in progress, 2 = done.

/// Every listed dependency is a node of the graph.
pub open spec fn wf_graph(adj: Seq<Vec<usize>>) -> bool {
    forall|i: int, k: int|
        0 <= i < adj.len() && 0 <= k < adj[i]@.len() ==> #[trigger] adj[i]@[k] < adj.len()
}

/// `a` depends on `b`.
pub open spec fn edge(adj: Seq<Vec<usize>>, a: int, b: int) -> bool {
    &&& 0 <= a < adj.len()
    &&& exists|k: int| 0 <= k < adj[a]@.len() && #[trigger] adj[a]@[k] as int == b
}

/// A non-empty sequence of nodes, each depending on the next, wrapping
/// around at the end.
pub open spec fn is_cycle(adj: Seq<Vec<usize>>, cyc: Seq<int>) -> bool {
    &&& cyc.len() > 0
    &&& forall|k: int|
        0 <= k < cyc.len() ==> edge(adj, #[trigger] cyc[k], cyc[(k + 1) % (cyc.len() as int)])
}

/// The node `d` stands somewhere before position `p` of the order.
pub open spec fn appears_before(order: Seq<usize>, p: int, d: usize) -> bool {
    exists|q: int| 0 <= q < p && #[trigger] order[q] == d
}

/// Every node's dependencies appear earlier in the order.
pub open spec fn topo_sorted(adj: Seq<Vec<usize>>, order: Seq<usize>) -> bool {
    forall|p: int, k: int|
        #![trigger adj[order[p] as int]@[k]]
        0 <= p < order.len() && order[p] < adj.len() && 0 <= k < adj[order[p] as int]@.len()
            ==> appears_before(order, p, adj[order[p] as int]@[k])
}

/// Some genuine dependency cycle runs through node `c`.
pub open spec fn cycle_through(adj: Seq<Vec<usize>>, c: usize) -> bool {
    exists|cyc: Seq<int>| is_cycle(adj, cyc) && #[trigger] cyc.contains(c as int)
}

/// The order lists every node exactly once.
pub open spec fn is_permutation(n: nat, order: Seq<usize>) -> bool {
    &&& order.len() == n
    &&& forall|p: int| 0 <= p < order.len() ==> (#[trigger] order[p] as int) < n
    &&& forall|p: int, q: int| 0 <= p < q < order.len() ==> order[p] != order[q]
    &&& forall|v: int| 0 <= v < n ==> #[trigger] order.contains(v as usize)
}

/// How often a value occurs in a sequence.
pub open spec fn count_val(s: Seq<u8>, v: u8) -> nat
    decreases s,
{
    if s.len() == 0 {
        0
    } else {
        count_val(s.drop_last(), v) + (if s.last() == v {
            1nat
        } else {
            0nat
        })
    }
}

/// Overwriting one element moves one unit of count.
pub proof fn lemma_count_update(s: Seq<u8>, i: int, v: u8, w: u8)
    requires
        0 <= i < s.len(),
    ensures
        count_val(s.update(i, v), w) + (if s[i] == w {
            1nat
        } else {
            0nat
        }) == count_val(s, w) + (if v == w {
            1nat
        } else {
            0nat
        }),
    decreases s,
{
    let s2 = s.update(i, v);
    if i == s.len() - 1 {
        assert(s2.drop_last() =~= s.drop_last());
        assert(s2.last() == v);
    } else {
        lemma_count_update(s.drop_last(), i, v, w);
        assert(s2.drop_last() =~= s.drop_last().update(i, v));
        assert(s2.last() == s.last());
        assert(s.drop_last()[i] == s[i]);
    }
}

/// A sequence of one value counts its whole length.
pub proof fn lemma_count_all(s: Seq<u8>, v: u8)
    requires
        forall|i: int| 0 <= i < s.len() ==> s[i] == v,
    ensures
        count_val(s, v) == s.len(),
    decreases s,
{
    if s.len() > 0 {
        lemma_count_all(s.drop_last(), v);
    }
}

/// A sequence without the value counts zero.
pub proof fn lemma_count_none(s: Seq<u8>, v: u8)
    requires
        forall|i: int| 0 <= i < s.len() ==> s[i] != v,
    ensures
        count_val(s, v) == 0,
    decreases s,
{
    if s.len() > 0 {
        lemma_count_none(s.drop_last(), v);
    }
}

/// All colors are meaningful and one per node.
pub open spec fn colors_wf(colors: Seq<u8>, adj: Seq<Vec<usize>>) -> bool {
    &&& colors.len() == adj.len()
    &&& forall|i: int| 0 <= i < colors.len() ==> colors[i] == 0 || colors[i] == 1 || colors[i] == 2
}

/// The output so far: exactly the finished nodes, each once, each after
/// all its dependencies.
pub open spec fn out_inv(adj: Seq<Vec<usize>>, colors: Seq<u8>, out: Seq<usize>) -> bool {
    &&& forall|p: int, q: int| 0 <= p < q < out.len() ==> out[p] != out[q]
    &&& forall|p: int|
        0 <= p < out.len() ==> (#[trigger] out[p] < adj.len() && colors[out[p] as int] == 2)
    &&& forall|v: int| 0 <= v < colors.len() && #[trigger] colors[v] == 2 ==> out.contains(v as usize)
    &&& out.len() == count_val(colors, 2)
    &&& topo_sorted(adj, out)
}

/// The in-progress nodes form the current search path: exactly the gray
/// nodes, pairwise distinct, with a dependency edge between neighbours.
pub open spec fn gray_stack(adj: Seq<Vec<usize>>, colors: Seq<u8>, stack: Seq<int>) -> bool {
    &&& forall|k: int|
        0 <= k < stack.len() ==> (0 <= #[trigger] stack[k] < colors.len() && colors[stack[k]]
            == 1)
    &&& forall|v: int| 0 <= v < colors.len() && #[trigger] colors[v] == 1 ==> stack.contains(v)
    &&& forall|p: int, q: int| 0 <= p < q < stack.len() ==> stack[p] != stack[q]
    &&& forall|k: int| 0 <= k < stack.len() - 1 ==> edge(adj, #[trigger] stack[k], stack[k + 1])
}

/// Revisiting an in-progress node closes a genuine cycle through it.
proof fn lemma_cycle_close(adj: Seq<Vec<usize>>, colors: Seq<u8>, stack: Seq<int>, node: usize)
    requires
        gray_stack(adj, colors, stack),
        (node as int) < colors.len(),
        colors[node as int] == 1,
        stack.len() > 0 ==> edge(adj, stack.last(), node as int),
    ensures
        cycle_through(adj, node),
{
    let node = node as int;
    assert(stack.contains(node));
    let idx = choose|idx: int| 0 <= idx < stack.len() && stack[idx] == node;
    let cyc = stack.subrange(idx, stack.len() as int);
    assert(cyc.len() > 0);
    assert(cyc[0] == node);
    assert(cyc.last() == stack.last());
    assert forall|k: int| 0 <= k < cyc.len() implies edge(
        adj,
        #[trigger] cyc[k],
        cyc[(k + 1) % (cyc.len() as int)],
    ) by {
        if k < cyc.len() - 1 {
            lemma_small_mod((k + 1) as nat, cyc.len());
            assert((k + 1) % (cyc.len() as int) == k + 1);
            assert(cyc[k] == stack[idx + k]);
            assert(cyc[k + 1] == stack[idx + k + 1]);
        } else {
            assert((k + 1) % (cyc.len() as int) == 0) by {
                assert(k + 1 == cyc.len());
            }
            assert(cyc[k] == stack.last());
            assert(edge(adj, stack.last(), node));
        }
    }
    assert(is_cycle(adj, cyc));
    assert(cyc.contains(node));
}

/// Marking an unvisited node in progress extends the search path.
proof fn lemma_gray_push(
    adj: Seq<Vec<usize>>,
    colors0: Seq<u8>,
    colors1: Seq<u8>,
    stack: Seq<int>,
    node: usize,
)
    requires
        gray_stack(adj, colors0, stack),
        (node as int) < colors0.len(),
        colors0[node as int] == 0,
        colors1 == colors0.update(node as int, 1),
        stack.len() > 0 ==> edge(adj, stack.last(), node as int),
    ensures
        gray_stack(adj, colors1, stack.push(node as int)),
{
    let node = node as int;
    let stack2 = stack.push(node);
    assert forall|v: int| 0 <= v < colors1.len() && #[trigger] colors1[v] == 1 implies
        stack2.contains(v) by {
        if v == node {
            assert(stack2[stack2.len() - 1] == v);
        } else {
            assert(colors0[v] == 1);
            let k = choose|k: int| 0 <= k < stack.len() && stack[k] == v;
            assert(stack2[k] == v);
        }
    }
    assert forall|p: int, q: int| 0 <= p < q < stack2.len() implies stack2[p] != stack2[q] by {
        if q == stack2.len() - 1 {
            assert(colors0[stack2[p]] == 1);
        }
    }
}

/// Appending a node whose dependencies are all finished keeps the
/// output dependency-ordered.
proof fn lemma_topo_push(
    adj: Seq<Vec<usize>>,
    pre_colors: Seq<u8>,
    pre_out: Seq<usize>,
    node: usize,
)
    requires
        wf_graph(adj),
        colors_wf(pre_colors, adj),
        out_inv(adj, pre_colors, pre_out),
        (node as int) < pre_colors.len(),
        forall|k: int|
            0 <= k < adj[node as int]@.len() ==> pre_colors[
                #[trigger] adj[node as int]@[k] as int] == 2,
    ensures
        topo_sorted(adj, pre_out.push(node)),
{
    let out2 = pre_out.push(node);
    assert forall|p: int, kk: int|
        #![trigger adj[out2[p] as int]@[kk]]
        0 <= p < out2.len() && out2[p] < adj.len() && 0 <= kk < adj[out2[p] as int]@.len()
        implies appears_before(out2, p, adj[out2[p] as int]@[kk]) by {
        if p < out2.len() - 1 {
            assert(pre_out[p] == out2[p]);
            assert(appears_before(pre_out, p, adj[pre_out[p] as int]@[kk]));
            let q = choose|q: int|
                0 <= q < p && #[trigger] pre_out[q] == adj[pre_out[p] as int]@[kk];
            assert(out2[q] == adj[out2[p] as int]@[kk]);
        } else {
            assert(out2[p] == node);
            let dd = adj[node as int]@[kk];
            assert(dd < adj.len());
            assert(pre_colors[dd as int] == 2);
            assert(pre_out.contains(dd));
            let q = choose|q: int| 0 <= q < pre_out.len() && pre_out[q] == dd;
            assert(out2[q] == dd);
        }
    }
    assert(topo_sorted(adj, out2));
}

/// Finishing a node whose dependencies are all finished keeps the
/// output an exact, dependency-ordered record of the finished nodes.
proof fn lemma_dfs_finish(
    adj: Seq<Vec<usize>>,
    pre_colors: Seq<u8>,
    colors2: Seq<u8>,
    pre_out: Seq<usize>,
    out2: Seq<usize>,
    node: usize,
)
    requires
        wf_graph(adj),
        colors_wf(pre_colors, adj),
        out_inv(adj, pre_colors, pre_out),
        (node as int) < pre_colors.len(),
        pre_colors[node as int] == 1,
        forall|k: int|
            0 <= k < adj[node as int]@.len() ==> pre_colors[
                #[trigger] adj[node as int]@[k] as int] == 2,
        colors2 == pre_colors.update(node as int, 2),
        out2 == pre_out.push(node),
    ensures
        out_inv(adj, colors2, out2),
{
    lemma_count_update(pre_colors, node as int, 2, 2);
    assert forall|v: int| 0 <= v < colors2.len() && #[trigger] colors2[v] == 2 implies
        out2.contains(v as usize) by {
        if v == node as int {
            assert(out2[out2.len() - 1] == node);
        } else {
            assert(pre_colors[v] == 2);
            assert(pre_out.contains(v as usize));
            let p = choose|p: int| 0 <= p < pre_out.len() && pre_out[p] == v as usize;
            assert(out2[p] == v as usize);
        }
    }
    assert forall|p: int, q: int| 0 <= p < q < out2.len() implies out2[p] != out2[q] by {
        if q == out2.len() - 1 {
            assert(pre_colors[out2[p] as int] == 2);
        }
    }
    lemma_topo_push(adj, pre_colors, pre_out, node);
    assert forall|p: int| 0 <= p < out2.len() implies (#[trigger] out2[p] < adj.len()
        && colors2[out2[p] as int] == 2) by {
        if p < out2.len() - 1 {
            assert(pre_out[p] == out2[p]);
            assert(pre_colors[out2[p] as int] == 2);
        }
    }
    assert(out2.len() == count_val(colors2, 2));
}

/// Depth-first search from `node`.  Returns `None` when the subgraph
/// below `node` is finished, or the node at which a cycle closed.
#[verifier::rlimit(60)]
fn dfs(
    adj: &Vec<Vec<usize>>,
    node: usize,
    colors: &mut Vec<u8>,
    out: &mut Vec<usize>,
    Ghost(stack): Ghost<Seq<int>>,
) -> (r: Option<usize>)
    requires
        wf_graph(adj@),
        node < adj@.len(),
        colors_wf(old(colors)@, adj@),
        out_inv(adj@, old(colors)@, old(out)@),
        gray_stack(adj@, old(colors)@, stack),
        stack.len() > 0 ==> edge(adj@, stack.last(), node as int),
    ensures
        final(colors)@.len() == old(colors)@.len(),
        colors_wf(final(colors)@, adj@),
        match r {
            None => {
                &&& out_inv(adj@, final(colors)@, final(out)@)
                &&& final(colors)@[node as int] == 2
                &&& forall|v: int|
                    0 <= v < old(colors)@.len() ==> (old(colors)@[v] == 1 <==> final(colors)@[v]
                        == 1)
                &&& forall|v: int|
                    0 <= v < old(colors)@.len() && old(colors)@[v] == 2 ==> final(colors)@[v] == 2
                &&& old(out)@.is_prefix_of(final(out)@)
                &&& count_val(final(colors)@, 0) <= count_val(old(colors)@, 0)
            },
            Some(c) => c < adj@.len() && cycle_through(adj@, c),
        },
    decreases count_val(colors@, 0),
{
    let c = colors[node];
    if c == 2 {
        proof {
            assert(old(out)@.is_prefix_of(out@));
        }
        return None;
    }
    if c == 1 {
        proof {
            lemma_cycle_close(adj@, colors@, stack, node);
        }
        return Some(node);
    }
    // unvisited: mark in progress and follow the dependencies
    colors.set(node, 1);
    proof {
        lemma_count_update(old(colors)@, node as int, 1, 0);
        lemma_count_update(old(colors)@, node as int, 1, 2);
        lemma_gray_push(adj@, old(colors)@, colors@, stack, node);
    }
    let ghost stack2 = stack.push(node as int);
    let m = adj[node].len();
    let mut k: usize = 0;
    while k < m
        invariant
            wf_graph(adj@),
            node < adj@.len(),
            m == adj@[node as int]@.len(),
            k <= m,
            colors@.len() == old(colors)@.len(),
            colors_wf(colors@, adj@),
            colors@[node as int] == 1,
            out_inv(adj@, colors@, out@),
            gray_stack(adj@, colors@, stack2),
            stack2 == stack.push(node as int),
            count_val(colors@, 0) < count_val(old(colors)@, 0),
            forall|v: int|
                0 <= v < colors@.len() ==> (colors@[v] == 1 <==> (old(colors)@[v] == 1 || v
                    == node as int)),
            forall|v: int|
                0 <= v < colors@.len() && old(colors)@[v] == 2 ==> colors@[v] == 2,
            forall|j: int| 0 <= j < k ==> colors@[#[trigger] adj@[node as int]@[j] as int] == 2,
            old(out)@.is_prefix_of(out@),
        decreases m - k,
    {
        let d = adj[node][k];
        proof {
            assert(adj@[node as int]@[k as int] as int == d as int);
            assert(edge(adj@, node as int, d as int));
            assert(stack2.last() == node as int);
        }
        let ghost colors_at = colors@;
        let ghost out_at = out@;
        let r = dfs(adj, d, colors, out, Ghost(stack2));
        match r {
            Some(cnode) => {
                return Some(cnode);
            },
            None => {},
        }
        proof {
            assert(out_at.is_prefix_of(out@));
            assert forall|j: int| 0 <= j <= k implies colors@[(
            #[trigger] adj@[node as int]@[j]) as int] == 2 by {
                if j < k {
                    assert(colors_at[adj@[node as int]@[j] as int] == 2);
                }
            }
        }
        k = k + 1;
    }
    // all dependencies are done: finish this node
    let ghost pre_colors = colors@;
    let ghost pre_out = out@;
    colors.set(node, 2);
    out.push(node);
    proof {
        lemma_count_update(pre_colors, node as int, 2, 0);
        lemma_dfs_finish(adj@, pre_colors, colors@, pre_out, out@, node);
        assert(out_inv(adj@, colors@, out@));
        assert(old(out)@.is_prefix_of(out@));
    }
    None
}

/// Topological sort of the dependency graph: either a total order in
/// which every node follows all its dependencies, or a node on a
/// genuine dependency cycle.
pub fn tsort(adj: &Vec<Vec<usize>>) -> (r: Result<Vec<usize>, usize>)
    requires
        wf_graph(adj@),
    ensures
        match r {
            Ok(order) => is_permutation(adj@.len(), order@) && topo_sorted(adj@, order@),
            Err(c) => c < adj@.len() && cycle_through(adj@, c),
        },
{
    let n = adj.len();
    let mut colors: Vec<u8> = Vec::new();
    let mut i: usize = 0;
    while i < n
        invariant
            i <= n,
            colors@.len() == i,
            forall|j: int| 0 <= j < i ==> colors@[j] == 0,
        decreases n - i,
    {
        colors.push(0);
        i = i + 1;
    }
    let mut out: Vec<usize> = Vec::new();
    proof {
        lemma_count_none(colors@, 2);
        assert(out_inv(adj@, colors@, out@));
        assert(gray_stack(adj@, colors@, Seq::<int>::empty()));
    }
    let mut node: usize = 0;
    while node < n
        invariant
            wf_graph(adj@),
            n == adj@.len(),
            node <= n,
            colors_wf(colors@, adj@),
            out_inv(adj@, colors@, out@),
            gray_stack(adj@, colors@, Seq::<int>::empty()),
            forall|j: int| 0 <= j < node ==> colors@[j] == 2,
        decreases n - node,
    {
        let r = dfs(adj, node, &mut colors, &mut out, Ghost(Seq::<int>::empty()));
        match r {
            Some(c) => {
                return Err(c);
            },
            None => {},
        }
        node = node + 1;
    }
    proof {
        assert(forall|j: int| 0 <= j < colors@.len() ==> colors@[j] == 2);
        lemma_count_all(colors@, 2);
        assert forall|v: int| 0 <= v < adj@.len() implies #[trigger] out@.contains(v as usize) by {
            assert(colors@[v] == 2);
        }
        assert(is_permutation(adj@.len(), out@));
    }
    Ok(out)
}

} // verus!
