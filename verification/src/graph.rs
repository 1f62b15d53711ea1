//! Cycle detection on a directed graph given by adjacency lists, by
//! depth-first search with three colours. The analyser uses it twice: on the
//! containment graph of local types and on the call graph of functions.
use vstd::prelude::*;

verus! {

// --- The graph and its paths ---

/// Every neighbour names a node of the graph.
pub open spec fn graph_wf(adj: Seq<Seq<usize>>) -> bool {
    forall|u: int, k: int|
        0 <= u < adj.len() && 0 <= k < adj[u].len() ==> (#[trigger] adj[u][k] as int) < adj.len()
}

pub open spec fn edge(adj: Seq<Seq<usize>>, u: int, v: int) -> bool {
    &&& 0 <= u < adj.len()
    &&& exists|k: int| 0 <= k < adj[u].len() && adj[u][k] as int == v
}

/// `p` is a walk along edges of the graph.
pub open spec fn is_path(adj: Seq<Seq<usize>>, p: Seq<int>) -> bool {
    &&& p.len() >= 1
    &&& forall|i: int| 0 <= i < p.len() - 1 ==> edge(adj, #[trigger] p[i], p[i + 1])
}

/// There is a walk, possibly empty, from `a` to `b`.
pub open spec fn reaches(adj: Seq<Seq<usize>>, a: int, b: int) -> bool {
    exists|p: Seq<int>| is_path(adj, p) && p[0] == a && p.last() == b
}

/// A cycle can be reached from `r`: some edge `u -> v` reachable from `r`
/// leads back to `u`.
pub open spec fn cycle_reachable(adj: Seq<Seq<usize>>, r: int) -> bool {
    exists|u: int, v: int| reaches(adj, r, u) && edge(adj, u, v) && reaches(adj, v, u)
}

/// The graph has no cycle at all.

pub proof fn lemma_reaches_refl(adj: Seq<Seq<usize>>, a: int)
    ensures
        reaches(adj, a, a),
{
    let p = seq![a];
    assert(is_path(adj, p) && p[0] == a && p.last() == a);
}

pub proof fn lemma_reaches_step(adj: Seq<Seq<usize>>, a: int, b: int, c: int)
    requires
        reaches(adj, a, b),
        edge(adj, b, c),
    ensures
        reaches(adj, a, c),
{
    let p = choose|p: Seq<int>| is_path(adj, p) && p[0] == a && p.last() == b;
    let q = p.push(c);
    assert forall|i: int| 0 <= i < q.len() - 1 implies edge(adj, #[trigger] q[i], q[i + 1]) by {
        if i < p.len() - 1 {
            assert(q[i] == p[i] && q[i + 1] == p[i + 1]);
        } else {
            assert(q[i] == b && q[i + 1] == c);
        }
    }
    assert(is_path(adj, q) && q[0] == a && q.last() == c);
}

pub proof fn lemma_reaches_first_step(adj: Seq<Seq<usize>>, a: int, b: int, c: int)
    requires
        edge(adj, a, b),
        reaches(adj, b, c),
    ensures
        reaches(adj, a, c),
{
    let p = choose|p: Seq<int>| is_path(adj, p) && p[0] == b && p.last() == c;
    let q = seq![a] + p;
    assert forall|i: int| 0 <= i < q.len() - 1 implies edge(adj, #[trigger] q[i], q[i + 1]) by {
        if i == 0 {
            assert(q[0] == a && q[1] == p[0]);
        } else {
            assert(q[i] == p[i - 1] && q[i + 1] == p[i]);
        }
    }
    assert(is_path(adj, q) && q[0] == a && q.last() == c);
}

// --- Colours ---

pub open spec fn white(c: u8) -> bool {
    c == 0
}

pub open spec fn gray(c: u8) -> bool {
    c == 1
}

pub open spec fn black(c: u8) -> bool {
    c == 2
}

/// Every black node has finished: its neighbours are black and finished
/// before it.
pub open spec fn black_closed(adj: Seq<Seq<usize>>, colors: Seq<u8>, rank: Seq<int>) -> bool {
    forall|u: int, k: int|
        0 <= u < adj.len() && black(colors[u]) && 0 <= k < adj[u].len() ==> {
            let v = #[trigger] adj[u][k] as int;
            black(colors[v]) && rank[v] < rank[u]
        }
}

/// The gray nodes are exactly those of `stack`, which is a path.
#[verifier::opaque]
pub open spec fn stack_ok(adj: Seq<Seq<usize>>, colors: Seq<u8>, stack: Seq<int>) -> bool {
    &&& forall|i: int| 0 <= i < stack.len() ==> 0 <= #[trigger] stack[i] < adj.len()
    &&& forall|i: int| 0 <= i < stack.len() ==> gray(colors[#[trigger] stack[i]])
    &&& forall|u: int| 0 <= u < adj.len() && gray(#[trigger] colors[u]) ==> stack.contains(u)
    &&& forall|i: int| 0 <= i < stack.len() - 1 ==> edge(adj, #[trigger] stack[i], stack[i + 1])
}

pub open spec fn colors_ok(adj: Seq<Seq<usize>>, colors: Seq<u8>) -> bool {
    &&& colors.len() == adj.len()
    &&& forall|u: int| 0 <= u < colors.len() ==> #[trigger] colors[u] <= 2
}

pub open spec fn white_count(colors: Seq<u8>) -> nat
    decreases colors.len(),
{
    if colors.len() == 0 {
        0
    } else {
        white_count(colors.drop_last()) + if white(colors.last()) {
            1nat
        } else {
            0nat
        }
    }
}

proof fn lemma_white_count_mono(a: Seq<u8>, b: Seq<u8>)
    requires
        a.len() == b.len(),
        forall|u: int| 0 <= u < a.len() && !white(a[u]) ==> !white(#[trigger] b[u]),
    ensures
        white_count(b) <= white_count(a),
    decreases a.len(),
{
    if a.len() > 0 {
        lemma_white_count_mono(a.drop_last(), b.drop_last());
    }
}

proof fn lemma_white_count_drop(a: Seq<u8>, b: Seq<u8>, x: int)
    requires
        a.len() == b.len(),
        0 <= x < a.len(),
        white(a[x]),
        !white(b[x]),
        forall|u: int| 0 <= u < a.len() && !white(a[u]) ==> !white(#[trigger] b[u]),
    ensures
        white_count(b) < white_count(a),
    decreases a.len(),
{
    if x == a.len() - 1 {
        lemma_white_count_mono(a.drop_last(), b.drop_last());
    } else {
        lemma_white_count_drop(a.drop_last(), b.drop_last(), x);
    }
}

/// From a black node only black nodes are reached, each finished no later.
proof fn lemma_black_reach(
    adj: Seq<Seq<usize>>,
    colors: Seq<u8>,
    rank: Seq<int>,
    a: int,
    p: Seq<int>,
    n: int,
)
    requires
        graph_wf(adj),
        colors.len() == adj.len(),
        black_closed(adj, colors, rank),
        is_path(adj, p),
        p[0] == a,
        0 <= a < adj.len(),
        black(colors[a]),
        1 <= n <= p.len(),
    ensures
        0 <= p[n - 1] < adj.len(),
        black(colors[p[n - 1]]),
        rank[p[n - 1]] <= rank[a],
        n > 1 ==> rank[p[n - 1]] < rank[a],
    decreases n,
{
    if n > 1 {
        lemma_black_reach(adj, colors, rank, a, p, n - 1);
        let u = p[n - 2];
        assert(edge(adj, u, p[n - 1]));
        let k = choose|k: int| 0 <= k < adj[u].len() && adj[u][k] as int == p[n - 1];
        assert(black(colors[adj[u][k] as int]));
    }
}

/// No cycle can be reached from a black node.
pub proof fn lemma_black_no_cycle(adj: Seq<Seq<usize>>, colors: Seq<u8>, rank: Seq<int>, a: int)
    requires
        graph_wf(adj),
        colors.len() == adj.len(),
        black_closed(adj, colors, rank),
        0 <= a < adj.len(),
        black(colors[a]),
    ensures
        !cycle_reachable(adj, a),
{
    if cycle_reachable(adj, a) {
        let (u, v) = choose|u: int, v: int|
            reaches(adj, a, u) && edge(adj, u, v) && reaches(adj, v, u);
        let p = choose|p: Seq<int>| is_path(adj, p) && p[0] == a && p.last() == u;
        lemma_black_reach(adj, colors, rank, a, p, p.len() as int);
        let k = choose|k: int| 0 <= k < adj[u].len() && adj[u][k] as int == v;
        assert(black(colors[v]) && rank[v] < rank[u]);
        let q = choose|q: Seq<int>| is_path(adj, q) && q[0] == v && q.last() == u;
        lemma_black_reach(adj, colors, rank, v, q, q.len() as int);
        assert(false);
    }
}

proof fn lemma_stack_reaches(adj: Seq<Seq<usize>>, stack: Seq<int>, i: int, j: int)
    requires
        0 <= i <= j < stack.len(),
        forall|t: int| 0 <= t < stack.len() - 1 ==> edge(adj, #[trigger] stack[t], stack[t + 1]),
    ensures
        reaches(adj, stack[i], stack[j]),
    decreases j - i,
{
    if i == j {
        lemma_reaches_refl(adj, stack[i]);
    } else {
        lemma_stack_reaches(adj, stack, i, j - 1);
        lemma_reaches_step(adj, stack[i], stack[j - 1], stack[j]);
    }
}

/// The search's standing invariant: colours are well formed, black nodes are
/// closed under edges with decreasing finishing ranks below `nr`.
#[verifier::opaque]
pub open spec fn dfs_inv(g: Seq<Seq<usize>>, colors: Seq<u8>, rank: Seq<int>, nr: int) -> bool {
    &&& colors_ok(g, colors)
    &&& rank.len() == g.len()
    &&& black_closed(g, colors, rank)
    &&& forall|u: int| 0 <= u < g.len() && black(colors[u]) ==> #[trigger] rank[u] < nr
}

/// From `c0` to `c1` colours only darken; black nodes keep their rank and gray
/// nodes stay gray.
#[verifier::opaque]
pub open spec fn progress(
    g: Seq<Seq<usize>>,
    c0: Seq<u8>,
    r0: Seq<int>,
    c1: Seq<u8>,
    r1: Seq<int>,
) -> bool {
    &&& c1.len() == c0.len()
    &&& forall|u: int| #![trigger c1[u]] 0 <= u < c0.len() && !white(c0[u]) ==> !white(c1[u])
    &&& forall|u: int|
        #![trigger c1[u]]
        0 <= u < c0.len() && black(c0[u]) ==> black(c1[u]) && r1[u] == r0[u]
    &&& forall|u: int| #![trigger c1[u]] 0 <= u < c0.len() && gray(c0[u]) ==> gray(c1[u])
}

/// The first `k` neighbours of `node` are finished.
#[verifier::opaque]
pub open spec fn done_upto(
    g: Seq<Seq<usize>>,
    node: int,
    k: int,
    colors: Seq<u8>,
    rank: Seq<int>,
    nr: int,
) -> bool {
    forall|j: int|
        0 <= j < k ==> black(colors[#[trigger] g[node][j] as int]) && rank[g[node][j] as int] < nr
}


proof fn lemma_progress_trans(
    g: Seq<Seq<usize>>,
    c0: Seq<u8>,
    r0: Seq<int>,
    c1: Seq<u8>,
    r1: Seq<int>,
    c2: Seq<u8>,
    r2: Seq<int>,
)
    requires
        progress(g, c0, r0, c1, r1),
        progress(g, c1, r1, c2, r2),
    ensures
        progress(g, c0, r0, c2, r2),
{
    reveal(progress);
    assert forall|u: int| #![trigger c2[u]] 0 <= u < c0.len() && black(c0[u]) implies black(c2[u]) && r2[u] == r0[u] by {
        assert(black(c1[u]));
    }
    assert forall|u: int| #![trigger c2[u]] 0 <= u < c0.len() && !white(c0[u]) implies !white(c2[u]) by {
        assert(!white(c1[u]));
    }
    assert forall|u: int| #![trigger c2[u]] 0 <= u < c0.len() && gray(c0[u]) implies gray(c2[u]) by {
        assert(gray(c1[u]));
    }
}

proof fn lemma_progress_count(g: Seq<Seq<usize>>, c0: Seq<u8>, r0: Seq<int>, c1: Seq<u8>, r1: Seq<int>)
    requires
        progress(g, c0, r0, c1, r1),
    ensures
        white_count(c1) <= white_count(c0),
{
    reveal(progress);
    lemma_white_count_mono(c0, c1);
}

/// Turning the white `node` gray pushes it on the stack.
proof fn lemma_enter(
    g: Seq<Seq<usize>>,
    entry: Seq<u8>,
    colors: Seq<u8>,
    stack: Seq<int>,
    node: int,
    rank: Seq<int>,
    nr: int,
)
    requires
        graph_wf(g),
        0 <= node < g.len(),
        entry.len() == g.len(),
        white(entry[node]),
        colors == entry.update(node, 1),
        stack_ok(g, entry, stack),
        stack.len() > 0 ==> edge(g, stack.last(), node),
        dfs_inv(g, entry, rank, nr),
    ensures
        stack_ok(g, colors, stack.push(node)),
        dfs_inv(g, colors, rank, nr),
        progress(g, entry, rank, colors, rank),
        white_count(colors) < white_count(entry),
        gray(colors[node]),
        forall|i: int| 0 <= i < stack.len() ==> #[trigger] stack[i] != node,
{
    reveal(stack_ok);
    reveal(dfs_inv);
    reveal(progress);
    let new_stack = stack.push(node);
    assert forall|u: int| 0 <= u < g.len() && gray(#[trigger] colors[u]) implies new_stack.contains(u) by {
        if u != node {
            assert(stack.contains(u));
            let i = choose|i: int| 0 <= i < stack.len() && stack[i] == u;
            assert(new_stack[i] == u);
        } else {
            assert(new_stack[stack.len() as int] == u);
        }
    }
    assert forall|i: int| 0 <= i < new_stack.len() - 1 implies edge(g, #[trigger] new_stack[i], new_stack[i + 1]) by {
        if i < stack.len() - 1 {
            assert(new_stack[i] == stack[i] && new_stack[i + 1] == stack[i + 1]);
        } else {
            assert(new_stack[i] == stack.last() && new_stack[i + 1] == node);
        }
    }
    assert forall|i: int| 0 <= i < new_stack.len() implies gray(colors[#[trigger] new_stack[i]]) by {
        if i < stack.len() {
            assert(new_stack[i] == stack[i]);
        }
    }
    assert forall|u: int, k: int|
        0 <= u < g.len() && black(colors[u]) && 0 <= k < g[u].len() implies {
        let v = #[trigger] g[u][k] as int;
        black(colors[v]) && rank[v] < rank[u]
    } by {
        assert(black(entry[u]));
    }
    lemma_white_count_drop(entry, colors, node);
}

/// A neighbour that is already black counts as finished.
proof fn lemma_black_neighbor(
    g: Seq<Seq<usize>>,
    node: int,
    k: int,
    colors: Seq<u8>,
    rank: Seq<int>,
    nr: int,
)
    requires
        graph_wf(g),
        0 <= node < g.len(),
        0 <= k < g[node].len(),
        done_upto(g, node, k, colors, rank, nr),
        dfs_inv(g, colors, rank, nr),
        !white(colors[g[node][k] as int]),
        !gray(colors[g[node][k] as int]),
    ensures
        done_upto(g, node, k + 1, colors, rank, nr),
{
    reveal(done_upto);
    reveal(dfs_inv);
    assert(black(colors[g[node][k] as int]));
}

/// After a neighbour's search succeeds the loop's facts still hold, one
/// neighbour further.
proof fn lemma_child_done(
    g: Seq<Seq<usize>>,
    node: int,
    k: int,
    entry: Seq<u8>,
    rank0: Seq<int>,
    before: Seq<u8>,
    before_rank: Seq<int>,
    before_nr: int,
    after: Seq<u8>,
    after_rank: Seq<int>,
    after_nr: int,
)
    requires
        graph_wf(g),
        0 <= node < g.len(),
        0 <= k < g[node].len(),
        done_upto(g, node, k, before, before_rank, before_nr),
        progress(g, entry, rank0, before, before_rank),
        progress(g, before, before_rank, after, after_rank),
        gray(before[node]),
        black(after[g[node][k] as int]),
        dfs_inv(g, after, after_rank, after_nr),
        before_nr <= after_nr,
        before.len() == g.len(),
    ensures
        done_upto(g, node, k + 1, after, after_rank, after_nr),
        progress(g, entry, rank0, after, after_rank),
        gray(after[node]),
{
    reveal(done_upto);
    reveal(dfs_inv);
    lemma_progress_trans(g, entry, rank0, before, before_rank, after, after_rank);
    reveal(progress);
    assert forall|j: int| 0 <= j < k + 1 implies black(after[#[trigger] g[node][j] as int]) && after_rank[g[node][j] as int] < after_nr by {
        if j < k {
            assert(black(before[g[node][j] as int]));
        }
    }
}

/// Turning the gray `node`, all of whose neighbours are finished, black pops it
/// from the stack.
proof fn lemma_finish(
    g: Seq<Seq<usize>>,
    node: int,
    entry: Seq<u8>,
    rank0: Seq<int>,
    before: Seq<u8>,
    rank: Seq<int>,
    nr: int,
    stack: Seq<int>,
)
    requires
        graph_wf(g),
        0 <= node < g.len(),
        white(entry[node]),
        gray(before[node]),
        stack_ok(g, before, stack.push(node)),
        forall|i: int| 0 <= i < stack.len() ==> #[trigger] stack[i] != node,
        done_upto(g, node, g[node].len() as int, before, rank, nr),
        dfs_inv(g, before, rank, nr),
        progress(g, entry, rank0, before, rank),
    ensures
        stack_ok(g, before.update(node, 2), stack),
        dfs_inv(g, before.update(node, 2), rank.update(node, nr), nr + 1),
        progress(g, entry, rank0, before.update(node, 2), rank.update(node, nr)),
        black(before.update(node, 2)[node]),
{
    reveal(stack_ok);
    reveal(dfs_inv);
    reveal(progress);
    reveal(done_upto);
    let after = before.update(node, 2);
    let r2 = rank.update(node, nr);
    let new_stack = stack.push(node);
    assert forall|u: int, kk: int|
        0 <= u < g.len() && black(after[u]) && 0 <= kk < g[u].len() implies {
        let w = #[trigger] g[u][kk] as int;
        black(after[w]) && r2[w] < r2[u]
    } by {
        let w = g[u][kk] as int;
        if u == node {
            assert(black(before[w]));
        } else {
            assert(black(before[u]));
        }
    }
    assert forall|u: int| 0 <= u < g.len() && gray(#[trigger] after[u]) implies stack.contains(u) by {
        assert(new_stack.contains(u));
        let i = choose|i: int| 0 <= i < new_stack.len() && new_stack[i] == u;
        assert(i < stack.len());
        assert(stack[i] == u);
    }
    assert forall|i: int| 0 <= i < stack.len() implies 0 <= #[trigger] stack[i] < g.len() by {
        assert(new_stack[i] == stack[i]);
    }
    assert forall|i: int| 0 <= i < stack.len() implies gray(after[#[trigger] stack[i]]) by {
        assert(new_stack[i] == stack[i]);
        assert(gray(before[stack[i]]));
    }
    assert forall|i: int| 0 <= i < stack.len() - 1 implies edge(g, #[trigger] stack[i], stack[i + 1]) by {
        assert(new_stack[i] == stack[i] && new_stack[i + 1] == stack[i + 1]);
    }
    assert forall|u: int| #![trigger after[u]] 0 <= u < entry.len() && black(entry[u]) implies black(after[u]) && r2[u] == rank0[u] by {
        assert(u != node);
        assert(black(before[u]));
    }
    assert forall|u: int| #![trigger after[u]] 0 <= u < entry.len() && gray(entry[u]) implies gray(after[u]) by {
        assert(u != node);
        assert(gray(before[u]));
    }
    assert forall|u: int| #![trigger after[u]] 0 <= u < entry.len() && !white(entry[u]) implies !white(after[u]) by {
        if u != node {
            assert(!white(before[u]));
        }
    }
}

/// An edge from the top of the stack into a gray node closes a cycle.
proof fn lemma_back_edge(g: Seq<Seq<usize>>, colors: Seq<u8>, stack: Seq<int>, node: int, v: int)
    requires
        stack.len() > 0,
        stack.last() == node,
        stack_ok(g, colors, stack),
        0 <= v < g.len(),
        gray(colors[v]),
    ensures
        reaches(g, v, node),
        reaches(g, stack[0], node),
{
    reveal(stack_ok);
    assert(stack.contains(v));
    let i = choose|i: int| 0 <= i < stack.len() && stack[i] == v;
    lemma_stack_reaches(g, stack, i, stack.len() - 1);
    lemma_stack_reaches(g, stack, 0, stack.len() - 1);
}

/// Explores from `node`, which is white. On success every node reachable from
/// `node` is black; on finding an edge into a gray node it returns that edge
/// as `(source, position in the source's list)`.
fn visit(
    adj: &Vec<Vec<usize>>,
    Ghost(g): Ghost<Seq<Seq<usize>>>,
    node: usize,
    colors: &mut Vec<u8>,
    Ghost(stack): Ghost<Seq<int>>,
    Ghost(rank0): Ghost<Seq<int>>,
    Ghost(nr0): Ghost<int>,
) -> (res: (Option<(usize, usize)>, Ghost<Seq<int>>, Ghost<int>))
    requires
        g == adj@.map_values(|l: Vec<usize>| l@),
        graph_wf(g),
        node < g.len(),
        old(colors)@.len() == g.len(),
        white(old(colors)@[node as int]),
        stack_ok(g, old(colors)@, stack),
        stack.len() > 0 ==> edge(g, stack.last(), node as int),
        dfs_inv(g, old(colors)@, rank0, nr0),
    ensures
        final(colors)@.len() == g.len(),
        progress(g, old(colors)@, rank0, final(colors)@, res.1@),
        match res.0 {
            None => {
                &&& stack_ok(g, final(colors)@, stack)
                &&& black(final(colors)@[node as int])
                &&& dfs_inv(g, final(colors)@, res.1@, res.2@)
                &&& nr0 <= res.2@
            },
            Some((u, k)) => {
                &&& (u as int) < g.len()
                &&& (k as int) < g[u as int].len()
                &&& reaches(g, node as int, u as int)
                &&& reaches(g, g[u as int][k as int] as int, u as int)
                &&& (stack.len() > 0 ==> reaches(g, stack[0], u as int))
            },
        },
    decreases white_count(old(colors)@),
{
    let ghost entry = colors@;
    let ghost new_stack = stack.push(node as int);
    colors.set(node, 1);
    proof {
        lemma_enter(g, entry, colors@, stack, node as int, rank0, nr0);
        reveal(done_upto);
    }
    let ghost mut rank = rank0;
    let ghost mut nr = nr0;
    let n = adj[node].len();
    let mut k: usize = 0;
    while k < n
        invariant
            g == adj@.map_values(|l: Vec<usize>| l@),
            graph_wf(g),
            node < g.len(),
            n == g[node as int].len(),
            k <= n,
            colors@.len() == g.len(),
            entry == old(colors)@,
            entry.len() == g.len(),
            white(entry[node as int]),
            forall|i: int| 0 <= i < stack.len() ==> #[trigger] stack[i] != node as int,
            gray(colors@[node as int]),
            new_stack == stack.push(node as int),
            stack_ok(g, colors@, new_stack),
            dfs_inv(g, colors@, rank, nr),
            nr0 <= nr,
            progress(g, entry, rank0, colors@, rank),
            white_count(colors@) < white_count(entry),
            done_upto(g, node as int, k as int, colors@, rank, nr),
        decreases n - k,
    {
        let v = adj[node][k];
        proof {
            assert(g[node as int][k as int] == v);
            assert((v as int) < g.len());
            assert(edge(g, node as int, v as int));
        }
        if colors[v] == 1 {
            proof {
                lemma_back_edge(g, colors@, new_stack, node as int, v as int);
                lemma_reaches_refl(g, node as int);
                if stack.len() > 0 {
                    reveal(stack_ok);
                    lemma_stack_reaches(g, new_stack, 0, stack.len() as int);
                    assert(new_stack[0] == stack[0]);
                }
            }
            return (Some((node, k)), Ghost(rank), Ghost(nr));
        } else if colors[v] == 0 {
            let ghost before = colors@;
            let ghost before_rank = rank;
            let ghost before_nr = nr;
            let (sub, Ghost(rank1), Ghost(nr1)) = visit(
                adj,
                Ghost(g),
                v,
                colors,
                Ghost(new_stack),
                Ghost(rank),
                Ghost(nr),
            );
            proof {
                rank = rank1;
                nr = nr1;
                lemma_progress_trans(g, entry, rank0, before, before_rank, colors@, rank);
            }
            match sub {
                Some((u, kk)) => {
                    proof {
                        lemma_reaches_first_step(g, node as int, v as int, u as int);
                        if stack.len() > 0 {
                            assert(new_stack[0] == stack[0]);
                        }
                    }
                    return (Some((u, kk)), Ghost(rank), Ghost(nr));
                },
                None => {
                    proof {
                        reveal(progress);
                        lemma_child_done(
                            g,
                            node as int,
                            k as int,
                            entry,
                            rank0,
                            before,
                            before_rank,
                            before_nr,
                            colors@,
                            rank,
                            nr,
                        );
                        lemma_progress_count(g, before, before_rank, colors@, rank);
                    }
                },
            }
        } else {
            proof {
                lemma_black_neighbor(g, node as int, k as int, colors@, rank, nr);
            }
        }
        k = k + 1;
    }
    let ghost before = colors@;
    colors.set(node, 2);
    proof {
        lemma_finish(g, node as int, entry, rank0, before, rank, nr, stack);
        rank = rank.update(node as int, nr);
        nr = nr + 1;
    }
    (None, Ghost(rank), Ghost(nr))
}

/// Searches the graph for a cycle, starting from `roots` in order.
///
/// `None` when no cycle can be reached from any root. Otherwise
/// `Some((i, u, k))`: no cycle can be reached from the roots before `roots[i]`,
/// and the edge from `u` to its `k`-th neighbour, which `roots[i]` reaches,
/// closes a cycle.
pub fn find_cycle(adj: &Vec<Vec<usize>>, roots: &Vec<usize>) -> (r: Option<(usize, usize, usize)>)
    requires
        graph_wf(adj@.map_values(|l: Vec<usize>| l@)),
        forall|i: int| 0 <= i < roots.len() ==> (#[trigger] roots[i] as int) < adj.len(),
    ensures
        ({
            let g = adj@.map_values(|l: Vec<usize>| l@);
            match r {
                None => forall|i: int|
                    0 <= i < roots.len() ==> !cycle_reachable(g, #[trigger] roots[i] as int),
                Some((i, u, k)) => {
                    &&& (i as int) < roots.len()
                    &&& (u as int) < g.len()
                    &&& (k as int) < g[u as int].len()
                    &&& reaches(g, roots[i as int] as int, u as int)
                    &&& reaches(g, g[u as int][k as int] as int, u as int)
                    &&& forall|j: int| 0 <= j < i ==> !cycle_reachable(g, #[trigger] roots[j] as int)
                },
            }
        }),
{
    let ghost g = adj@.map_values(|l: Vec<usize>| l@);
    let mut colors: Vec<u8> = Vec::new();
    let mut t: usize = 0;
    while t < adj.len()
        invariant
            t <= adj@.len(),
            colors@.len() == t,
            forall|u: int| 0 <= u < t ==> #[trigger] colors@[u] == 0,
        decreases adj@.len() - t,
    {
        colors.push(0);
        t = t + 1;
    }
    let ghost mut rank: Seq<int> = Seq::new(adj@.len(), |u: int| 0int);
    let ghost mut nr: int = 0;
    proof {
        reveal(dfs_inv);
    }
    let mut i: usize = 0;
    while i < roots.len()
        invariant
            g == adj@.map_values(|l: Vec<usize>| l@),
            graph_wf(g),
            forall|j: int| 0 <= j < roots.len() ==> (#[trigger] roots[j] as int) < adj.len(),
            i <= roots.len(),
            colors@.len() == g.len(),
            forall|u: int| 0 <= u < g.len() ==> !gray(#[trigger] colors@[u]),
            dfs_inv(g, colors@, rank, nr),
            forall|j: int| 0 <= j < i ==> black(colors@[#[trigger] roots[j] as int]),
        decreases roots.len() - i,
    {
        let root = roots[i];
        if colors[root] == 0 {
            let ghost before = colors@;
            let ghost before_rank = rank;
            let ghost before_nr = nr;
            proof {
                reveal(stack_ok);
                assert(stack_ok(g, colors@, Seq::<int>::empty()));
            }
            let (found, Ghost(rank1), Ghost(nr1)) = visit(
                adj,
                Ghost(g),
                root,
                &mut colors,
                Ghost(Seq::empty()),
                Ghost(rank),
                Ghost(nr),
            );
            proof {
                rank = rank1;
                nr = nr1;
            }
            match found {
                Some((u, k)) => {
                    proof {
                        reveal(dfs_inv);
                        assert forall|j: int| 0 <= j < i implies !cycle_reachable(g, #[trigger] roots[j] as int) by {
                            lemma_black_no_cycle(g, before, before_rank, roots[j] as int);
                        }
                    }
                    return Some((i, u, k));
                },
                None => {
                    proof {
                        reveal(stack_ok);
                        reveal(progress);
                        assert forall|u: int| 0 <= u < g.len() implies !gray(#[trigger] colors@[u]) by {
                            if gray(colors@[u]) {
                                assert(Seq::<int>::empty().contains(u));
                            }
                        }
                        assert forall|j: int| 0 <= j < i + 1 implies black(colors@[#[trigger] roots[j] as int]) by {
                            if j < i {
                                assert(black(before[roots[j] as int]));
                            }
                        }
                    }
                },
            }
        } else {
            proof {
                reveal(dfs_inv);
                assert(black(colors@[root as int]));
            }
        }
        i = i + 1;
    }
    proof {
        reveal(dfs_inv);
        assert forall|j: int| 0 <= j < roots.len() implies !cycle_reachable(g, #[trigger] roots[j] as int) by {
            lemma_black_no_cycle(g, colors@, rank, roots[j] as int);
        }
    }
    None
}

// --- Reachability ---

/// Every node marked is reached from `start`, and the nodes marked and
/// finished have all their neighbours marked.
spec fn marks_ok(adj: Seq<Seq<usize>>, start: int, marks: Seq<u8>, stack: Seq<usize>) -> bool {
    &&& marks.len() == adj.len()
    &&& forall|u: int| 0 <= u < marks.len() && !white(#[trigger] marks[u]) ==> reaches(adj, start, u)
    &&& forall|i: int| 0 <= i < stack.len() ==> (#[trigger] stack[i] as int) < adj.len() && !white(marks[stack[i] as int])
    &&& forall|u: int, k: int|
        0 <= u < marks.len() && !white(marks[u]) && !stack.contains(u as usize) && 0 <= k < adj[u].len()
            ==> !white(marks[#[trigger] adj[u][k] as int])
}

/// From a marked node along a path every node is marked, when every marked
/// node has its neighbours marked.
proof fn lemma_closed_reach(adj: Seq<Seq<usize>>, marks: Seq<u8>, p: Seq<int>, n: int)
    requires
        graph_wf(adj),
        marks.len() == adj.len(),
        forall|u: int, k: int|
            0 <= u < marks.len() && !white(marks[u]) && 0 <= k < adj[u].len() ==> !white(marks[#[trigger] adj[u][k] as int]),
        is_path(adj, p),
        0 <= p[0] < adj.len(),
        !white(marks[p[0]]),
        1 <= n <= p.len(),
    ensures
        0 <= p[n - 1] < adj.len(),
        !white(marks[p[n - 1]]),
    decreases n,
{
    if n > 1 {
        lemma_closed_reach(adj, marks, p, n - 1);
        let u = p[n - 2];
        assert(edge(adj, u, p[n - 1]));
        let k = choose|k: int| 0 <= k < adj[u].len() && adj[u][k] as int == p[n - 1];
        assert(!white(marks[adj[u][k] as int]));
    }
}

/// The nodes that `start` reaches: `r[u]` holds exactly when a walk leads
/// from `start` to `u`.
pub fn reachable(adj: &Vec<Vec<usize>>, start: usize) -> (r: Vec<bool>)
    requires
        graph_wf(adj@.map_values(|l: Vec<usize>| l@)),
        (start as int) < adj@.len(),
    ensures
        r@.len() == adj@.len(),
        forall|u: int| 0 <= u < adj@.len() ==> (#[trigger] r@[u] <==> reaches(adj@.map_values(|l: Vec<usize>| l@), start as int, u)),
{
    let ghost g = adj@.map_values(|l: Vec<usize>| l@);
    let n = adj.len();
    let mut marks: Vec<u8> = Vec::new();
    let mut t: usize = 0;
    while t < n
        invariant
            n == adj@.len(),
            t <= n,
            marks@.len() == t,
            forall|u: int| 0 <= u < t ==> #[trigger] marks@[u] == 0,
        decreases n - t,
    {
        marks.push(0);
        t = t + 1;
    }
    marks.set(start, 1);
    let mut stack: Vec<usize> = Vec::new();
    stack.push(start);
    proof {
        lemma_reaches_refl(g, start as int);
        assert forall|u: int| 0 <= u < marks@.len() && !white(#[trigger] marks@[u]) implies reaches(g, start as int, u) by {
            assert(u == start);
        }
        assert forall|u: int, k: int|
            0 <= u < marks@.len() && !white(marks@[u]) && !stack@.contains(u as usize) && 0 <= k < g[u].len()
                implies !white(marks@[#[trigger] g[u][k] as int]) by {
            assert(u == start);
            assert(stack@[0] == start);
        }
    }
    while stack.len() > 0
        invariant
            g == adj@.map_values(|l: Vec<usize>| l@),
            graph_wf(g),
            n == g.len(),
            (start as int) < n,
            !white(marks@[start as int]),
            marks_ok(g, start as int, marks@, stack@),
            stack@.no_duplicates(),
        decreases white_count(marks@), stack@.len(),
    {
        let ghost stack_top = stack@;
        let u = stack.pop().unwrap();
        let ghost marks_at_pop = marks@;
        let ghost stack_at_pop = stack@;
        proof {
            assert(stack_top =~= old_stack_of(stack_at_pop, u));
            assert(stack_top[stack_top.len() - 1] == u);
            assert(!stack@.contains(u)) by {
                if stack@.contains(u) {
                    let i = choose|i: int| 0 <= i < stack@.len() && stack@[i] == u;
                    assert(stack_top[i] == u);
                }
            }
        }
        let mut k: usize = 0;
        while k < adj[u].len()
            invariant
                g == adj@.map_values(|l: Vec<usize>| l@),
                graph_wf(g),
                n == g.len(),
                (u as int) < n,
                (start as int) < n,
                !white(marks@[start as int]),
                !white(marks@[u as int]),
                k <= g[u as int].len(),
                marks@.len() == n,
                marks_at_pop.len() == n,
                marks_ok(g, start as int, marks_at_pop, stack_top),
                stack_top == old_stack_of(stack_at_pop, u),
                forall|v: int| 0 <= v < n && !white(marks_at_pop[v]) ==> !white(#[trigger] marks@[v]),
                forall|v: int| 0 <= v < n && !white(#[trigger] marks@[v]) ==> reaches(g, start as int, v),
                forall|j: int| 0 <= j < k ==> !white(marks@[#[trigger] g[u as int][j] as int]),
                forall|i: int| 0 <= i < stack@.len() ==> (#[trigger] stack@[i] as int) < n && !white(marks@[stack@[i] as int]),
                stack@.no_duplicates(),
                !stack@.contains(u),
                forall|v: int|
                    0 <= v < n && !white(#[trigger] marks@[v]) && white(marks_at_pop[v]) ==> stack@.contains(v as usize),
                stack_at_pop.len() <= stack@.len(),
                forall|i: int| 0 <= i < stack_at_pop.len() ==> #[trigger] stack@[i] == stack_at_pop[i],
                white_count(marks@) < white_count(marks_at_pop) || stack@.len() == stack_at_pop.len(),
                white_count(marks@) <= white_count(marks_at_pop),
            decreases g[u as int].len() - k,
        {
            let v = adj[u][k];
            proof {
                assert(g[u as int][k as int] == v);
                assert((v as int) < n);
            }
            if marks[v] == 0 {
                let ghost before = marks@;
                let ghost stack_before = stack@;
                marks.set(v, 1);
                stack.push(v);
                proof {
                    assert(edge(g, u as int, v as int));
                    lemma_reaches_step(g, start as int, u as int, v as int);
                    lemma_white_count_drop(before, marks@, v as int);
                    lemma_white_count_mono(marks_at_pop, before);
                    assert forall|i: int, j: int| 0 <= i < j < stack@.len() implies stack@[i] != stack@[j] by {
                        if j == stack@.len() - 1 {
                            assert(!white(marks@[stack@[i] as int]));
                            assert(!white(before[stack@[i] as int]));
                        }
                    }
                    assert(!stack@.contains(u)) by {
                        if stack@.contains(u) {
                            let i = choose|i: int| 0 <= i < stack@.len() && stack@[i] == u;
                            assert(i == stack@.len() - 1);
                        }
                    }
                    assert forall|w: int|
                        0 <= w < n && !white(#[trigger] marks@[w]) && white(marks_at_pop[w]) implies stack@.contains(w as usize) by {
                        if w == v as int {
                            assert(stack@[stack@.len() - 1] == v);
                        } else {
                            assert(!white(before[w]));
                            assert(stack_before.contains(w as usize));
                            let i = choose|i: int| 0 <= i < stack_before.len() && stack_before[i] == w as usize;
                            assert(stack@[i] == w as usize);
                        }
                    }
                }
            }
            k = k + 1;
        }
        proof {
            assert forall|w: int, j: int|
                0 <= w < marks@.len() && !white(marks@[w]) && !stack@.contains(w as usize) && 0 <= j < g[w].len()
                    implies !white(marks@[#[trigger] g[w][j] as int]) by {
                if w != u as int {
                    if white(marks_at_pop[w]) {
                        assert(stack@.contains(w as usize));
                    }
                    if stack_at_pop.contains(w as usize) {
                        let i = choose|i: int| 0 <= i < stack_at_pop.len() && stack_at_pop[i] == w as usize;
                        assert(stack@[i] == w as usize);
                    }
                    assert(!old_stack_of(stack_at_pop, u).contains(w as usize)) by {
                        if old_stack_of(stack_at_pop, u).contains(w as usize) {
                            let i = choose|i: int| 0 <= i < old_stack_of(stack_at_pop, u).len() && old_stack_of(stack_at_pop, u)[i] == w as usize;
                            if i < stack_at_pop.len() {
                                assert(stack_at_pop[i] == w as usize);
                            }
                        }
                    }
                    assert(!white(marks_at_pop[w]));
                    assert(!stack_top.contains(w as usize));
                    assert(!white(marks_at_pop[g[w][j] as int]));
                }
            }
        }
    }
    let mut r: Vec<bool> = Vec::new();
    let mut i: usize = 0;
    while i < n
        invariant
            n == g.len(),
            i <= n,
            marks@.len() == n,
            r@.len() == i,
            forall|u: int| 0 <= u < i ==> (#[trigger] r@[u] <==> !white(marks@[u])),
        decreases n - i,
    {
        r.push(marks[i] != 0);
        i = i + 1;
    }
    proof {
        assert forall|u: int| 0 <= u < n implies (#[trigger] r@[u] <==> reaches(g, start as int, u)) by {
            if reaches(g, start as int, u) {
                let p = choose|p: Seq<int>| is_path(g, p) && p[0] == start as int && p.last() == u;
                assert forall|w: int, k: int|
                    0 <= w < marks@.len() && !white(marks@[w]) && 0 <= k < g[w].len() implies !white(marks@[#[trigger] g[w][k] as int]) by {
                    assert(!stack@.contains(w as usize));
                }
                lemma_closed_reach(g, marks@, p, p.len() as int);
            }
        }
    }
    r
}

spec fn old_stack_of(rest: Seq<usize>, top: usize) -> Seq<usize> {
    rest.push(top)
}

} // verus!
