//! Cycle detection in a directed graph given by successor lists.
use vstd::prelude::*;

verus! {

/// The successor lists of a graph on the nodes `0 .. g.len()`.
pub type Graph = Seq<Seq<usize>>;

pub open spec fn graph_of(adj: &Vec<Vec<usize>>) -> Graph {
    Seq::new(adj.len() as nat, |i: int| adj[i]@)
}

/// Every successor is a node of the graph.
pub open spec fn graph_wf(g: Graph) -> bool {
    forall|i: int, j: int| 0 <= i < g.len() && 0 <= j < g[i].len() ==> #[trigger] g[i][j] < g.len()
}

pub open spec fn has_edge(g: Graph, x: int, y: int) -> bool {
    0 <= x < g.len() && g[x].contains(y as usize)
}

/// `c` is a directed cycle: each node has an edge to the next, the last to
/// the first.
pub open spec fn is_cycle(g: Graph, c: Seq<usize>) -> bool {
    &&& c.len() > 0
    &&& forall|k: int| 0 <= k < c.len() - 1 ==> #[trigger] has_edge(g, c[k] as int, c[k + 1] as int)
    &&& has_edge(g, c.last() as int, c[0] as int)
}

pub open spec fn acyclic(g: Graph) -> bool {
    forall|c: Seq<usize>| !#[trigger] is_cycle(g, c)
}

pub open spec fn white_count(s: Seq<u8>) -> nat
    decreases s.len(),
{
    if s.len() == 0 {
        0
    } else {
        white_count(s.drop_last()) + if s.last() == 0 {
            1nat
        } else {
            0nat
        }
    }
}

proof fn lemma_white_count_less(a: Seq<u8>, b: Seq<u8>, x: int)
    requires
        a.len() == b.len(),
        forall|i: int| 0 <= i < b.len() && b[i] == 0 ==> a[i] == 0,
        0 <= x < a.len(),
        a[x] == 0,
        b[x] != 0,
    ensures
        white_count(b) < white_count(a),
    decreases a.len(),
{
    lemma_white_count_le(a.drop_last(), b.drop_last());
    if x < a.len() - 1 {
        lemma_white_count_less(a.drop_last(), b.drop_last(), x);
    }
}

proof fn lemma_white_count_le(a: Seq<u8>, b: Seq<u8>)
    requires
        a.len() == b.len(),
        forall|i: int| 0 <= i < b.len() && b[i] == 0 ==> a[i] == 0,
    ensures
        white_count(b) <= white_count(a),
    decreases a.len(),
{
    if a.len() > 0 {
        lemma_white_count_le(a.drop_last(), b.drop_last());
    }
}

/// The search state: colours (0 unvisited, 1 on the path, 2 finished), the
/// path of nodes being explored, and finishing ranks.
pub open spec fn dfs_inv(g: Graph, color: Seq<u8>, stack: Seq<usize>, finish: Seq<int>, time: int) -> bool {
    &&& color.len() == g.len()
    &&& finish.len() == g.len()
    &&& forall|x: int| 0 <= x < g.len() ==> #[trigger] color[x] <= 2
    &&& forall|k: int| 0 <= k < stack.len() ==> #[trigger] stack[k] < g.len()
    &&& forall|x: int| 0 <= x < g.len() ==> (#[trigger] color[x] == 1 <==> stack.contains(x as usize))
    &&& forall|k: int, l: int| 0 <= k < l < stack.len() ==> stack[k] != stack[l]
    &&& forall|k: int| 0 <= k < stack.len() - 1 ==> #[trigger] has_edge(g, stack[k] as int, stack[k + 1] as int)
    &&& forall|x: int, j: int|
        0 <= x < g.len() && color[x] == 2 && 0 <= j < g[x].len() ==> color[#[trigger] g[x][j] as int] == 2
            && finish[g[x][j] as int] < finish[x]
    &&& forall|x: int| 0 <= x < g.len() && color[x] == 2 ==> #[trigger] finish[x] < time
}

/// Finished nodes stay finished with their rank, unvisited ones only come
/// from unvisited ones.
pub open spec fn progress(c0: Seq<u8>, f0: Seq<int>, c1: Seq<u8>, f1: Seq<int>) -> bool {
    &&& c1.len() == c0.len()
    &&& forall|x: int| 0 <= x < c0.len() && c0[x] == 2 ==> #[trigger] c1[x] == 2 && f1[x] == f0[x]
    &&& forall|x: int| 0 <= x < c0.len() && #[trigger] c1[x] == 0 ==> c0[x] == 0
    &&& forall|x: int| 0 <= x < c0.len() && c0[x] == 1 ==> #[trigger] c1[x] == 1
}

/// Explores from the unvisited node `u`: marks it on the path, visits its
/// unvisited successors in order, and finishes it; a successor found on the
/// path closes a cycle, which is returned.
fn dfs_visit(
    adj: &Vec<Vec<usize>>,
    u: usize,
    color: &mut Vec<u8>,
    stack: &mut Vec<usize>,
    finish: &mut Ghost<Seq<int>>,
    time: &mut Ghost<int>,
) -> (r: Option<Vec<usize>>)
    requires
        graph_wf(graph_of(adj)),
        dfs_inv(graph_of(adj), old(color)@, old(stack)@, old(finish)@, old(time)@),
        u < adj.len(),
        old(color)@[u as int] == 0,
        old(stack)@.len() > 0 ==> has_edge(graph_of(adj), old(stack)@.last() as int, u as int),
    ensures
        r is None ==> dfs_inv(graph_of(adj), final(color)@, final(stack)@, final(finish)@, final(time)@),
        r is None ==> final(color)@[u as int] == 2 && final(stack)@ == old(stack)@,
        r is None ==> progress(old(color)@, old(finish)@, final(color)@, final(finish)@),
        r is None ==> final(time)@ >= old(time)@,
        r is Some ==> is_cycle(graph_of(adj), r->0@),
    decreases white_count(old(color)@),
{
    let ghost g = graph_of(adj);
    let ghost c0 = color@;
    let ghost f0 = finish@;
    let ghost s0 = stack@;
    color.set(u, 1);
    stack.push(u);
    proof {
        assert(stack@.drop_last() == s0);
        assert forall|x: int| 0 <= x < g.len() implies (#[trigger] color@[x] == 1 <==> stack@.contains(x as usize)) by {
            if x == u {
                assert(stack@[s0.len() as int] == u);
            } else if color@[x] == 1 {
                assert(s0.contains(x as usize));
                let k = choose|k: int| 0 <= k < s0.len() && s0[k] == x as usize;
                assert(stack@[k] == x as usize);
            } else if stack@.contains(x as usize) {
                let k = choose|k: int| 0 <= k < stack@.len() && stack@[k] == x as usize;
                assert(k < s0.len());
                assert(s0.contains(x as usize));
            }
        }
        assert forall|k: int, l: int| 0 <= k < l < stack@.len() implies stack@[k] != stack@[l] by {
            if l == s0.len() {
                assert(s0.contains(stack@[k]));
                assert(c0[stack@[k] as int] == 1);
            }
        }
        assert forall|k: int| 0 <= k < stack@.len() - 1 implies #[trigger] has_edge(g, stack@[k] as int, stack@[k + 1] as int) by {
            if k + 1 < s0.len() {
                assert(has_edge(g, s0[k] as int, s0[k + 1] as int));
            }
        }
    }
    let succ = &adj[u];
    assert(succ@ == g[u as int]);
    let mut j: usize = 0;
    while j < succ.len()
        invariant
            g == graph_of(adj),
            graph_wf(g),
            succ@ == g[u as int],
            u < g.len(),
            j <= succ.len(),
            dfs_inv(g, color@, stack@, finish@, time@),
            stack@ == s0.push(u),
            color@[u as int] == 1,
            progress(c0.update(u as int, 1), f0, color@, finish@),
            time@ >= old(time)@,
            forall|t: int| 0 <= t < j ==> color@[#[trigger] succ@[t] as int] == 2,
            forall|t: int| 0 <= t < j ==> #[trigger] finish@[succ@[t] as int] < time@,
            c0 == old(color)@,
            f0 == old(finish)@,
            s0 == old(stack)@,
            c0[u as int] == 0,
            c0.len() == g.len(),
        decreases succ.len() - j,
    {
        let v = succ[j];
        assert(g[u as int][j as int] == v);
        assert(v < g.len());
        assert(has_edge(g, u as int, v as int)) by {
            assert(g[u as int][j as int] == v);
        }
        if color[v] == 0 {
            let ghost cb = color@;
            let ghost fb = finish@;
            proof {
                assert(stack@.last() == u);
                lemma_white_count_less(c0, color@, u as int);
            }
            match dfs_visit(adj, v, color, stack, finish, time) {
                Some(c) => {
                    return Some(c);
                },
                None => {},
            }
            proof {
                assert forall|x: int| 0 <= x < c0.len() && c0.update(u as int, 1)[x] == 2 implies #[trigger] color@[x] == 2 && finish@[x] == f0[x] by {
                    assert(cb[x] == 2 && fb[x] == f0[x]);
                }
                assert forall|x: int| 0 <= x < c0.len() && #[trigger] color@[x] == 0 implies c0.update(u as int, 1)[x] == 0 by {
                    assert(cb[x] == 0);
                }
                assert forall|x: int| 0 <= x < c0.len() && c0.update(u as int, 1)[x] == 1 implies #[trigger] color@[x] == 1 by {
                    assert(cb[x] == 1);
                }
                assert forall|t: int| 0 <= t < j + 1 implies color@[#[trigger] succ@[t] as int] == 2 by {
                    if t < j {
                        assert(cb[succ@[t] as int] == 2);
                    }
                }
                assert forall|t: int| 0 <= t < j + 1 implies #[trigger] finish@[succ@[t] as int] < time@ by {
                    if t < j {
                        assert(cb[succ@[t] as int] == 2);
                    }
                }
            }
        } else if color[v] == 1 {
            assert(stack@.contains(v));
            let mut k: usize = 0;
            while stack[k] != v
                invariant
                    k < stack.len(),
                    stack@.contains(v),
                    forall|t: int| 0 <= t < k ==> stack@[t] != v,
                decreases stack.len() - k,
            {
                k = k + 1;
                if k == stack.len() {
                    proof {
                        let t = choose|t: int| 0 <= t < stack@.len() && stack@[t] == v;
                    }
                    assert(false);
                }
            }
            let mut cycle: Vec<usize> = Vec::new();
            let mut t: usize = k;
            while t < stack.len()
                invariant
                    k <= t <= stack.len(),
                    cycle@ == stack@.subrange(k as int, t as int),
                decreases stack.len() - t,
            {
                cycle.push(stack[t]);
                assert(cycle@ =~= stack@.subrange(k as int, t + 1));
                t = t + 1;
            }
            proof {
                let c = cycle@;
                assert(c.last() == stack@.last());
                assert(stack@.last() == u);
                assert(c[0] == v);
                assert forall|i: int| 0 <= i < c.len() - 1 implies #[trigger] has_edge(g, c[i] as int, c[i + 1] as int) by {
                    assert(c[i] == stack@[k + i]);
                    assert(c[i + 1] == stack@[k + i + 1]);
                    assert(has_edge(g, stack@[k + i] as int, stack@[k + i + 1] as int));
                }
            }
            return Some(cycle);
        } else {
            assert(color@[v as int] == 2);
        }
        j = j + 1;
    }
    stack.pop();
    color.set(u, 2);
    proof {
        let t0 = time@;
        finish@ = finish@.update(u as int, t0);
        time@ = t0 + 1;
        assert(stack@ =~= s0);
        assert forall|x: int| 0 <= x < g.len() implies (#[trigger] color@[x] == 1 <==> stack@.contains(x as usize)) by {
            let sp = s0.push(u);
            if x != u {
                if stack@.contains(x as usize) {
                    let k = choose|k: int| 0 <= k < s0.len() && s0[k] == x as usize;
                    assert(sp[k] == x as usize);
                    assert(sp.contains(x as usize));
                } else if sp.contains(x as usize) {
                    let k = choose|k: int| 0 <= k < sp.len() && sp[k] == x as usize;
                    assert(k < s0.len());
                    assert(s0[k] == x as usize);
                }
            } else {
                if s0.contains(u) {
                    let k = choose|k: int| 0 <= k < s0.len() && s0[k] == u;
                    assert(sp[k] == sp[s0.len() as int]);
                }
            }
        }
        assert forall|x: int, jj: int|
            0 <= x < g.len() && color@[x] == 2 && 0 <= jj < g[x].len() implies color@[#[trigger] g[x][jj] as int] == 2
                && finish@[g[x][jj] as int] < finish@[x] by {
            if x == u {
                assert(g[x][jj] == succ@[jj]);
            }
        }
    }
    None
}

/// A directed cycle of the graph `adj`, if it has one.
///
/// Nodes are searched depth-first from each unvisited node in turn; the
/// cycle returned runs from the node that closed it, along the search path,
/// to the node whose edge reached back.
pub fn find_cycle(adj: &Vec<Vec<usize>>) -> (r: Option<Vec<usize>>)
    requires
        graph_wf(graph_of(adj)),
    ensures
        r is Some ==> is_cycle(graph_of(adj), r->0@),
        r is None ==> acyclic(graph_of(adj)),
{
    let ghost g = graph_of(adj);
    let n = adj.len();
    let mut color: Vec<u8> = Vec::new();
    let mut i: usize = 0;
    while i < n
        invariant
            i <= n,
            color@.len() == i,
            forall|x: int| 0 <= x < i ==> color@[x] == 0,
        decreases n - i,
    {
        color.push(0);
        i = i + 1;
    }
    let mut stack: Vec<usize> = Vec::new();
    let mut finish: Ghost<Seq<int>> = Ghost(Seq::new(n as nat, |x: int| 0));
    let mut time: Ghost<int> = Ghost(0);
    let mut i: usize = 0;
    while i < n
        invariant
            g == graph_of(adj),
            graph_wf(g),
            n == g.len(),
            i <= n,
            dfs_inv(g, color@, stack@, finish@, time@),
            stack@.len() == 0,
            forall|x: int| 0 <= x < i ==> #[trigger] color@[x] == 2,
        decreases n - i,
    {
        if color[i] == 0 {
            match dfs_visit(adj, i, &mut color, &mut stack, &mut finish, &mut time) {
                Some(c) => {
                    return Some(c);
                },
                None => {},
            }
        } else {
            assert(color@[i as int] != 1) by {
                if color@[i as int] == 1 {
                    assert(stack@.contains(i));
                }
            }
        }
        i = i + 1;
    }
    proof {
        lemma_ranked_acyclic(g, finish@);
    }
    None
}

proof fn lemma_ranked_acyclic(g: Graph, rank: Seq<int>)
    requires
        rank.len() == g.len(),
        forall|x: int, j: int| 0 <= x < g.len() && 0 <= j < g[x].len() ==> rank[#[trigger] g[x][j] as int] < rank[x],
    ensures
        acyclic(g),
{
    assert forall|c: Seq<usize>| !#[trigger] is_cycle(g, c) by {
        if is_cycle(g, c) {
            assert forall|k: int| 0 <= k < c.len() - 1 implies rank[c[k + 1] as int] < rank[#[trigger] c[k] as int] by {
                assert(has_edge(g, c[k] as int, c[k + 1] as int));
                let j = choose|j: int| 0 <= j < g[c[k] as int].len() && g[c[k] as int][j] == c[k + 1];
            }
            lemma_rank_along(g, rank, c, c.len() - 1);
            assert(has_edge(g, c.last() as int, c[0] as int));
            let j = choose|j: int| 0 <= j < g[c.last() as int].len() && g[c.last() as int][j] == c[0];
        }
    }
}

proof fn lemma_rank_along(g: Graph, rank: Seq<int>, c: Seq<usize>, k: int)
    requires
        0 <= k < c.len(),
        forall|t: int| 0 <= t < c.len() - 1 ==> rank[c[t + 1] as int] < rank[#[trigger] c[t] as int],
    ensures
        rank[c[k] as int] <= rank[c[0] as int] - k,
    decreases k,
{
    if k > 0 {
        lemma_rank_along(g, rank, c, k - 1);
    }
}

} // verus!
