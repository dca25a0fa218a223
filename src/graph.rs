//! Dependency graphs over nodes `0..n`: a node lists the nodes it depends
//! on. Tasks and packages are both held this way.
use vstd::prelude::*;
use vstd::set_lib::{lemma_int_range, lemma_len_subset, set_int_range};

verus! {

/// Edges point from a node to the nodes it depends on.
pub struct DepGraph {
    deps: Vec<Vec<usize>>,
}

/// Whether every edge of `g` ends at a node of `g`.
pub open spec fn edges_in_range(g: Seq<Seq<usize>>) -> bool {
    forall|i: int, k: int| 0 <= i < g.len() && 0 <= k < g[i].len() ==> #[trigger] g[i][k] < g.len()
}

/// Whether `a` depends directly on `b`.
pub open spec fn depends_on(g: Seq<Seq<usize>>, a: int, b: int) -> bool {
    0 <= a < g.len() && g[a].contains(b as usize) && 0 <= b
}

/// Whether `c` is a cycle: each node depends on the next, and the last on
/// the first.
pub open spec fn is_cycle(g: Seq<Seq<usize>>, c: Seq<usize>) -> bool {
    &&& c.len() > 0
    &&& forall|i: int| 0 <= i < c.len() ==> #[trigger] c[i] < g.len()
    &&& forall|i: int|
        0 <= i < c.len() ==> depends_on(g, #[trigger] c[i] as int, c[(i + 1) % (c.len() as int)] as int)
}

/// Whether the `k`-th dependency of `o[i]` comes before it in `o`.
pub open spec fn listed_before(g: Seq<Seq<usize>>, o: Seq<usize>, i: int, k: int) -> bool {
    exists|j: int| 0 <= j < i && o[j] == g[o[i] as int][k]
}

/// Whether `o` lists every node once, each after all it depends on.
pub open spec fn is_topo_order(g: Seq<Seq<usize>>, o: Seq<usize>) -> bool {
    &&& o.len() == g.len()
    &&& o.no_duplicates()
    &&& forall|i: int| 0 <= i < o.len() ==> #[trigger] o[i] < g.len()
    &&& forall|i: int, k: int|
        0 <= i < o.len() && 0 <= k < g[o[i] as int].len() ==> #[trigger] listed_before(g, o, i, k)
}

pub proof fn lemma_distinct_bound(s: Seq<usize>, n: nat)
    requires
        s.no_duplicates(),
        forall|i: int| 0 <= i < s.len() ==> #[trigger] s[i] < n,
    ensures
        s.len() <= n,
{
    let t = s.map_values(|x: usize| x as int);
    assert(t.no_duplicates()) by {
        assert forall|i: int, j: int| 0 <= i < t.len() && 0 <= j < t.len() && i != j implies t[i]
            != t[j] by {
            assert(s[i] != s[j]);
        }
    }
    t.unique_seq_to_set();
    assert(t.to_set().subset_of(set_int_range(0, n as int))) by {
        assert forall|x: int| t.to_set().contains(x) implies set_int_range(0, n as int).contains(x) by {
            let i = choose|i: int| 0 <= i < t.len() && t[i] == x;
            assert(s[i] < n);
        }
    }
    lemma_int_range(0, n as int);
    lemma_len_subset(t.to_set(), set_int_range(0, n as int));
}

pub proof fn lemma_cover_len(s: Seq<usize>, n: nat)
    requires
        n <= usize::MAX,
        forall|v: usize| v < n ==> #[trigger] s.contains(v),
    ensures
        s.len() >= n,
{
    let t = s.map_values(|x: usize| x as int);
    assert(set_int_range(0, n as int).subset_of(t.to_set())) by {
        assert forall|x: int| set_int_range(0, n as int).contains(x) implies t.to_set().contains(x) by {
            assert(s.contains(x as usize));
            let i = choose|i: int| 0 <= i < s.len() && s[i] == x as usize;
            assert(t[i] == x);
        }
    }
    lemma_int_range(0, n as int);
    t.lemma_cardinality_of_set();
    lemma_len_subset(set_int_range(0, n as int), t.to_set());
}

/// A ghost view of the graph: the dependencies of each node.
pub open spec fn graph_view(d: Seq<Vec<usize>>) -> Seq<Seq<usize>> {
    d.map_values(|v: Vec<usize>| v@)
}

impl View for DepGraph {
    type V = Seq<Seq<usize>>;

    closed spec fn view(&self) -> Seq<Seq<usize>> {
        graph_view(self.deps@)
    }
}

impl DepGraph {
    #[verifier::type_invariant]
    spec fn inv(self) -> bool {
        edges_in_range(graph_view(self.deps@))
    }

    /// A graph from the dependency lists of its nodes; `None` where an edge
    /// names no node.
    pub fn new(deps: Vec<Vec<usize>>) -> (r: Option<Self>)
        ensures
            match r {
                Some(g) => g@ == graph_view(deps@),
                None => !edges_in_range(graph_view(deps@)),
            },
    {
        let n = deps.len();
        let ghost gv = graph_view(deps@);
        let mut i: usize = 0;
        while i < n
            invariant
                i <= n == deps.len(),
                gv == graph_view(deps@),
                forall|a: int, k: int| 0 <= a < i && 0 <= k < gv[a].len() ==> #[trigger] gv[a][k] < n,
            decreases n - i,
        {
            let mut k: usize = 0;
            while k < deps[i].len()
                invariant
                    i < n == deps.len(),
                    k <= deps[i as int].len(),
                    gv == graph_view(deps@),
                    forall|a: int, q: int| 0 <= a < i && 0 <= q < gv[a].len() ==> #[trigger] gv[a][q] < n,
                    forall|q: int| 0 <= q < k ==> #[trigger] gv[i as int][q] < n,
                decreases deps[i as int].len() - k,
            {
                if deps[i][k] >= n {
                    assert(gv[i as int][k as int] >= n);
                    return None;
                }
                k += 1;
            }
            i += 1;
        }
        Some(DepGraph { deps })
    }

    /// Number of nodes.
    pub fn len(&self) -> (r: usize)
        ensures
            r == self@.len(),
            edges_in_range(self@),
    {
        proof {
            use_type_invariant(self);
        }
        self.deps.len()
    }

    /// The nodes that `node` depends on.
    pub fn deps_of(&self, node: usize) -> (r: &Vec<usize>)
        requires
            node < self@.len(),
        ensures
            r@ == self@[node as int],
    {
        &self.deps[node]
    }

    /// Whether every dependency of `v` is marked.
    fn all_deps_placed(&self, v: usize, placed: &Vec<bool>) -> (r: bool)
        requires
            v < self@.len(),
            placed.len() == self@.len(),
        ensures
            r == forall|k: int| 0 <= k < self@[v as int].len() ==> placed@[#[trigger] self@[v as int][k] as int],
    {
        proof {
            use_type_invariant(self);
        }
        let d = &self.deps[v];
        let mut k: usize = 0;
        while k < d.len()
            invariant
                d@ == self@[v as int],
                placed.len() == self@.len(),
                edges_in_range(self@),
                v < self@.len(),
                k <= d.len(),
                forall|q: int| 0 <= q < k ==> placed@[#[trigger] self@[v as int][q] as int],
            decreases d.len() - k,
        {
            if !placed[d[k]] {
                return false;
            }
            k += 1;
        }
        true
    }

    /// A cycle among unmarked nodes, where each unmarked node depends on
    /// another unmarked one.
    #[verifier::spinoff_prover]
    #[verifier::rlimit(100)]
    fn cycle_from(&self, placed: &Vec<bool>, start: usize) -> (r: Vec<usize>)
        requires
            placed.len() == self@.len(),
            start < self@.len(),
            !placed@[start as int],
            forall|v: int|
                0 <= v < self@.len() && !#[trigger] placed@[v] ==> exists|k: int|
                    0 <= k < self@[v].len() && !placed@[#[trigger] self@[v][k] as int],
        ensures
            is_cycle(self@, r@),
            r@.len() <= self@.len(),
    {
        proof {
            use_type_invariant(self);
        }
        let n = self.deps.len();
        let ghost g = self@;
        let mut at: Vec<usize> = Vec::new();
        while at.len() < n
            invariant
                at.len() <= n,
                forall|v: int| 0 <= v < at.len() ==> at@[v] == n,
            decreases n - at.len(),
        {
            at.push(n);
        }
        let mut path: Vec<usize> = Vec::new();
        path.push(start);
        at[start] = 0;
        loop
            invariant
                n == g.len(),
                g == self@,
                edges_in_range(g),
                placed.len() == n,
                at.len() == n,
                path.len() >= 1,
                forall|v: int|
                    0 <= v < n && !#[trigger] placed@[v] ==> exists|k: int|
                        0 <= k < g[v].len() && !placed@[#[trigger] g[v][k] as int],
                forall|i: int| 0 <= i < path.len() ==> #[trigger] path@[i] < n && !placed@[path@[i] as int],
                forall|i: int| 0 <= i < path.len() ==> at@[#[trigger] path@[i] as int] == i,
                forall|v: int| 0 <= v < n && at@[v] != n ==> at@[v] < path.len() && path@[at@[v] as int] == v,
                path@.no_duplicates(),
                forall|i: int|
                    0 <= i < path.len() - 1 ==> depends_on(g, #[trigger] path@[i] as int, path@[i + 1] as int),
            decreases n - path.len(),
        {
            proof {
                lemma_distinct_bound(path@, n as nat);
            }
            let cur = path[path.len() - 1];
            assert(!placed@[cur as int]);
            let d = &self.deps[cur];
            let mut k: usize = 0;
            while k < d.len() && placed[d[k]]
                invariant
                    d@ == g[cur as int],
                    k <= d.len(),
                    placed.len() == n,
                    cur < n,
                    edges_in_range(g),
                    n == g.len(),
                    forall|q: int| 0 <= q < k ==> placed@[#[trigger] g[cur as int][q] as int],
                decreases d.len() - k,
            {
                k += 1;
            }
            if k == d.len() {
                assert(false);
                return path;
            }
            let next = d[k];
            assert(g[cur as int].contains(next));
            if at[next] < n {
                let first = at[next];
                let mut c: Vec<usize> = Vec::new();
                let mut j = first;
                while j < path.len()
                    invariant
                        first <= j <= path.len(),
                        c@ == path@.subrange(first as int, j as int),
                    decreases path.len() - j,
                {
                    c.push(path[j]);
                    assert(c@ =~= path@.subrange(first as int, j + 1));
                    j += 1;
                }
                assert forall|i: int| 0 <= i < c.len() implies depends_on(
                    g,
                    #[trigger] c@[i] as int,
                    c@[(i + 1) % (c.len() as int)] as int,
                ) by {
                    if i < c.len() - 1 {
                        assert((i + 1) % (c.len() as int) == i + 1) by (nonlinear_arith)
                            requires
                                0 <= i + 1 < c.len(),
                        ;
                        assert(depends_on(g, path@[first + i] as int, path@[first + i + 1] as int));
                    } else {
                        assert((i + 1) % (c.len() as int) == 0) by (nonlinear_arith)
                            requires
                                i + 1 == c.len(),
                                c.len() > 0,
                        ;
                    }
                }
                proof {
                    lemma_distinct_bound(path@, n as nat);
                }
                return c;
            }
            assert(!path@.contains(next)) by {
                if path@.contains(next) {
                    let i = choose|i: int| 0 <= i < path.len() && path@[i] == next;
                    assert(at@[path@[i] as int] == i);
                }
            }
            at[next] = path.len();
            let ghost prev = path@;
            path.push(next);
            proof {
                assert(path@ == prev.push(next));
                assert(path@.no_duplicates()) by {
                    assert forall|a: int, b: int| 0 <= a < path.len() && 0 <= b < path.len() && a != b implies path@[a] != path@[b] by {
                        if a < prev.len() && b < prev.len() {
                            assert(prev[a] != prev[b]);
                        } else if a < prev.len() {
                            assert(prev.contains(prev[a]));
                        } else if b < prev.len() {
                            assert(prev.contains(prev[b]));
                        }
                    }
                }
                lemma_distinct_bound(path@, n as nat);
            }
        }
    }

    /// An order that lists each node after everything it depends on, or a
    /// cycle that shows there is none.
    pub fn topological_order(&self) -> (r: Result<Vec<usize>, Vec<usize>>)
        ensures
            match r {
                Ok(o) => is_topo_order(self@, o@),
                Err(c) => is_cycle(self@, c@) && c@.len() <= self@.len(),
            },
    {
        proof {
            use_type_invariant(self);
        }
        let n = self.deps.len();
        let ghost g = self@;
        let mut placed: Vec<bool> = Vec::new();
        while placed.len() < n
            invariant
                placed.len() <= n,
                forall|v: int| 0 <= v < placed.len() ==> !placed@[v],
            decreases n - placed.len(),
        {
            placed.push(false);
        }
        let mut order: Vec<usize> = Vec::new();
        loop
            invariant
                n == g.len(),
                g == self@,
                edges_in_range(g),
                placed.len() == n,
                forall|v: int| 0 <= v < n ==> (#[trigger] placed@[v] <==> order@.contains(v as usize)),
                order@.no_duplicates(),
                forall|i: int| 0 <= i < order.len() ==> #[trigger] order@[i] < n,
                forall|i: int, k: int|
                    0 <= i < order.len() && 0 <= k < g[order@[i] as int].len() ==> #[trigger] listed_before(
                        g,
                        order@,
                        i,
                        k,
                    ),
            decreases n - order.len(),
        {
            proof {
                lemma_distinct_bound(order@, n as nat);
            }
            let mut i: usize = 0;
            let mut found = false;
            while i < n && !found
                invariant
                    i <= n,
                    n == g.len(),
                    g == self@,
                    placed.len() == n,
                    found ==> i < n && !placed@[i as int] && forall|k: int|
                        0 <= k < g[i as int].len() ==> placed@[#[trigger] g[i as int][k] as int],
                    forall|v: int|
                        0 <= v < i ==> #[trigger] placed@[v] || exists|k: int|
                            0 <= k < g[v].len() && !placed@[#[trigger] g[v][k] as int],
                decreases n - i + (if found { 0int } else { 1int }),
            {
                if !placed[i] && self.all_deps_placed(i, &placed) {
                    found = true;
                } else {
                    i += 1;
                }
            }
            if !found {
                let mut u: usize = 0;
                while u < n && placed[u]
                    invariant
                        u <= n,
                        placed.len() == n,
                        forall|v: int| 0 <= v < u ==> #[trigger] placed@[v],
                    decreases n - u,
                {
                    u += 1;
                }
                if u == n {
                    proof {
                        assert forall|v: usize| v < n implies #[trigger] order@.contains(v) by {
                            assert(placed@[v as int]);
                        }
                        lemma_cover_len(order@, n as nat);
                    }
                    return Ok(order);
                }
                return Err(self.cycle_from(&placed, u));
            }
            let ghost o0 = order@;
            let ghost prev = placed@;
            assert(!order@.contains(i));
            placed[i] = true;
            order.push(i);
            proof {
                assert forall|v: int| 0 <= v < n implies (#[trigger] placed@[v] <==> order@.contains(
                    v as usize,
                )) by {
                    if v == i {
                        assert(order@[o0.len() as int] == i);
                    } else {
                        assert(prev[v] == placed@[v]);
                        if o0.contains(v as usize) {
                            let j = choose|j: int| 0 <= j < o0.len() && o0[j] == v as usize;
                            assert(order@[j] == v as usize);
                        }
                        if order@.contains(v as usize) {
                            let j = choose|j: int| 0 <= j < order.len() && order@[j] == v as usize;
                            assert(j < o0.len());
                            assert(o0[j] == v as usize);
                        }
                    }
                }
                assert(order@.no_duplicates());
                lemma_distinct_bound(order@, n as nat);
                assert forall|a: int, k: int|
                    0 <= a < order.len() && 0 <= k < g[order@[a] as int].len() implies #[trigger] listed_before(
                        g,
                        order@,
                        a,
                        k,
                    ) by {
                    if a < o0.len() {
                        assert(listed_before(g, o0, a, k));
                        let j = choose|j: int| 0 <= j < a && o0[j] == g[o0[a] as int][k];
                        assert(order@[j] == g[order@[a] as int][k]);
                    } else {
                        let d = g[i as int][k];
                        assert(prev[d as int]);
                        assert(o0.contains(d));
                        let j = choose|j: int| 0 <= j < o0.len() && o0[j] == d;
                        assert(order@[j] == d);
                    }
                }
            }
        }
    }
}

pub proof fn lemma_perm_contains(o: Seq<usize>, n: nat)
    requires
        o.len() == n,
        o.no_duplicates(),
        forall|i: int| 0 <= i < o.len() ==> #[trigger] o[i] < n,
    ensures
        forall|v: usize| v < n ==> #[trigger] o.contains(v),
{
    assert forall|v: usize| v < n implies #[trigger] o.contains(v) by {
        if !o.contains(v) {
            let t = o.map_values(|x: usize| x as int);
            assert(t.no_duplicates()) by {
                assert forall|i: int, j: int| 0 <= i < t.len() && 0 <= j < t.len() && i != j implies t[i]
                    != t[j] by {
                    assert(o[i] != o[j]);
                }
            }
            t.unique_seq_to_set();
            let r = set_int_range(0, n as int).remove(v as int);
            assert(t.to_set().subset_of(r)) by {
                assert forall|x: int| t.to_set().contains(x) implies r.contains(x) by {
                    let i = choose|i: int| 0 <= i < t.len() && t[i] == x;
                    assert(o[i] < n);
                    assert(o[i] != v);
                }
            }
            lemma_int_range(0, n as int);
            assert(set_int_range(0, n as int).contains(v as int));
            lemma_len_subset(t.to_set(), r);
        }
    }
}

/// A graph with a cycle has no topological order; so `topological_order`
/// rejects it, and the cycle it returns names every node on a cycle.
pub proof fn lemma_cycle_has_no_order(g: Seq<Seq<usize>>, c: Seq<usize>, o: Seq<usize>)
    requires
        is_cycle(g, c),
    ensures
        !is_topo_order(g, o),
{
    if is_topo_order(g, o) {
        let n = g.len();
        lemma_perm_contains(o, n);
        let len = c.len() as int;
        // The position of each cycle node in the order.
        let pos = |m: int| choose|j: int| 0 <= j < o.len() && o[j] == c[m];
        assert forall|m: int| 0 <= m < len implies 0 <= #[trigger] pos(m) < o.len() && o[pos(m)]
            == c[m] by {
            assert(o.contains(c[m]));
        }
        // Each node of the cycle comes after the next one.
        assert forall|m: int| 0 <= m < len implies #[trigger] pos((m + 1) % len) < pos(m) by {
            let nx = (m + 1) % len;
            assert(0 <= nx < len) by (nonlinear_arith)
                requires
                    nx == (m + 1) % len,
                    len > 0,
            ;
            assert(depends_on(g, c[m] as int, c[nx] as int));
            let row = g[c[m] as int];
            let k = choose|k: int| 0 <= k < row.len() && row[k] == c[nx];
            assert(listed_before(g, o, pos(m), k));
            let j = choose|j: int| 0 <= j < pos(m) && #[trigger] o[j] == g[o[pos(m)] as int][k];
            assert(o[j] == c[nx]);
            if j != pos(nx) {
                assert(o[j] == o[pos(nx)]);
            }
        }
        // Going round the cycle lowers the position at every step.
        assert forall|m: int| 0 <= m < len implies #[trigger] pos(m) <= pos(0) - m by {
            lemma_chain(pos, len, m);
        }
        assert((len - 1 + 1) % len == 0) by (nonlinear_arith)
            requires
                len > 0,
        ;
        assert(pos(0) < pos(len - 1));
    }
}

proof fn lemma_chain(pos: spec_fn(int) -> int, len: int, m: int)
    requires
        0 <= m < len,
        forall|q: int| 0 <= q < len ==> #[trigger] pos((q + 1) % len) < pos(q),
    ensures
        pos(m) <= pos(0) - m,
    decreases m,
{
    if m > 0 {
        lemma_chain(pos, len, m - 1);
        assert((m - 1 + 1) % len == m) by (nonlinear_arith)
            requires
                0 < m < len,
        ;
        assert(pos(((m - 1) + 1) % len) < pos(m - 1));
    }
}

/// Whether `d` gives each node its depth: 0 without dependencies, else one
/// more than the deepest of them.
pub open spec fn is_depth(g: Seq<Seq<usize>>, d: Seq<usize>) -> bool {
    &&& d.len() == g.len()
    &&& forall|i: int, k: int|
        0 <= i < g.len() && 0 <= k < g[i].len() ==> d[#[trigger] g[i][k] as int] < d[i]
    &&& forall|i: int| 0 <= i < g.len() && g[i].len() == 0 ==> #[trigger] d[i] == 0
    &&& forall|i: int| 0 <= i < g.len() && g[i].len() > 0 ==> #[trigger] deepest_dep(g, d, i)
    &&& forall|i: int| 0 <= i < d.len() ==> #[trigger] d[i] < d.len()
}

/// Whether node `i` is one deeper than one of its dependencies.
pub open spec fn deepest_dep(g: Seq<Seq<usize>>, d: Seq<usize>, i: int) -> bool {
    exists|k: int| 0 <= k < g[i].len() && d[i] == d[g[i][k] as int] + 1
}

/// Whether `w` groups the nodes by depth: wave `x` holds exactly the nodes
/// of depth `x`, each once.
pub open spec fn is_waves(d: Seq<usize>, w: Seq<Seq<usize>>) -> bool {
    &&& forall|x: int, j: int| 0 <= x < w.len() && 0 <= j < w[x].len() ==> #[trigger] w[x][j] < d.len() && d[w[x][j] as int] == x
    &&& forall|v: int| 0 <= v < d.len() ==> d[v] < w.len() && #[trigger] w[d[v] as int].contains(v as usize)
    &&& forall|x: int| 0 <= x < w.len() ==> #[trigger] w[x].no_duplicates()
}

impl DepGraph {
    /// The depth of each node, or a cycle where there is none.
    pub fn depths(&self) -> (r: Result<Vec<usize>, Vec<usize>>)
        ensures
            match r {
                Ok(d) => is_depth(self@, d@),
                Err(c) => is_cycle(self@, c@),
            },
    {
        let order = match self.hashing_order() {
            Ok(o) => o,
            Err(c) => return Err(c),
        };
        let n = self.len();
        let ghost g = self@;
        proof {
            lemma_perm_contains(order@, n as nat);
        }
        let mut d: Vec<usize> = Vec::new();
        let mut done: Vec<bool> = Vec::new();
        while d.len() < n
            invariant
                d.len() == done.len() <= n,
                forall|v: int| 0 <= v < done.len() ==> !done@[v],
            decreases n - d.len(),
        {
            d.push(0);
            done.push(false);
        }
        let mut idx: usize = 0;
        while idx < n
            invariant
                n == g.len(),
                g == self@,
                edges_in_range(g),
                is_topo_order(g, order@),
                idx <= n,
                d.len() == n,
                done.len() == n,
                forall|v: int| 0 <= v < n ==> (#[trigger] done@[v] <==> exists|j: int| 0 <= j < idx && order@[j] == v),
                forall|v: int| 0 <= v < n && done@[v] ==> #[trigger] d@[v] < idx,
                forall|i: int, k: int|
                    0 <= i < n && done@[i] && 0 <= k < g[i].len() ==> done@[#[trigger] g[i][k] as int] && d@[g[i][k] as int] < d@[i],
                forall|i: int| 0 <= i < n && done@[i] && g[i].len() == 0 ==> #[trigger] d@[i] == 0,
                forall|i: int|
                    0 <= i < n && done@[i] && g[i].len() > 0 ==> #[trigger] deepest_dep(g, d@, i),
            decreases n - idx,
        {
            let v = order[idx];
            assert(!done@[v as int]) by {
                if done@[v as int] {
                    let j = choose|j: int| 0 <= j < idx && order@[j] == v;
                    assert(order@[j] == order@[idx as int]);
                }
            }
            let deps = self.deps_of(v);
            let mut best: usize = 0;
            let mut k: usize = 0;
            while k < deps.len()
                invariant
                    n == g.len(),
                    g == self@,
                    edges_in_range(g),
                    is_topo_order(g, order@),
                    v == order@[idx as int],
                    idx < n,
                    deps@ == g[v as int],
                    k <= deps.len(),
                    d.len() == n,
                    done.len() == n,
                    forall|w: int| 0 <= w < n ==> (#[trigger] done@[w] <==> exists|j: int| 0 <= j < idx && order@[j] == w),
                    forall|w: int| 0 <= w < n && done@[w] ==> #[trigger] d@[w] < idx,
                    best <= idx,
                    forall|q: int| 0 <= q < k ==> done@[#[trigger] g[v as int][q] as int] && d@[g[v as int][q] as int] < best,
                    k > 0 ==> exists|q: int| 0 <= q < k && best == d@[#[trigger] g[v as int][q] as int] + 1,
                    k == 0 ==> best == 0,
                decreases deps.len() - k,
            {
                let u = deps[k];
                assert(listed_before(g, order@, idx as int, k as int));
                proof {
                    let j = choose|j: int| 0 <= j < idx && order@[j] == g[order@[idx as int] as int][k as int];
                    assert(done@[u as int]);
                }
                if d[u] + 1 > best {
                    best = d[u] + 1;
                }
                k += 1;
            }
            let ghost d0 = d@;
            let ghost done0 = done@;
            d[v] = best;
            done[v] = true;
            proof {
                assert forall|i: int|
                    0 <= i < n && done@[i] && g[i].len() > 0 implies #[trigger] deepest_dep(g, d@, i) by {
                    if i == v as int {
                        let q = choose|q: int| 0 <= q < k && best == d0[g[v as int][q] as int] + 1;
                        assert(done0[g[v as int][q] as int]);
                        assert(d@[g[i][q] as int] == d0[g[i][q] as int]);
                    } else {
                        assert(deepest_dep(g, d0, i));
                        let q = choose|q: int| 0 <= q < g[i].len() && d0[i] == d0[g[i][q] as int] + 1;
                        assert(done0[g[i][q] as int]);
                        assert(d@[g[i][q] as int] == d0[g[i][q] as int]);
                    }
                }
                assert forall|w: int| 0 <= w < n implies (#[trigger] done@[w] <==> exists|j: int| 0 <= j < idx + 1 && order@[j] == w) by {
                    if w == v as int {
                        assert(order@[idx as int] == w);
                    }
                }
            }
            idx += 1;
        }
        proof {
            assert forall|v: int| 0 <= v < n implies #[trigger] done@[v] by {
                assert(order@.contains(v as usize));
                let j = choose|j: int| 0 <= j < order.len() && order@[j] == v as usize;
                assert(order@[j] == v);
            }
        }
        Ok(d)
    }

    /// The nodes grouped by depth: every node comes in a later wave than
    /// all it depends on, so each wave can be handled once the earlier ones
    /// are done.
    pub fn waves(&self) -> (r: Result<(Vec<usize>, Vec<Vec<usize>>), Vec<usize>>)
        ensures
            match r {
                Ok((d, w)) => is_depth(self@, d@) && is_waves(d@, w@.map_values(|x: Vec<usize>| x@)),
                Err(c) => is_cycle(self@, c@),
            },
    {
        let d = match self.depths() {
            Ok(d) => d,
            Err(c) => return Err(c),
        };
        let n = d.len();
        let mut top: usize = 0;
        let mut i: usize = 0;
        while i < n
            invariant
                i <= n == d.len(),
                forall|v: int| 0 <= v < i ==> #[trigger] d@[v] <= top,
                forall|v: int| 0 <= v < n ==> #[trigger] d@[v] < n,
                i > 0 ==> top < n,
                i == 0 ==> top == 0,
            decreases n - i,
        {
            if d[i] > top {
                top = d[i];
            }
            i += 1;
        }
        let mut w: Vec<Vec<usize>> = Vec::new();
        while w.len() <= top
            invariant
                w.len() <= top + 1,
                forall|x: int| 0 <= x < w.len() ==> (#[trigger] w@[x])@.len() == 0,
            decreases top + 1 - w.len(),
        {
            w.push(Vec::new());
        }
        let mut v: usize = 0;
        while v < n
            invariant
                v <= n == d.len(),
                w.len() == top + 1,
                forall|u: int| 0 <= u < n ==> #[trigger] d@[u] <= top,
                forall|x: int, j: int| 0 <= x < w.len() && 0 <= j < w@[x]@.len() ==> #[trigger] w@[x]@[j] < v && d@[w@[x]@[j] as int] == x,
                forall|u: int| 0 <= u < v ==> #[trigger] w@[d@[u] as int]@.contains(u as usize),
                forall|x: int| 0 <= x < w.len() ==> #[trigger] w@[x]@.no_duplicates(),
            decreases n - v,
        {
            let x = d[v];
            let ghost w0 = w@;
            assert(!w0[x as int]@.contains(v)) by {
                if w0[x as int]@.contains(v) {
                    let j = choose|j: int| 0 <= j < w0[x as int]@.len() && w0[x as int]@[j] == v;
                    assert(w0[x as int]@[j] < v);
                }
            }
            w[x].push(v);
            assert(w@.len() == w0.len());
            assert(w@[x as int]@ == w0[x as int]@.push(v));
            assert(forall|y: int| 0 <= y < w.len() && y != x ==> w@[y] == w0[y]);
            assert(w@[x as int]@.no_duplicates()) by {
                let r0 = w0[x as int]@;
                let r1 = w@[x as int]@;
                assert(w0[x as int]@.no_duplicates());
                assert forall|a: int, b: int| 0 <= a < r1.len() && 0 <= b < r1.len() && a != b implies r1[a] != r1[b] by {
                    if a < r0.len() && b < r0.len() {
                        assert(r0[a] != r0[b]);
                    } else if a < r0.len() {
                        assert(r0[a] < v);
                    } else if b < r0.len() {
                        assert(r0[b] < v);
                    }
                }
            }
            proof {
                assert forall|u: int| 0 <= u < v + 1 implies #[trigger] w@[d@[u] as int]@.contains(u as usize) by {
                    if u < v {
                        assert(w0[d@[u] as int]@.contains(u as usize));
                        let j = choose|j: int| 0 <= j < w0[d@[u] as int]@.len() && w0[d@[u] as int]@[j] == u as usize;
                        assert(w@[d@[u] as int]@[j] == u as usize);
                    } else {
                        assert(w@[x as int]@[w0[x as int]@.len() as int] == v);
                    }
                }
            }
            v += 1;
        }
        assert(w@.map_values(|x: Vec<usize>| x@).len() == w.len());
        Ok((d, w))
    }

    /// The seeds and every node that depends on one of them, directly or
    /// through others: the least set that holds the seeds and every node
    /// with a dependency in the set.
    pub fn dependents_closure(&self, seeds: &Vec<usize>) -> (r: Vec<bool>)
        ensures
            r.len() == self@.len(),
            forall|i: int| 0 <= i < seeds.len() && seeds@[i] < self@.len() ==> r@[#[trigger] seeds@[i] as int],
            forall|i: int, k: int|
                0 <= i < self@.len() && 0 <= k < self@[i].len() && r@[#[trigger] self@[i][k] as int] ==> r@[i],
            forall|s: Seq<bool>|
                #[trigger] closed_over(self@, seeds@, s) ==> forall|i: int| 0 <= i < r.len() && r@[i] ==> s[i],
    {
        let n = self.len();
        let ghost g = self@;
        let mut r: Vec<bool> = Vec::new();
        while r.len() < n
            invariant
                r.len() <= n,
                forall|v: int| 0 <= v < r.len() ==> !r@[v],
            decreases n - r.len(),
        {
            r.push(false);
        }
        let mut i: usize = 0;
        while i < seeds.len()
            invariant
                n == g.len(),
                r.len() == n,
                i <= seeds.len(),
                forall|q: int| 0 <= q < i && seeds@[q] < n ==> r@[#[trigger] seeds@[q] as int],
                forall|s: Seq<bool>|
                    #[trigger] closed_over(g, seeds@, s) ==> forall|v: int| 0 <= v < n && r@[v] ==> s[v],
            decreases seeds.len() - i,
        {
            if seeds[i] < n {
                r[seeds[i]] = true;
                proof {
                    assert forall|s: Seq<bool>| #[trigger] closed_over(g, seeds@, s) implies forall|v: int|
                        0 <= v < n && r@[v] ==> s[v] by {
                        assert(s[seeds@[i as int] as int]);
                    }
                }
            }
            i += 1;
        }
        // Repeat passes until nothing changes; each pass that changes
        // something adds at least one node.
        let ghost mut count: nat = marked(r@, n as int);
        proof {
            lemma_marked_bound(r@, n as int);
        }
        let mut changed = true;
        while changed
            invariant
                n == g.len(),
                g == self@,
                edges_in_range(g),
                r.len() == n,
                forall|q: int| 0 <= q < seeds.len() && seeds@[q] < n ==> r@[#[trigger] seeds@[q] as int],
                forall|s: Seq<bool>|
                    #[trigger] closed_over(g, seeds@, s) ==> forall|v: int| 0 <= v < n && r@[v] ==> s[v],
                count <= n,
                count == marked(r@, n as int),
                !changed ==> forall|a: int, k: int|
                    0 <= a < n && 0 <= k < g[a].len() && r@[#[trigger] g[a][k] as int] ==> r@[a],
            decreases n - count + (if changed { 1int } else { 0int }),
        {
            changed = false;
            let ghost before = count;
            let mut a: usize = 0;
            while a < n
                invariant
                    n == g.len(),
                    g == self@,
                    edges_in_range(g),
                    r.len() == n,
                    a <= n,
                    forall|q: int| 0 <= q < seeds.len() && seeds@[q] < n ==> r@[#[trigger] seeds@[q] as int],
                    forall|s: Seq<bool>|
                        #[trigger] closed_over(g, seeds@, s) ==> forall|v: int| 0 <= v < n && r@[v] ==> s[v],
                    count == marked(r@, n as int),
                    count <= n,
                    changed ==> count > before,
                    !changed ==> count == before,
                    !changed ==> forall|b: int, k: int|
                        0 <= b < a && 0 <= k < g[b].len() && r@[#[trigger] g[b][k] as int] ==> r@[b],
                decreases n - a,
            {
                if !r[a] {
                    let deps = self.deps_of(a);
                    let mut k: usize = 0;
                    let mut hit = false;
                    while k < deps.len() && !hit
                        invariant
                            deps@ == g[a as int],
                            k <= deps.len(),
                            r.len() == n,
                            edges_in_range(g),
                            n == g.len(),
                            a < n,
                            hit ==> k < deps.len() && r@[g[a as int][k as int] as int],
                            !hit ==> forall|q: int| 0 <= q < k ==> !r@[#[trigger] g[a as int][q] as int],
                        decreases deps.len() - k + (if hit { 0int } else { 1int }),
                    {
                        if r[deps[k]] {
                            hit = true;
                        } else {
                            k += 1;
                        }
                    }
                    if hit {
                        let ghost r0 = r@;
                        r[a] = true;
                        proof {
                            lemma_marked_set(r0, a as int, n as int);
                            assert forall|s: Seq<bool>| #[trigger] closed_over(g, seeds@, s) implies forall|v: int|
                                0 <= v < n && r@[v] ==> s[v] by {
                                assert(s[g[a as int][k as int] as int]);
                            }
                            lemma_marked_bound(r@, n as int);
                            count = count + 1;
                        }
                        changed = true;
                    }
                }
                a += 1;
            }
        }
        r
    }
}

/// Whether `s` holds the seeds and every node with a dependency in `s`.
pub open spec fn closed_over(g: Seq<Seq<usize>>, seeds: Seq<usize>, s: Seq<bool>) -> bool {
    &&& s.len() == g.len()
    &&& forall|i: int| 0 <= i < seeds.len() && seeds[i] < g.len() ==> s[#[trigger] seeds[i] as int]
    &&& forall|i: int, k: int|
        0 <= i < g.len() && 0 <= k < g[i].len() && s[#[trigger] g[i][k] as int] ==> s[i]
}

/// Number of marked positions among the first `m`.
pub open spec fn marked(r: Seq<bool>, m: int) -> nat
    decreases m,
{
    if m <= 0 {
        0
    } else {
        marked(r, m - 1) + if r[m - 1] {
            1nat
        } else {
            0nat
        }
    }
}

proof fn lemma_marked_set(r: Seq<bool>, a: int, m: int)
    requires
        0 <= a < r.len(),
        !r[a],
        0 <= m <= r.len(),
    ensures
        marked(r.update(a, true), m) == marked(r, m) + if a < m {
            1nat
        } else {
            0nat
        },
    decreases m,
{
    if m > 0 {
        lemma_marked_set(r, a, m - 1);
    }
}

proof fn lemma_marked_bound(r: Seq<bool>, m: int)
    requires
        0 <= m,
    ensures
        marked(r, m) <= m,
    decreases m,
{
    if m > 0 {
        lemma_marked_bound(r, m - 1);
    }
}

/// Whether `p` is a chain of dependencies: each node depends on the next.
pub open spec fn is_dep_path(g: Seq<Seq<usize>>, p: Seq<usize>) -> bool {
    &&& forall|j: int| 0 <= j < p.len() ==> #[trigger] p[j] < g.len()
    &&& forall|j: int| 0 <= j < p.len() - 1 ==> depends_on(g, #[trigger] p[j] as int, p[j + 1] as int)
}

/// A set closed over dependents holds every node that reaches one of its
/// members through a chain of dependencies: whatever depends, however
/// indirectly, on a selected node is selected too.
pub proof fn lemma_closed_holds_dependents(g: Seq<Seq<usize>>, seeds: Seq<usize>, s: Seq<bool>, p: Seq<usize>)
    requires
        closed_over(g, seeds, s),
        is_dep_path(g, p),
        p.len() > 0,
        s[p.last() as int],
    ensures
        forall|j: int| 0 <= j < p.len() ==> s[#[trigger] p[j] as int],
    decreases p.len(),
{
    if p.len() > 1 {
        let q = p.drop_first();
        assert(is_dep_path(g, q)) by {
            assert forall|j: int| 0 <= j < q.len() - 1 implies depends_on(g, #[trigger] q[j] as int, q[j + 1] as int) by {
                assert(depends_on(g, p[j + 1] as int, p[j + 2] as int));
            }
        }
        assert(q.last() == p.last());
        lemma_closed_holds_dependents(g, seeds, s, q);
        assert(depends_on(g, p[0] as int, p[1] as int));
        let row = g[p[0] as int];
        let k = choose|k: int| 0 <= k < row.len() && row[k] == p[1];
        assert(s[q[0] as int]);
        assert(s[g[p[0] as int][k] as int]);
        assert forall|j: int| 0 <= j < p.len() implies s[#[trigger] p[j] as int] by {
            if j > 0 {
                assert(p[j] == q[j - 1]);
            }
        }
    }
}

/// Whether `w` is a chain of dependencies that starts at `v`.
pub open spec fn walk_from(g: Seq<Seq<usize>>, v: int, w: Seq<usize>) -> bool {
    &&& w.len() >= 1
    &&& w[0] == v
    &&& forall|j: int| 0 <= j < w.len() ==> #[trigger] w[j] < g.len()
    &&& forall|j: int| 0 <= j < w.len() - 1 ==> depends_on(g, #[trigger] w[j] as int, w[j + 1] as int)
}

proof fn lemma_cycle_walk(g: Seq<Seq<usize>>, c: Seq<usize>)
    requires
        is_cycle(g, c),
    ensures
        walk_from(g, c[0] as int, c.push(c[0])),
{
    let w = c.push(c[0]);
    assert forall|j: int| 0 <= j < w.len() - 1 implies depends_on(g, #[trigger] w[j] as int, w[j + 1] as int) by {
        assert(w[j] == c[j]);
        assert(depends_on(g, c[j] as int, c[(j + 1) % (c.len() as int)] as int));
        if j + 1 < c.len() {
            assert((j + 1) % (c.len() as int) == j + 1) by (nonlinear_arith)
                requires
                    0 <= j + 1 < c.len(),
            ;
        } else {
            assert((j + 1) % (c.len() as int) == 0) by (nonlinear_arith)
                requires
                    j + 1 == c.len(),
                    c.len() > 0,
            ;
        }
    }
    assert forall|j: int| 0 <= j < w.len() implies #[trigger] w[j] < g.len() by {
        if j < c.len() {
            assert(w[j] == c[j]);
        }
    }
}

/// The layers of a search from `v`: layer `s` marks the nodes that a chain
/// of `s` dependencies from `v` reaches, each with the node before it.
pub open spec fn layers_ok(
    g: Seq<Seq<usize>>,
    v: int,
    ly: Seq<Seq<bool>>,
    pd: Seq<Seq<usize>>,
) -> bool {
    &&& ly.len() >= 1
    &&& pd.len() + 1 == ly.len()
    &&& forall|s: int| 0 <= s < ly.len() ==> #[trigger] ly[s].len() == g.len()
    &&& forall|s: int| 0 <= s < pd.len() ==> #[trigger] pd[s].len() == g.len()
    &&& forall|u: int| 0 <= u < g.len() ==> (#[trigger] ly[0][u] <==> u == v)
    &&& forall|s: int, u: int|
        1 <= s < ly.len() && 0 <= u < g.len() && #[trigger] ly[s][u] ==> {
            &&& pd[s - 1][u] < g.len()
            &&& ly[s - 1][pd[s - 1][u] as int]
            &&& depends_on(g, pd[s - 1][u] as int, u)
        }
    &&& forall|w: Seq<usize>|
        #[trigger] walk_from(g, v, w) && w.len() <= ly.len() ==> ly[w.len() - 1][w.last() as int]
}

pub open spec fn nested(x: Seq<Vec<bool>>) -> Seq<Seq<bool>> {
    x.map_values(|r: Vec<bool>| r@)
}

pub open spec fn nested_idx(x: Seq<Vec<usize>>) -> Seq<Seq<usize>> {
    x.map_values(|r: Vec<usize>| r@)
}

impl DepGraph {
    /// The shortest cycle through `v` of at most `limit` nodes.
    fn shortest_cycle_through(&self, v: usize, limit: usize) -> (r: Option<Vec<usize>>)
        requires
            v < self@.len(),
        ensures
            match r {
                Some(c) => is_cycle(self@, c@) && c@[0] == v && c@.len() <= limit && forall|c2: Seq<usize>|
                    #[trigger] is_cycle(self@, c2) && c2[0] == v ==> c2.len() >= c@.len(),
                None => forall|c2: Seq<usize>|
                    #[trigger] is_cycle(self@, c2) && c2[0] == v ==> c2.len() > limit,
            },
    {
        proof {
            use_type_invariant(self);
        }
        let n = self.deps.len();
        let ghost g = self@;
        let mut first: Vec<bool> = Vec::new();
        let mut u: usize = 0;
        while u < n
            invariant
                u <= n,
                first.len() == u,
                forall|x: int| 0 <= x < u ==> (first@[x] <==> x == v),
            decreases n - u,
        {
            first.push(u == v);
            u += 1;
        }
        let mut ly: Vec<Vec<bool>> = Vec::new();
        ly.push(first);
        let mut pd: Vec<Vec<usize>> = Vec::new();
        proof {
            assert forall|w: Seq<usize>| #[trigger] walk_from(g, v as int, w) && w.len() <= ly@.len() implies nested(ly@)[w.len() - 1][w.last() as int] by {
                assert(w.len() == 1);
            }
        }
        let mut t: usize = 0;
        while t < limit
            invariant
                n == g.len(),
                g == self@,
                edges_in_range(g),
                v < n,
                t <= limit,
                ly.len() == t + 1,
                layers_ok(g, v as int, nested(ly@), nested_idx(pd@)),
                forall|s: int| 1 <= s <= t ==> !nested(ly@)[s][v as int],
            decreases limit - t,
        {
            let mut next: Vec<bool> = Vec::new();
            let mut pred: Vec<usize> = Vec::new();
            let mut x: usize = 0;
            while x < n
                invariant
                    x <= n,
                    next.len() == x,
                    pred.len() == x,
                    forall|y: int| 0 <= y < x ==> !next@[y],
                decreases n - x,
            {
                next.push(false);
                pred.push(n);
                x += 1;
            }
            let ghost cur = nested(ly@)[t as int];
            let mut a: usize = 0;
            while a < n
                invariant
                    n == g.len(),
                    g == self@,
                    edges_in_range(g),
                    a <= n,
                    next.len() == n,
                    pred.len() == n,
                    ly.len() == t + 1,
                    cur == ly@[t as int]@,
                    cur.len() == n,
                    forall|y: int| 0 <= y < n && #[trigger] next@[y] ==> pred@[y] < n && cur[pred@[y] as int]
                        && depends_on(g, pred@[y] as int, y),
                    forall|b: int, k: int|
                        0 <= b < a && cur[b] && 0 <= k < g[b].len() ==> next@[#[trigger] g[b][k] as int],
                decreases n - a,
            {
                if ly[t][a] {
                    let d = self.deps_of(a);
                    let mut k: usize = 0;
                    while k < d.len()
                        invariant
                            n == g.len(),
                            edges_in_range(g),
                            d@ == g[a as int],
                            a < n,
                            cur[a as int],
                            k <= d.len(),
                            next.len() == n,
                            pred.len() == n,
                            forall|y: int| 0 <= y < n && #[trigger] next@[y] ==> pred@[y] < n && cur[pred@[y] as int]
                                && depends_on(g, pred@[y] as int, y),
                            forall|b: int, q: int|
                                0 <= b < a && cur[b] && 0 <= q < g[b].len() ==> next@[#[trigger] g[b][q] as int],
                            forall|q: int| 0 <= q < k ==> next@[#[trigger] g[a as int][q] as int],
                        decreases d.len() - k,
                    {
                        let y = d[k];
                        if !next[y] {
                            next[y] = true;
                            pred[y] = a;
                            assert(g[a as int].contains(y));
                        }
                        k += 1;
                    }
                }
                a += 1;
            }
            let ghost ly0 = nested(ly@);
            let ghost pd0 = nested_idx(pd@);
            let hit = next[v];
            ly.push(next);
            pd.push(pred);
            proof {
                let layer_rows = nested(ly@);
                let pred_rows = nested_idx(pd@);
                assert(layer_rows == ly0.push(next@));
                assert(pred_rows == pd0.push(pred@));
                assert forall|w: Seq<usize>| #[trigger] walk_from(g, v as int, w) && w.len() <= layer_rows.len() implies layer_rows[w.len() - 1][w.last() as int] by {
                    if w.len() <= ly0.len() {
                        assert(walk_from(g, v as int, w));
                    } else {
                        let p = w.drop_last();
                        assert(walk_from(g, v as int, p));
                        assert(ly0[p.len() - 1][p.last() as int]);
                        let b = p.last();
                        assert(depends_on(g, w[w.len() - 2] as int, w[w.len() - 1] as int));
                        let k = choose|k: int| 0 <= k < g[b as int].len() && g[b as int][k] == w.last();
                        assert(next@[g[b as int][k] as int]);
                    }
                }
            }
            if hit {
                let c = self.walk_back(&ly, &pd, v, t + 1);
                proof {
                    assert forall|c2: Seq<usize>| #[trigger] is_cycle(self@, c2) && c2[0] == v implies c2.len() >= c@.len() by {
                        lemma_cycle_walk(g, c2);
                        let w = c2.push(c2[0]);
                        if c2.len() < c@.len() {
                            assert(walk_from(g, v as int, w));
                            assert(nested(ly@)[w.len() - 1][w.last() as int]);
                        }
                    }
                }
                return Some(c);
            }
            t += 1;
        }
        proof {
            assert forall|c2: Seq<usize>| #[trigger] is_cycle(self@, c2) && c2[0] == v implies c2.len() > limit by {
                lemma_cycle_walk(g, c2);
                let w = c2.push(c2[0]);
                if c2.len() <= limit {
                    assert(walk_from(g, v as int, w));
                    assert(nested(ly@)[w.len() - 1][w.last() as int]);
                }
            }
        }
        None
    }

    /// The cycle that layer `t` of a search from `v` closes, read back
    /// through the recorded predecessors.
    fn walk_back(&self, ly: &Vec<Vec<bool>>, pd: &Vec<Vec<usize>>, v: usize, t: usize) -> (r: Vec<usize>)
        requires
            v < self@.len(),
            1 <= t < ly.len(),
            layers_ok(self@, v as int, nested(ly@), nested_idx(pd@)),
            nested(ly@)[t as int][v as int],
        ensures
            is_cycle(self@, r@),
            r@[0] == v,
            r@.len() == t,
    {
        let ghost g = self@;
        let ghost lv = nested(ly@);
        let ghost pv = nested_idx(pd@);
        let n = self.len();
        let mut c: Vec<usize> = Vec::new();
        let mut i: usize = 0;
        while i < t
            invariant
                c.len() == i <= t,
            decreases t - i,
        {
            c.push(0);
            i += 1;
        }
        let mut j = t;
        let mut cur = v;
        while j > 0
            invariant
                n == g.len(),
                0 <= j <= t,
                t < ly.len(),
                c.len() == t,
                cur < n,
                lv == nested(ly@),
                pv == nested_idx(pd@),
                layers_ok(g, v as int, lv, pv),
                lv[j as int][cur as int],
                j == t ==> cur == v,
                j < t ==> cur == c@[j as int],
                forall|q: int| j <= q < t ==> #[trigger] c@[q] < n,
                forall|q: int| j <= q < t - 1 ==> depends_on(g, #[trigger] c@[q] as int, c@[q + 1] as int),
                j < t ==> depends_on(g, c@[t - 1] as int, v as int),
            decreases j,
        {
            assert(lv[j as int][cur as int]);
            assert(pv[j - 1][cur as int] == pd@[j - 1]@[cur as int]);
            let p = pd[j - 1][cur];
            c[j - 1] = p;
            cur = p;
            j -= 1;
        }
        assert(lv[0][cur as int]);
        proof {
            assert forall|q: int| 0 <= q < c@.len() implies depends_on(
                g,
                #[trigger] c@[q] as int,
                c@[(q + 1) % (c@.len() as int)] as int,
            ) by {
                if q + 1 < c@.len() {
                    assert((q + 1) % (c@.len() as int) == q + 1) by (nonlinear_arith)
                        requires
                            0 <= q + 1 < c@.len(),
                    ;
                } else {
                    assert((q + 1) % (c@.len() as int) == 0) by (nonlinear_arith)
                        requires
                            q + 1 == c@.len(),
                            c@.len() > 0,
                    ;
                }
            }
        }
        c
    }

    /// A cycle with as few nodes as any cycle of the graph, where the graph
    /// has a cycle of at most `bound` nodes.
    pub fn shortest_cycle(&self, bound: usize) -> (r: Option<Vec<usize>>)
        ensures
            match r {
                Some(c) => is_cycle(self@, c@) && c@.len() <= bound && forall|c2: Seq<usize>|
                    #[trigger] is_cycle(self@, c2) ==> c2.len() >= c@.len(),
                None => forall|c2: Seq<usize>| #[trigger] is_cycle(self@, c2) ==> c2.len() > bound,
            },
    {
        let n = self.len();
        let mut best: Option<Vec<usize>> = None;
        let mut lim = bound;
        let mut v: usize = 0;
        while v < n
            invariant
                n == self@.len(),
                v <= n,
                lim <= bound,
                match best {
                    Some(c) => is_cycle(self@, c@) && c@.len() == lim + 1 && c@.len() <= bound,
                    None => lim == bound,
                },
                forall|c2: Seq<usize>| #[trigger] is_cycle(self@, c2) && c2[0] < v ==> c2.len() > lim,
            decreases n - v,
        {
            match self.shortest_cycle_through(v, lim) {
                Some(c) => {
                    lim = c.len() - 1;
                    best = Some(c);
                },
                None => {},
            }
            v += 1;
        }
        proof {
            assert forall|c2: Seq<usize>| #[trigger] is_cycle(self@, c2) implies c2.len() > lim by {
                assert(c2[0] < self@.len());
            }
        }
        best
    }
}

#[verifier::external_type_specification]
#[verifier::external_body]
#[verifier::reject_recursive_types(N)]
#[verifier::reject_recursive_types(E)]
#[verifier::reject_recursive_types(Ty)]
#[verifier::reject_recursive_types(Ix)]
pub struct ExPetGraph<N, E, Ty, Ix>(petgraph::Graph<N, E, Ty, Ix>);

#[verifier::external_type_specification]
#[verifier::external_body]
pub struct ExDirected(petgraph::Directed);

/// The successors of each node of a petgraph graph, by node index.
pub uninterp spec fn petgraph_adj(g: petgraph::Graph<(), (), petgraph::Directed, u32>) -> Seq<Seq<usize>>;

/// The number of edges of a petgraph graph.
pub uninterp spec fn petgraph_edge_count(g: petgraph::Graph<(), (), petgraph::Directed, u32>) -> nat;

/// Relies on `petgraph::Graph::new`: no nodes and no edges.
#[verifier::external_body]
fn petgraph_new() -> (g: petgraph::Graph<(), (), petgraph::Directed, u32>)
    ensures
        petgraph_adj(g) == Seq::<Seq<usize>>::empty(),
        petgraph_edge_count(g) == 0,
{
    petgraph::Graph::new()
}

/// Relies on `petgraph::Graph::add_node`: the new node takes the next
/// index and has no successor; it panics only once the `u32` index space
/// is used up.
#[verifier::external_body]
fn petgraph_add_node(g: &mut petgraph::Graph<(), (), petgraph::Directed, u32>) -> (r: usize)
    requires
        petgraph_adj(*old(g)).len() < u32::MAX,
    ensures
        r == petgraph_adj(*old(g)).len(),
        petgraph_adj(*final(g)) == petgraph_adj(*old(g)).push(Seq::<usize>::empty()),
        petgraph_edge_count(*final(g)) == petgraph_edge_count(*old(g)),
{
    g.add_node(()).index()
}

/// Relies on `petgraph::Graph::add_edge`: `b` becomes a successor of `a`;
/// it panics only on an unknown node or once the `u32` edge index space is
/// used up.
#[verifier::external_body]
fn petgraph_add_edge(g: &mut petgraph::Graph<(), (), petgraph::Directed, u32>, a: usize, b: usize)
    requires
        a < petgraph_adj(*old(g)).len(),
        b < petgraph_adj(*old(g)).len(),
        petgraph_edge_count(*old(g)) < u32::MAX,
    ensures
        petgraph_adj(*final(g)) == petgraph_adj(*old(g)).update(
            a as int,
            petgraph_adj(*old(g))[a as int].push(b),
        ),
        petgraph_edge_count(*final(g)) == petgraph_edge_count(*old(g)) + 1,
{
    g.add_edge(petgraph::graph::NodeIndex::new(a), petgraph::graph::NodeIndex::new(b), ());
}

/// Whether `o` lists every node once, each before all its successors.
pub open spec fn is_succ_order(g: Seq<Seq<usize>>, o: Seq<usize>) -> bool {
    &&& o.len() == g.len()
    &&& o.no_duplicates()
    &&& forall|i: int| 0 <= i < o.len() ==> #[trigger] o[i] < g.len()
    &&& forall|i: int, k: int|
        0 <= i < o.len() && 0 <= k < g[o[i] as int].len() ==> #[trigger] listed_after(g, o, i, k)
}

/// Whether the `k`-th successor of `o[i]` comes after it in `o`.
pub open spec fn listed_after(g: Seq<Seq<usize>>, o: Seq<usize>, i: int, k: int) -> bool {
    exists|j: int| i < j < o.len() && o[j] == g[o[i] as int][k]
}

/// Relies on `petgraph::algo::toposort`: on an acyclic graph, every node
/// once, each before its successors; on a graph with a cycle, self loops
/// included, the `Cycle` error.
#[verifier::external_body]
fn petgraph_toposort(g: &petgraph::Graph<(), (), petgraph::Directed, u32>) -> (r: Option<Vec<usize>>)
    ensures
        match r {
            Some(o) => is_succ_order(petgraph_adj(*g), o@),
            None => forall|o: Seq<usize>| !#[trigger] is_succ_order(petgraph_adj(*g), o),
        },
{
    match petgraph::algo::toposort(g, None) {
        Ok(order) => Some(order.into_iter().map(|n| n.index()).collect()),
        Err(_) => None,
    }
}

proof fn lemma_reverse_order(g: Seq<Seq<usize>>, o: Seq<usize>)
    requires
        is_succ_order(g, o),
    ensures
        is_topo_order(g, o.reverse()),
{
    let r = o.reverse();
    let n = o.len() as int;
    assert forall|i: int, j: int| 0 <= i < r.len() && 0 <= j < r.len() && i != j implies r[i] != r[j] by {
        assert(r[i] == o[n - 1 - i] && r[j] == o[n - 1 - j]);
    }
    assert forall|i: int| 0 <= i < r.len() implies #[trigger] r[i] < g.len() by {
        assert(r[i] == o[n - 1 - i]);
    }
    assert forall|i: int, k: int|
        0 <= i < r.len() && 0 <= k < g[r[i] as int].len() implies #[trigger] listed_before(g, r, i, k) by {
        let oi = n - 1 - i;
        assert(r[i] == o[oi]);
        assert(listed_after(g, o, oi, k));
        let j = choose|j: int| oi < j < o.len() && o[j] == g[o[oi] as int][k];
        assert(r[n - 1 - j] == o[j]);
    }
}

proof fn lemma_topo_gives_succ_order(g: Seq<Seq<usize>>, o: Seq<usize>)
    requires
        is_topo_order(g, o),
    ensures
        is_succ_order(g, o.reverse()),
{
    let r = o.reverse();
    let n = o.len() as int;
    assert forall|i: int, j: int| 0 <= i < r.len() && 0 <= j < r.len() && i != j implies r[i] != r[j] by {
        assert(r[i] == o[n - 1 - i] && r[j] == o[n - 1 - j]);
    }
    assert forall|i: int| 0 <= i < r.len() implies #[trigger] r[i] < g.len() by {
        assert(r[i] == o[n - 1 - i]);
    }
    assert forall|i: int, k: int|
        0 <= i < r.len() && 0 <= k < g[r[i] as int].len() implies #[trigger] listed_after(g, r, i, k) by {
        let oi = n - 1 - i;
        assert(r[i] == o[oi]);
        assert(listed_before(g, o, oi, k));
        let j = choose|j: int| 0 <= j < oi && o[j] == g[o[oi] as int][k];
        assert(r[n - 1 - j] == o[j]);
    }
}

impl DepGraph {
    /// A petgraph graph with the same nodes and edges, where its `u32`
    /// indices can hold them.
    fn to_petgraph(&self) -> (r: Option<petgraph::Graph<(), (), petgraph::Directed, u32>>)
        ensures
            r matches Some(pg) ==> petgraph_adj(pg) == self@,
    {
        proof {
            use_type_invariant(self);
        }
        let n = self.deps.len();
        let ghost g = self@;
        if n >= u32::MAX as usize {
            return None;
        }
        let mut pg = petgraph_new();
        let mut i: usize = 0;
        while i < n
            invariant
                i <= n < u32::MAX,
                petgraph_adj(pg).len() == i,
                forall|x: int| 0 <= x < i ==> #[trigger] petgraph_adj(pg)[x] == Seq::<usize>::empty(),
                petgraph_edge_count(pg) == 0,
            decreases n - i,
        {
            petgraph_add_node(&mut pg);
            i += 1;
        }
        let mut edges: u64 = 0;
        let mut a: usize = 0;
        while a < n
            invariant
                n == g.len(),
                g == self@,
                edges_in_range(g),
                a <= n,
                petgraph_adj(pg).len() == n,
                petgraph_edge_count(pg) == edges,
                edges <= u32::MAX,
                forall|x: int| 0 <= x < a ==> #[trigger] petgraph_adj(pg)[x] == g[x],
                forall|x: int| a <= x < n ==> #[trigger] petgraph_adj(pg)[x] == Seq::<usize>::empty(),
            decreases n - a,
        {
            let d = self.deps_of(a);
            let mut k: usize = 0;
            while k < d.len()
                invariant
                    n == g.len(),
                    edges_in_range(g),
                    a < n,
                    d@ == g[a as int],
                    k <= d.len(),
                    petgraph_adj(pg).len() == n,
                    petgraph_edge_count(pg) == edges,
                    edges <= u32::MAX,
                    petgraph_adj(pg)[a as int] == d@.take(k as int),
                    forall|x: int| 0 <= x < a ==> #[trigger] petgraph_adj(pg)[x] == g[x],
                    forall|x: int| a < x < n ==> #[trigger] petgraph_adj(pg)[x] == Seq::<usize>::empty(),
                decreases d.len() - k,
            {
                if edges >= u32::MAX as u64 {
                    return None;
                }
                petgraph_add_edge(&mut pg, a, d[k]);
                edges = edges + 1;
                assert(d@.take(k + 1) =~= d@.take(k as int).push(d@[k as int]));
                k += 1;
            }
            assert(d@.take(d.len() as int) =~= d@);
            a += 1;
        }
        assert(petgraph_adj(pg) =~= g);
        Some(pg)
    }

    /// An order that lists each node after everything it depends on, taken
    /// from petgraph's topological sort (successors come first there, so it
    /// is read backwards), or a cycle where there is none.
    pub fn hashing_order(&self) -> (r: Result<Vec<usize>, Vec<usize>>)
        ensures
            match r {
                Ok(o) => is_topo_order(self@, o@),
                Err(c) => is_cycle(self@, c@) && c@.len() <= self@.len(),
            },
    {
        let pg = match self.to_petgraph() {
            Some(pg) => pg,
            None => return self.topological_order(),
        };
        match petgraph_toposort(&pg) {
            Some(order) => {
                let mut rev: Vec<usize> = Vec::new();
                let mut i = order.len();
                while i > 0
                    invariant
                        i <= order.len(),
                        rev@ == order@.reverse().take((order.len() - i) as int),
                    decreases i,
                {
                    rev.push(order[i - 1]);
                    assert(rev@ =~= order@.reverse().take((order.len() - i + 1) as int));
                    i -= 1;
                }
                assert(rev@ =~= order@.reverse());
                proof {
                    lemma_reverse_order(self@, order@);
                }
                Ok(rev)
            },
            None => match self.topological_order() {
                Err(c) => Err(c),
                Ok(o) => {
                    proof {
                        lemma_topo_gives_succ_order(self@, o@);
                    }
                    Ok(o)
                },
            },
        }
    }
}

} // verus!
