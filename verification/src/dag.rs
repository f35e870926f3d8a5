//! Dependency graphs: cycles, and the facts used to find or rule them out.
use vstd::prelude::*;

verus! {

/// `a` is a task of `g` that lists `b` among its dependencies.
pub open spec fn depends_on(g: Map<Seq<char>, Seq<Seq<char>>>, a: Seq<char>, b: Seq<char>) -> bool {
    g.dom().contains(a) && g[a].contains(b)
}

/// `c` is a cycle of `g`: each task depends on the next, and the last on the first.
pub open spec fn is_cycle(g: Map<Seq<char>, Seq<Seq<char>>>, c: Seq<Seq<char>>) -> bool {
    &&& c.len() > 0
    &&& forall|k: int| 0 <= k < c.len() - 1 ==> depends_on(g, #[trigger] c[k], c[k + 1])
    &&& depends_on(g, c.last(), c[0])
}

/// The graph has no cycle.
pub open spec fn acyclic(g: Map<Seq<char>, Seq<Seq<char>>>) -> bool {
    forall|c: Seq<Seq<char>>| !is_cycle(g, c)
}

/// Every dependency of every task of the graph is itself a task of the graph.
pub open spec fn dependencies_exist(g: Map<Seq<char>, Seq<Seq<char>>>) -> bool {
    forall|a: Seq<char>, b: Seq<char>| #[trigger] depends_on(g, a, b) ==> g.dom().contains(b)
}

/// The same graph with tasks numbered: `adj[i]` lists the numbers of the dependencies of
/// task `i`.
pub open spec fn idx_edge(adj: Seq<Seq<usize>>, a: usize, b: usize) -> bool {
    a < adj.len() && adj[a as int].contains(b)
}

/// `c` is a cycle of the numbered graph.
pub open spec fn idx_cycle(adj: Seq<Seq<usize>>, c: Seq<usize>) -> bool {
    &&& c.len() > 0
    &&& forall|k: int| 0 <= k < c.len() - 1 ==> idx_edge(adj, #[trigger] c[k], c[k + 1])
    &&& idx_edge(adj, c.last(), c[0])
}

/// The number of `true` entries.
pub open spec fn count_true(s: Seq<bool>) -> nat
    decreases s.len(),
{
    if s.len() == 0 {
        0
    } else {
        count_true(s.drop_last()) + if s.last() {
            1nat
        } else {
            0nat
        }
    }
}

/// At most every flag is set, and when all are counted, each is set.
pub proof fn lemma_count_true_bound(s: Seq<bool>)
    ensures
        count_true(s) <= s.len(),
        count_true(s) == s.len() ==> forall|i: int| 0 <= i < s.len() ==> #[trigger] s[i],
    decreases s.len(),
{
    if s.len() > 0 {
        lemma_count_true_bound(s.drop_last());
        assert forall|i: int| 0 <= i < s.len() && count_true(s) == s.len() implies #[trigger] s[i] by {
            if i < s.len() - 1 {
                assert(s.drop_last()[i] == s[i]);
            }
        }
    }
}

/// Setting a flag that was not set counts one more.
pub proof fn lemma_count_true_set(s: Seq<bool>, i: int)
    requires
        0 <= i < s.len(),
        !s[i],
    ensures
        count_true(s.update(i, true)) == count_true(s) + 1,
    decreases s.len(),
{
    let t = s.update(i, true);
    if i == s.len() - 1 {
        assert(t.drop_last() =~= s.drop_last());
    } else {
        assert(t.drop_last() =~= s.drop_last().update(i, true));
        lemma_count_true_set(s.drop_last(), i);
    }
}

/// A sequence of distinct numbers below `n` has at most `n` elements.
pub proof fn lemma_distinct_bound(s: Seq<usize>, n: nat)
    requires
        s.no_duplicates(),
        forall|k: int| 0 <= k < s.len() ==> (#[trigger] s[k] as int) < n,
    ensures
        s.len() <= n,
    decreases n,
{
    if n == 0 {
        if s.len() > 0 {
            assert(s[0] < 0);
        }
    } else {
        let top = (n - 1) as usize;
        if s.contains(top) {
            let j = choose|j: int| 0 <= j < s.len() && s[j] == top;
            let t = s.remove(j);
            s.remove_ensures(j);
            assert forall|k: int| 0 <= k < t.len() implies (#[trigger] t[k] as int) < n - 1 by {
                if k < j {
                    assert(t[k] == s[k]);
                    assert(k != j);
                } else {
                    assert(t[k] == s[k + 1]);
                    assert(k + 1 != j);
                }
            }
            assert(t.no_duplicates()) by {
                assert forall|a: int, b: int| 0 <= a < t.len() && 0 <= b < t.len() && a != b implies t[a] != t[b] by {
                    let a1 = if a < j { a } else { a + 1 };
                    let b1 = if b < j { b } else { b + 1 };
                    assert(t[a] == s[a1]);
                    assert(t[b] == s[b1]);
                }
            }
            lemma_distinct_bound(t, (n - 1) as nat);
        } else {
            assert forall|k: int| 0 <= k < s.len() implies (#[trigger] s[k] as int) < n - 1 by {
                assert(s[k] != top);
            }
            lemma_distinct_bound(s, (n - 1) as nat);
        }
    }
}

/// When every task carries a rank above the ranks of its dependencies, there is no cycle.
pub proof fn lemma_ranked_no_cycle(adj: Seq<Seq<usize>>, rank: Seq<int>, c: Seq<usize>)
    requires
        rank.len() == adj.len(),
        forall|a: usize, b: usize| #[trigger] idx_edge(adj, a, b) ==> b < adj.len() && rank[b as int] < rank[a as int],
    ensures
        !idx_cycle(adj, c),
{
    if idx_cycle(adj, c) {
        let l = c.len() - 1;
        lemma_rank_descends(adj, rank, c, l);
        assert(idx_edge(adj, c[l], c[0]));
    }
}

proof fn lemma_rank_descends(adj: Seq<Seq<usize>>, rank: Seq<int>, c: Seq<usize>, k: int)
    requires
        rank.len() == adj.len(),
        forall|a: usize, b: usize| #[trigger] idx_edge(adj, a, b) ==> b < adj.len() && rank[b as int] < rank[a as int],
        idx_cycle(adj, c),
        0 <= k < c.len(),
    ensures
        rank[c[k] as int] <= rank[c[0] as int] - k,
        c[k] < adj.len(),
    decreases k,
{
    if k > 0 {
        lemma_rank_descends(adj, rank, c, k - 1);
        assert(idx_edge(adj, c[k - 1], c[k]));
    } else {
        assert(idx_edge(adj, c.last(), c[0]));
    }
}

/// The numbered graph as sequences.
pub open spec fn adj_view(adj: &Vec<Vec<usize>>) -> Seq<Seq<usize>> {
    adj@.map_values(|v: Vec<usize>| v@)
}

/// Every listed dependency number names a task of the numbered graph.
pub open spec fn adj_closed(a: Seq<Seq<usize>>) -> bool {
    forall|i: int, k: int| 0 <= i < a.len() && 0 <= k < a[i].len() ==> (#[trigger] a[i][k] as int) < a.len()
}

/// Finds a cycle of the numbered graph, or shows that there is none.
///
/// Tasks whose dependencies are all settled are settled, round after round, each receiving
/// a rank above the ranks of its dependencies. If every task is settled, the ranks rule
/// out any cycle. Otherwise every unsettled task has an unsettled dependency; following
/// those from an unsettled task must come back to a task already on the path, and the
/// part of the path from there is a cycle.
pub fn find_index_cycle(adj: &Vec<Vec<usize>>) -> (r: Option<Vec<usize>>)
    requires
        adj_closed(adj_view(adj)),
    ensures
        r is None ==> forall|c: Seq<usize>| !idx_cycle(adj_view(adj), c),
        r matches Some(c) ==> idx_cycle(adj_view(adj), c@) && c@.no_duplicates(),
{
    let n = adj.len();
    let ghost a = adj_view(adj);
    let mut done: Vec<bool> = Vec::new();
    while done.len() < n
        invariant
            done.len() <= n,
            forall|j: int| 0 <= j < done.len() ==> !done@[j],
        decreases n - done.len(),
    {
        done.push(false);
    }
    proof {
        assert(count_true(done@) == 0) by {
            lemma_count_none(done@);
        }
    }
    let ghost mut rank: Seq<int> = Seq::new(n as nat, |i: int| 0);
    let mut count: usize = 0;
    loop
        invariant
            n == adj.len(),
            a == adj_view(adj),
            adj_closed(a),
            done.len() == n,
            rank.len() == n,
            count == count_true(done@),
            count <= n,
            forall|j: int| 0 <= j < n && #[trigger] done@[j] ==> rank[j] < count,
            forall|x: usize, y: usize| #[trigger] idx_edge(a, x, y) && done@[x as int] ==> done@[y as int] && rank[y as int] < rank[x as int],
        ensures
            done.len() == n,
            rank.len() == n,
            count == count_true(done@),
            forall|x: usize, y: usize| #[trigger] idx_edge(a, x, y) && done@[x as int] ==> done@[y as int] && rank[y as int] < rank[x as int],
            stuck(a, done@),
        decreases n - count,
    {
        let mut progress = false;
        let ghost count0 = count;
        let ghost done0 = done@;
        let mut i: usize = 0;
        while i < n
            invariant
                n == adj.len(),
                a == adj_view(adj),
                adj_closed(a),
                done.len() == n,
                rank.len() == n,
                count == count_true(done@),
                count0 <= count <= n,
                i <= n,
                forall|j: int| 0 <= j < n && #[trigger] done@[j] ==> rank[j] < count,
                forall|x: usize, y: usize| #[trigger] idx_edge(a, x, y) && done@[x as int] ==> done@[y as int] && rank[y as int] < rank[x as int],
                progress ==> count > count0,
                !progress ==> done@ == done0,
                !progress ==> forall|j: int| 0 <= j < i && !(#[trigger] done@[j]) ==> exists|k: int| 0 <= k < a[j].len() && !done@[a[j][k] as int],
            decreases n - i,
        {
            if !done[i] {
                let deps = &adj[i];
                let mut k: usize = 0;
                while k < deps.len()
                    invariant
                        deps@ == a[i as int],
                        adj_closed(a),
                        a.len() == n,
                        i < n,
                        done.len() == n,
                        k <= deps.len(),
                        forall|m: int| 0 <= m < k ==> done@[#[trigger] deps@[m] as int],
                    ensures
                        k <= deps.len(),
                        forall|m: int| 0 <= m < k ==> done@[#[trigger] deps@[m] as int],
                        k < deps.len() ==> !done@[deps@[k as int] as int],
                    decreases deps.len() - k,
                {
                    if !done[deps[k]] {
                        break;
                    }
                    k = k + 1;
                }
                if k == deps.len() {
                    proof {
                        lemma_count_true_set(done@, i as int);
                        lemma_count_true_bound(done@.update(i as int, true));
                    }
                    let ghost old_done = done@;
                    done.set(i, true);
                    proof {
                        rank = rank.update(i as int, count as int);
                        assert forall|x: usize, y: usize| #[trigger] idx_edge(a, x, y) && done@[x as int] implies done@[y as int] && rank[y as int] < rank[x as int] by {
                            if x == i {
                                let m = choose|m: int| 0 <= m < a[i as int].len() && a[i as int][m] == y;
                                assert(done@[deps@[m] as int]);
                                assert(old_done[y as int]);
                            } else {
                                assert(old_done[x as int]);
                            }
                        }
                    }
                    count = count + 1;
                    progress = true;
                } else {
                    assert(0 <= k < a[i as int].len() && !done@[a[i as int][k as int] as int]);
                }
            }
            i = i + 1;
        }
        if !progress {
            break;
        }
    }
    if count == n {
        proof {
            lemma_count_true_bound(done@);
            assert forall|x: usize, y: usize| #[trigger] idx_edge(a, x, y) implies y < a.len() && rank[y as int] < rank[x as int] by {
                assert(done@[x as int]);
            }
            assert forall|c: Seq<usize>| !idx_cycle(a, c) by {
                lemma_ranked_no_cycle(a, rank, c);
            }
        }
        return None;
    }
    let mut u0: usize = 0;
    proof {
        lemma_count_true_bound(done@);
    }
    while u0 < n && done[u0]
        invariant
            done.len() == n,
            u0 <= n,
            count_true(done@) < n,
            forall|j: int| 0 <= j < u0 ==> #[trigger] done@[j],
        decreases n - u0,
    {
        u0 = u0 + 1;
    }
    proof {
        if u0 == n {
            lemma_count_all(done@);
        }
    }
    Some(walk_to_cycle(adj, &done, u0))
}

/// Every unsettled task has an unsettled dependency.
pub open spec fn stuck(a: Seq<Seq<usize>>, done: Seq<bool>) -> bool {
    forall|j: int| 0 <= j < a.len() && !(#[trigger] done[j]) ==> exists|k: int| 0 <= k < a[j].len() && !done[a[j][k] as int]
}

/// A path of distinct unsettled tasks, each depending on the next.
pub open spec fn undone_path(a: Seq<Seq<usize>>, done: Seq<bool>, path: Seq<usize>) -> bool {
    &&& path.no_duplicates()
    &&& forall|m: int| 0 <= m < path.len() ==> (#[trigger] path[m]) < a.len() && !done[path[m] as int]
    &&& forall|m: int| 0 <= m < path.len() - 1 ==> idx_edge(a, #[trigger] path[m], path[m + 1])
}

/// The position of the first unsettled entry of `deps`, which must have one.
fn first_undone(deps: &Vec<usize>, done: &Vec<bool>) -> (k: usize)
    requires
        forall|m: int| 0 <= m < deps.len() ==> (#[trigger] deps@[m] as int) < done.len(),
        exists|m: int| 0 <= m < deps.len() && !done@[deps@[m] as int],
    ensures
        k < deps.len(),
        !done@[deps@[k as int] as int],
{
    let mut k: usize = 0;
    while k < deps.len() && done[deps[k]]
        invariant
            forall|m: int| 0 <= m < deps.len() ==> (#[trigger] deps@[m] as int) < done.len(),
            k <= deps.len(),
            forall|m: int| 0 <= m < k ==> done@[#[trigger] deps@[m] as int],
        decreases deps.len() - k,
    {
        k = k + 1;
    }
    proof {
        if k == deps.len() {
            let m = choose|m: int| 0 <= m < deps.len() && !done@[deps@[m] as int];
            assert(done@[deps@[m] as int]);
        }
    }
    k
}

/// The position of `x` in `v`, if it occurs there.
fn position(v: &Vec<usize>, x: usize) -> (r: Option<usize>)
    ensures
        r matches Some(p) ==> p < v.len() && v@[p as int] == x,
        r is None ==> !v@.contains(x),
{
    let mut p: usize = 0;
    while p < v.len()
        invariant
            p <= v.len(),
            forall|m: int| 0 <= m < p ==> #[trigger] v@[m] != x,
        decreases v.len() - p,
    {
        if v[p] == x {
            return Some(p);
        }
        p = p + 1;
    }
    None
}

/// The entries of `v` from position `p` on.
fn suffix(v: &Vec<usize>, p: usize) -> (r: Vec<usize>)
    requires
        p <= v.len(),
    ensures
        r@ == v@.subrange(p as int, v.len() as int),
{
    let mut r: Vec<usize> = Vec::new();
    let mut q = p;
    while q < v.len()
        invariant
            p <= q <= v.len(),
            r@ == v@.subrange(p as int, q as int),
        decreases v.len() - q,
    {
        r.push(v[q]);
        q = q + 1;
    }
    r
}

proof fn lemma_extend_path(a: Seq<Seq<usize>>, done: Seq<bool>, path: Seq<usize>, next: usize)
    requires
        undone_path(a, done, path),
        path.len() >= 1,
        !path.contains(next),
        next < a.len(),
        !done[next as int],
        idx_edge(a, path.last(), next),
    ensures
        undone_path(a, done, path.push(next)),
        path.push(next).len() <= a.len(),
{
    let t = path.push(next);
    assert forall|x: int, y: int| 0 <= x < t.len() && 0 <= y < t.len() && x != y implies t[x] != t[y] by {
        if x < path.len() && y < path.len() {
        } else if x < path.len() {
            assert(t[x] == path[x]);
        } else {
            assert(t[y] == path[y]);
        }
    }
    assert forall|m: int| 0 <= m < t.len() implies (#[trigger] t[m]) < a.len() && !done[t[m] as int] by {
        if m < path.len() {
            assert(t[m] == path[m]);
        }
    }
    assert forall|m: int| 0 <= m < t.len() - 1 implies idx_edge(a, #[trigger] t[m], t[m + 1]) by {
        if m < path.len() - 1 {
            assert(t[m] == path[m]);
            assert(t[m + 1] == path[m + 1]);
        } else {
            assert(t[m] == path.last());
        }
    }
    lemma_distinct_bound(t, a.len());
}

proof fn lemma_suffix_cycle(a: Seq<Seq<usize>>, done: Seq<bool>, path: Seq<usize>, p: int, next: usize)
    requires
        undone_path(a, done, path),
        0 <= p < path.len(),
        path[p] == next,
        idx_edge(a, path.last(), next),
    ensures
        idx_cycle(a, path.subrange(p, path.len() as int)),
        path.subrange(p, path.len() as int).no_duplicates(),
{
    let c = path.subrange(p, path.len() as int);
    assert forall|m: int| 0 <= m < c.len() - 1 implies idx_edge(a, #[trigger] c[m], c[m + 1]) by {
        assert(c[m] == path[p + m]);
        assert(c[m + 1] == path[p + m + 1]);
    }
    assert(c.last() == path.last());
    assert(c[0] == next);
}

/// Follows unsettled dependencies from `u0` until the path comes back to itself, and
/// returns the cycle so closed.
fn walk_to_cycle(adj: &Vec<Vec<usize>>, done: &Vec<bool>, u0: usize) -> (c: Vec<usize>)
    requires
        adj_closed(adj_view(adj)),
        done.len() == adj.len(),
        stuck(adj_view(adj), done@),
        u0 < adj.len(),
        !done@[u0 as int],
    ensures
        idx_cycle(adj_view(adj), c@),
        c@.no_duplicates(),
{
    let n = adj.len();
    let ghost a = adj_view(adj);
    let mut path: Vec<usize> = Vec::new();
    path.push(u0);
    assert(undone_path(a, done@, path@));
    loop
        invariant
            n == adj.len(),
            a == adj_view(adj),
            adj_closed(a),
            done.len() == n,
            stuck(a, done@),
            1 <= path.len() <= n,
            undone_path(a, done@, path@),
        decreases n - path.len(),
    {
        let last = path[path.len() - 1];
        let deps = &adj[last];
        assert(deps@ == a[last as int]);
        assert(!done@[last as int]);
        assert(exists|k: int| 0 <= k < a[last as int].len() && !done@[a[last as int][k] as int]);
        let k = first_undone(deps, done);
        let next = deps[k];
        assert(idx_edge(a, last, next)) by {
            assert(a[last as int][k as int] == next);
        }
        match position(&path, next) {
            Some(p) => {
                proof {
                    lemma_suffix_cycle(a, done@, path@, p as int, next);
                }
                return suffix(&path, p);
            },
            None => {
                proof {
                    lemma_extend_path(a, done@, path@, next);
                }
                path.push(next);
            },
        }
    }
}

proof fn lemma_count_none(s: Seq<bool>)
    requires
        forall|j: int| 0 <= j < s.len() ==> !s[j],
    ensures
        count_true(s) == 0,
    decreases s.len(),
{
    if s.len() > 0 {
        lemma_count_none(s.drop_last());
    }
}

proof fn lemma_count_all(s: Seq<bool>)
    requires
        forall|j: int| 0 <= j < s.len() ==> s[j],
    ensures
        count_true(s) == s.len(),
    decreases s.len(),
{
    if s.len() > 0 {
        lemma_count_all(s.drop_last());
    }
}

} // verus!

