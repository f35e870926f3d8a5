//! The schedule of tasks to run: a topological sort of the tasks that the requested tasks
//! need, by depth-first search taking dependencies in lexicographical order.
use crate::dag::{acyclic, dependencies_exist, depends_on, is_cycle};
use crate::order::{insert_sorted, sorted_set, str_eq, strictly_sorted, lemma_sorted_set_of};
use crate::toastfile::{dep_graph, deps_of, Task, Toastfile};
use vstd::prelude::*;

verus! {

/// A list of string slices as character sequences.
pub open spec fn strs(v: Seq<&str>) -> Seq<Seq<char>> {
    v.map_values(|s: &str| s@)
}

/// The dependencies of `n`, without repetitions, in lexicographical order.
pub open spec fn children(g: Map<Seq<char>, Seq<Seq<char>>>, n: Seq<char>) -> Seq<Seq<char>> {
    if g.dom().contains(n) {
        sorted_set(g[n].to_set())
    } else {
        Seq::empty()
    }
}

/// The number of tasks of `g` not yet visited.
pub open spec fn unvisited(g: Map<Seq<char>, Seq<Seq<char>>>, vis: Set<Seq<char>>) -> nat {
    g.dom().difference(vis).len()
}

/// Visiting a new task leaves fewer tasks unvisited.
pub proof fn lemma_unvisited_insert(g: Map<Seq<char>, Seq<Seq<char>>>, vis: Set<Seq<char>>, n: Seq<char>)
    requires
        g.dom().finite(),
        g.dom().contains(n),
        !vis.contains(n),
    ensures
        unvisited(g, vis.insert(n)) < unvisited(g, vis),
{
    let d = g.dom().difference(vis);
    vstd::set_lib::lemma_len_difference(g.dom(), vis);
    assert(g.dom().difference(vis.insert(n)) =~= d.remove(n));
    vstd::set_lib::lemma_set_subset_finite(g.dom(), d);
    assert(d.contains(n));
}

/// Visiting more tasks leaves no more tasks unvisited.
pub proof fn lemma_unvisited_union(g: Map<Seq<char>, Seq<Seq<char>>>, vis: Set<Seq<char>>, more: Set<Seq<char>>)
    requires
        g.dom().finite(),
    ensures
        unvisited(g, more.union(vis)) <= unvisited(g, vis),
{
    let d = g.dom().difference(vis);
    vstd::set_lib::lemma_set_subset_finite(g.dom(), d);
    vstd::set_lib::lemma_len_subset(g.dom().difference(more.union(vis)), d);
}

/// Visits `n` depth first: unless `n` was visited before, marks it, visits its dependencies
/// in order, and then appends `n` to the output.
pub open spec fn visit(
    g: Map<Seq<char>, Seq<Seq<char>>>,
    n: Seq<char>,
    vis: Set<Seq<char>>,
    out: Seq<Seq<char>>,
) -> (Set<Seq<char>>, Seq<Seq<char>>)
    decreases unvisited(g, vis), 0nat,
{
    if !g.dom().finite() || vis.contains(n) {
        (vis, out)
    } else if !g.dom().contains(n) {
        (vis.insert(n), out.push(n))
    } else {
        proof {
            lemma_unvisited_insert(g, vis, n);
        }
        let r = visit_list(g, children(g, n), vis.insert(n), out);
        (r.0, r.1.push(n))
    }
}

/// Visits the tasks of `l` in order.
pub open spec fn visit_list(
    g: Map<Seq<char>, Seq<Seq<char>>>,
    l: Seq<Seq<char>>,
    vis: Set<Seq<char>>,
    out: Seq<Seq<char>>,
) -> (Set<Seq<char>>, Seq<Seq<char>>)
    decreases unvisited(g, vis), l.len() + 1,
{
    if !g.dom().finite() || l.len() == 0 {
        (vis, out)
    } else {
        let r = visit(g, l[0], vis, out);
        proof {
            lemma_unvisited_union(g, vis, r.0);
        }
        visit_list(g, l.drop_first(), r.0.union(vis), r.1)
    }
}

/// The schedule for the requested tasks `roots`: visiting them in lexicographical order,
/// each task comes after its dependencies.
pub open spec fn spec_schedule(g: Map<Seq<char>, Seq<Seq<char>>>, roots: Set<Seq<char>>) -> Seq<Seq<char>> {
    visit_list(g, sorted_set(roots), Set::empty(), Seq::empty()).1
}

/// The dependencies of a task without repetitions, in lexicographical order.
fn sorted_dependencies<'a>(task: &'a Task) -> (r: Vec<&'a str>)
    ensures
        strictly_sorted(strs(r@)),
        strs(r@).to_set() == deps_of(*task).to_set(),
{
    let mut r: Vec<&'a str> = Vec::new();
    let mut k: usize = 0;
    assert(strs(r@).to_set() =~= deps_of(*task).subrange(0, 0).to_set());
    while k < task.dependencies.len()
        invariant
            k <= task.dependencies.len(),
            strictly_sorted(strs(r@)),
            strs(r@).to_set() == deps_of(*task).subrange(0, k as int).to_set(),
        decreases task.dependencies.len() - k,
    {
        insert_sorted(&mut r, task.dependencies[k].as_str());
        assert(deps_of(*task).subrange(0, k + 1) =~= deps_of(*task).subrange(0, k as int).push(task.dependencies@[k as int]@));
        proof {
            deps_of(*task).subrange(0, k as int).lemma_push_to_set_commute(task.dependencies@[k as int]@);
        }
        k = k + 1;
    }
    assert(deps_of(*task).subrange(0, k as int) =~= deps_of(*task));
    r
}

/// Whether `name` occurs in `v`.
fn occurs(v: &Vec<&str>, name: &str) -> (b: bool)
    ensures
        b == strs(v@).to_set().contains(name@),
{
    let mut i: usize = 0;
    while i < v.len()
        invariant
            i <= v.len(),
            forall|j: int| 0 <= j < i ==> #[trigger] strs(v@)[j] != name@,
        decreases v.len() - i,
    {
        if str_eq(v[i], name) {
            assert(strs(v@)[i as int] == name@);
            return true;
        }
        i = i + 1;
    }
    false
}

/// The facts the traversal keeps: the graph is finite and closed, and every visited task
/// is a task of it.
pub open spec fn traversal_ok(t: Toastfile, vis: Set<Seq<char>>) -> bool {
    &&& dep_graph(t.tasks@).dom().finite()
    &&& dependencies_exist(dep_graph(t.tasks@))
    &&& vis.subset_of(dep_graph(t.tasks@).dom())
}

/// Visits `name` depth first, as `visit` does.
fn visit_task<'a>(toastfile: &'a Toastfile, name: &'a str, visited: &mut Vec<&'a str>, out: &mut Vec<&'a str>)
    requires
        traversal_ok(*toastfile, strs(old(visited)@).to_set()),
        dep_graph(toastfile.tasks@).dom().contains(name@),
    ensures
        (strs(final(visited)@).to_set(), strs(final(out)@)) == visit(
            dep_graph(toastfile.tasks@),
            name@,
            strs(old(visited)@).to_set(),
            strs(old(out)@),
        ),
        strs(old(visited)@).to_set().subset_of(strs(final(visited)@).to_set()),
        traversal_ok(*toastfile, strs(final(visited)@).to_set()),
    decreases unvisited(dep_graph(toastfile.tasks@), strs(old(visited)@).to_set()), 0nat,
{
    let ghost g = dep_graph(toastfile.tasks@);
    if occurs(visited, name) {
        return;
    }
    let task = match toastfile.tasks.get(name) {
        Some(t) => t,
        None => {
            assert(false);
            return;
        },
    };
    let ghost vis0 = strs(visited@).to_set();
    let ghost out0 = strs(out@);
    visited.push(name);
    assert(strs(visited@) =~= strs(old(visited)@).push(name@));
    proof {
        strs(old(visited)@).lemma_push_to_set_commute(name@);
    }
    let deps = sorted_dependencies(task);
    proof {
        lemma_sorted_set_of(strs(deps@));
        assert(g[name@] == deps_of(*task));
        assert(children(g, name@) == strs(deps@));
        lemma_unvisited_insert(g, vis0, name@);
        assert forall|k: int| 0 <= k < deps.len() implies g.dom().contains(#[trigger] strs(deps@)[k]) by {
            assert(strs(deps@).to_set().contains(strs(deps@)[k]));
            assert(deps_of(*task).to_set().contains(strs(deps@)[k]));
            assert(crate::dag::depends_on(g, name@, strs(deps@)[k]));
        }
    }
    let ghost out_mid = strs(out@);
    visit_all(toastfile, &deps, visited, out);
    let ghost out_after = strs(out@);
    out.push(name);
    assert(strs(out@) =~= out_after.push(name@));
}

/// Visits the tasks of `l` in order, as `visit_list` does.
fn visit_all<'a>(toastfile: &'a Toastfile, l: &Vec<&'a str>, visited: &mut Vec<&'a str>, out: &mut Vec<&'a str>)
    requires
        traversal_ok(*toastfile, strs(old(visited)@).to_set()),
        forall|k: int| 0 <= k < l.len() ==> dep_graph(toastfile.tasks@).dom().contains(#[trigger] strs(l@)[k]),
    ensures
        (strs(final(visited)@).to_set(), strs(final(out)@)) == visit_list(
            dep_graph(toastfile.tasks@),
            strs(l@),
            strs(old(visited)@).to_set(),
            strs(old(out)@),
        ),
        strs(old(visited)@).to_set().subset_of(strs(final(visited)@).to_set()),
        traversal_ok(*toastfile, strs(final(visited)@).to_set()),
    decreases unvisited(dep_graph(toastfile.tasks@), strs(old(visited)@).to_set()), l.len() + 1,
{
    let ghost g = dep_graph(toastfile.tasks@);
    let ghost vis0 = strs(visited@).to_set();
    let ghost out0 = strs(out@);
    let mut i: usize = 0;
    assert(strs(l@).skip(0) =~= strs(l@));
    while i < l.len()
        invariant
            g == dep_graph(toastfile.tasks@),
            g.dom().finite(),
            i <= l.len(),
            forall|k: int| 0 <= k < l.len() ==> g.dom().contains(#[trigger] strs(l@)[k]),
            traversal_ok(*toastfile, strs(visited@).to_set()),
            vis0.subset_of(strs(visited@).to_set()),
            vis0 == strs(old(visited)@).to_set(),
            unvisited(g, strs(visited@).to_set()) <= unvisited(g, vis0),
            visit_list(g, strs(l@), vis0, out0) == visit_list(g, strs(l@).skip(i as int), strs(visited@).to_set(), strs(out@)),
        decreases l.len() - i,
    {
        let ghost vis_i = strs(visited@).to_set();
        let ghost out_i = strs(out@);
        let ghost rest = strs(l@).skip(i as int);
        assert(rest[0] == l@[i as int]@);
        assert(rest.drop_first() =~= strs(l@).skip(i + 1));
        assert(unvisited(g, strs(visited@).to_set()) <= unvisited(g, strs(old(visited)@).to_set()));
        visit_task(toastfile, l[i], visited, out);
        proof {
            let r = visit(g, rest[0], vis_i, out_i);
            assert(r.0.union(vis_i) =~= r.0);
            lemma_unvisited_union(g, vis0, strs(visited@).to_set());
            assert(strs(visited@).to_set().union(vis0) =~= strs(visited@).to_set());
        }
        i = i + 1;
    }
    assert(strs(l@).skip(l.len() as int) =~= Seq::<Seq<char>>::empty());
}

/// Computes a topological sort of the tasks that `tasks` need (the tasks themselves and
/// everything they depend on, directly or not). The requested tasks are taken in
/// lexicographical order and each task's dependencies too, so the schedule does not depend
/// on the order in which tasks or dependencies are listed.
pub fn compute<'a>(toastfile: &'a Toastfile, tasks: &[&'a str]) -> (r: Vec<&'a str>)
    requires
        dependencies_exist(dep_graph(toastfile.tasks@)),
        forall|k: int| 0 <= k < tasks.len() ==> toastfile.tasks@.dom().contains(#[trigger] tasks@[k]@),
    ensures
        strs(r@) == spec_schedule(dep_graph(toastfile.tasks@), strs(tasks@).to_set()),
{
    proof {
        use_type_invariant(&toastfile.tasks);
        toastfile.tasks.lemma_entries();
    }
    let ghost g = dep_graph(toastfile.tasks@);
    let mut roots: Vec<&'a str> = Vec::new();
    let mut k: usize = 0;
    assert(strs(roots@).to_set() =~= strs(tasks@).subrange(0, 0).to_set());
    while k < tasks.len()
        invariant
            k <= tasks.len(),
            strictly_sorted(strs(roots@)),
            strs(roots@).to_set() == strs(tasks@).subrange(0, k as int).to_set(),
        decreases tasks.len() - k,
    {
        insert_sorted(&mut roots, tasks[k]);
        assert(strs(tasks@).subrange(0, k + 1) =~= strs(tasks@).subrange(0, k as int).push(tasks@[k as int]@));
        proof {
            strs(tasks@).subrange(0, k as int).lemma_push_to_set_commute(tasks@[k as int]@);
        }
        k = k + 1;
    }
    assert(strs(tasks@).subrange(0, k as int) =~= strs(tasks@));
    proof {
        lemma_sorted_set_of(strs(roots@));
        assert(g.dom() == toastfile.tasks@.dom());
        assert forall|j: int| 0 <= j < roots.len() implies g.dom().contains(#[trigger] strs(roots@)[j]) by {
            assert(strs(roots@).to_set().contains(strs(roots@)[j]));
            assert(strs(tasks@).to_set().contains(strs(roots@)[j]));
            let m = choose|m: int| 0 <= m < strs(tasks@).len() && strs(tasks@)[m] == strs(roots@)[j];
            assert(toastfile.tasks@.dom().contains(tasks@[m]@));
        }
    }
    let mut visited: Vec<&'a str> = Vec::new();
    let mut out: Vec<&'a str> = Vec::new();
    assert(strs(visited@).to_set() =~= Set::<Seq<char>>::empty());
    assert(strs(out@) =~= Seq::<Seq<char>>::empty());
    visit_all(toastfile, &roots, &mut visited, &mut out);
    out
}

} // verus!

verus! {

/// `p` is a path of `g`: each task depends on the next.
pub open spec fn path_in(g: Map<Seq<char>, Seq<Seq<char>>>, p: Seq<Seq<char>>) -> bool {
    p.len() >= 1 && forall|k: int| 0 <= k < p.len() - 1 ==> depends_on(g, #[trigger] p[k], p[k + 1])
}

/// `b` is `a` or something `a` needs, directly or not.
pub open spec fn reaches(g: Map<Seq<char>, Seq<Seq<char>>>, a: Seq<char>, b: Seq<char>) -> bool {
    exists|p: Seq<Seq<char>>| #[trigger] path_in(g, p) && p[0] == a && p.last() == b
}

/// `a` needs `b`, directly or not.
pub open spec fn reaches_plus(g: Map<Seq<char>, Seq<Seq<char>>>, a: Seq<char>, b: Seq<char>) -> bool {
    exists|p: Seq<Seq<char>>| #[trigger] path_in(g, p) && p.len() >= 2 && p[0] == a && p.last() == b
}

/// Each task of `s` comes after all of its dependencies.
pub open spec fn deps_before(g: Map<Seq<char>, Seq<Seq<char>>>, s: Seq<Seq<char>>) -> bool {
    forall|i: int, c: Seq<char>| 0 <= i < s.len() && #[trigger] depends_on(g, s[i], c) ==> #[trigger] s.subrange(0, i).contains(c)
}

proof fn lemma_reaches_plus_step(g: Map<Seq<char>, Seq<Seq<char>>>, a: Seq<char>, n: Seq<char>, c: Seq<char>)
    requires
        reaches_plus(g, a, n),
        depends_on(g, n, c),
    ensures
        reaches_plus(g, a, c),
{
    let p = choose|p: Seq<Seq<char>>| #[trigger] path_in(g, p) && p.len() >= 2 && p[0] == a && p.last() == n;
    let q = p.push(c);
    assert forall|k: int| 0 <= k < q.len() - 1 implies depends_on(g, #[trigger] q[k], q[k + 1]) by {
        if k < p.len() - 1 {
            assert(q[k] == p[k] && q[k + 1] == p[k + 1]);
        }
    }
    assert(path_in(g, q));
}

proof fn lemma_edge_reaches_plus(g: Map<Seq<char>, Seq<Seq<char>>>, n: Seq<char>, c: Seq<char>)
    requires
        depends_on(g, n, c),
    ensures
        reaches_plus(g, n, c),
{
    let q = seq![n, c];
    assert(path_in(g, q));
}

proof fn lemma_reaches_refl(g: Map<Seq<char>, Seq<Seq<char>>>, a: Seq<char>)
    ensures
        reaches(g, a, a),
{
    assert(path_in(g, seq![a]));
}

/// In an acyclic graph no task needs itself.
proof fn lemma_acyclic_no_loop(g: Map<Seq<char>, Seq<Seq<char>>>, c: Seq<char>)
    requires
        acyclic(g),
    ensures
        !reaches_plus(g, c, c),
{
    if reaches_plus(g, c, c) {
        let p = choose|p: Seq<Seq<char>>| #[trigger] path_in(g, p) && p.len() >= 2 && p[0] == c && p.last() == c;
        let cyc = p.drop_last();
        assert forall|k: int| 0 <= k < cyc.len() - 1 implies depends_on(g, #[trigger] cyc[k], cyc[k + 1]) by {
            assert(cyc[k] == p[k] && cyc[k + 1] == p[k + 1]);
        }
        assert(depends_on(g, p[p.len() - 2], p[p.len() - 1]));
        assert(is_cycle(g, cyc));
    }
}

/// Everything reachable from a task of a set that is closed under dependencies is in the set.
proof fn lemma_closed_reach(g: Map<Seq<char>, Seq<Seq<char>>>, s: Set<Seq<char>>, p: Seq<Seq<char>>)
    requires
        path_in(g, p),
        s.contains(p[0]),
        forall|x: Seq<char>, y: Seq<char>| s.contains(x) && #[trigger] depends_on(g, x, y) ==> s.contains(y),
    ensures
        s.contains(p.last()),
    decreases p.len(),
{
    if p.len() > 1 {
        let q = p.drop_last();
        assert forall|k: int| 0 <= k < q.len() - 1 implies depends_on(g, #[trigger] q[k], q[k + 1]) by {
            assert(q[k] == p[k] && q[k + 1] == p[k + 1]);
        }
        lemma_closed_reach(g, s, q);
        assert(depends_on(g, p[p.len() - 2], p[p.len() - 1]));
    }
}

/// What one visit keeps and adds: the tasks visited are those output and those in progress
/// (`anc`, each of which needs the task being visited); the output only grows, holds no task
/// twice, puts every task after its dependencies, and gains tasks that were not visited
/// before and that the visited task needs.
pub open spec fn visit_post(
    g: Map<Seq<char>, Seq<Seq<char>>>,
    vis: Set<Seq<char>>,
    out: Seq<Seq<char>>,
    anc: Set<Seq<char>>,
    r: (Set<Seq<char>>, Seq<Seq<char>>),
) -> bool {
    &&& r.0 == r.1.to_set().union(anc)
    &&& r.1.no_duplicates()
    &&& deps_before(g, r.1)
    &&& r.1.to_set().subset_of(g.dom())
    &&& r.1.subrange(0, out.len() as int) == out
    &&& out.len() <= r.1.len()
    &&& forall|j: int| out.len() <= j < r.1.len() ==> !vis.contains(#[trigger] r.1[j])
}

/// What a visit needs: the visited tasks are those output and those in progress, and the
/// output is well formed so far.
pub open spec fn visit_pre(
    g: Map<Seq<char>, Seq<Seq<char>>>,
    vis: Set<Seq<char>>,
    out: Seq<Seq<char>>,
    anc: Set<Seq<char>>,
) -> bool {
    &&& g.dom().finite()
    &&& dependencies_exist(g)
    &&& acyclic(g)
    &&& vis == out.to_set().union(anc)
    &&& out.no_duplicates()
    &&& deps_before(g, out)
    &&& out.to_set().subset_of(g.dom())
    &&& anc.subset_of(g.dom())
}

proof fn lemma_visit_topo(
    g: Map<Seq<char>, Seq<Seq<char>>>,
    n: Seq<char>,
    vis: Set<Seq<char>>,
    out: Seq<Seq<char>>,
    anc: Set<Seq<char>>,
)
    requires
        visit_pre(g, vis, out, anc),
        g.dom().contains(n),
        forall|a: Seq<char>| #[trigger] anc.contains(a) ==> reaches_plus(g, a, n),
    ensures
        visit_post(g, vis, out, anc, visit(g, n, vis, out)),
        visit(g, n, vis, out).1.to_set().contains(n),
        forall|j: int| out.len() <= j < visit(g, n, vis, out).1.len() ==> reaches(g, n, #[trigger] visit(g, n, vis, out).1[j]),
    decreases unvisited(g, vis), 0nat,
{
    let r = visit(g, n, vis, out);
    if vis.contains(n) {
        if anc.contains(n) {
            lemma_acyclic_no_loop(g, n);
        }
        assert(r.1.subrange(0, out.len() as int) =~= out);
    } else {
        lemma_unvisited_insert(g, vis, n);
        let l = children(g, n);
        let anc2 = anc.insert(n);
        let vis2 = vis.insert(n);
        lemma_sorted_set_of_finite(g[n]);
        assert forall|c: Seq<char>| #[trigger] l.contains(c) implies depends_on(g, n, c) by {
            assert(l.to_set().contains(c));
        }
        assert forall|a: Seq<char>, k: int| #[trigger] anc2.contains(a) && 0 <= k < l.len() implies reaches_plus(g, a, #[trigger] l[k]) by {
            assert(l.contains(l[k]));
            if a == n {
                lemma_edge_reaches_plus(g, n, l[k]);
            } else {
                lemma_reaches_plus_step(g, a, n, l[k]);
            }
        }
        assert forall|k: int| 0 <= k < l.len() implies g.dom().contains(#[trigger] l[k]) by {
            assert(l.contains(l[k]));
            assert(depends_on(g, n, l[k]));
        }
        assert(vis2 =~= out.to_set().union(anc2));
        lemma_visit_list_topo(g, l, vis2, out, anc2);
        let r1 = visit_list(g, l, vis2, out);
        assert(r == (r1.0, r1.1.push(n)));
        let o = r1.1;
        let o2 = o.push(n);
        // `n` is not among the outputs so far.
        assert(!o.contains(n)) by {
            if o.contains(n) {
                let j = choose|j: int| 0 <= j < o.len() && o[j] == n;
                if j < out.len() {
                    assert(o.subrange(0, out.len() as int)[j] == n);
                    assert(out.contains(n));
                    assert(out.to_set().contains(n));
                } else {
                    assert(!vis2.contains(o[j]));
                }
            }
        }
        o.lemma_push_to_set_commute(n);
        assert(r.0 =~= o2.to_set().union(anc));
        assert(o2.no_duplicates()) by {
            assert forall|x: int, y: int| 0 <= x < o2.len() && 0 <= y < o2.len() && x != y implies o2[x] != o2[y] by {
                if x < o.len() && y < o.len() {
                    assert(o2[x] == o[x] && o2[y] == o[y]);
                } else if x < o.len() {
                    assert(o2[x] == o[x]);
                    assert(o.contains(o[x]));
                } else {
                    assert(o2[y] == o[y]);
                    assert(o.contains(o[y]));
                }
            }
        }
        assert(deps_before(g, o2)) by {
            assert forall|i: int, c: Seq<char>| 0 <= i < o2.len() && #[trigger] depends_on(g, o2[i], c) implies #[trigger] o2.subrange(0, i).contains(c) by {
                if i < o.len() {
                    assert(o2[i] == o[i]);
                    assert(o.subrange(0, i).contains(c));
                    let j = choose|j: int| 0 <= j < i && o.subrange(0, i)[j] == c;
                    assert(o2.subrange(0, i)[j] == c);
                } else {
                    assert(o2[i] == n);
                    assert(l.to_set().contains(c));
                    let k = choose|k: int| 0 <= k < l.len() && l[k] == c;
                    assert(l.contains(l[k]));
                    assert(o.to_set().contains(c));
                    assert(o.contains(c));
                    let j = choose|j: int| 0 <= j < o.len() && o[j] == c;
                    assert(o2.subrange(0, i)[j] == c);
                }
            }
        }
        assert(o2.to_set().subset_of(g.dom()));
        assert(o2.subrange(0, out.len() as int) =~= out) by {
            assert(o2.subrange(0, out.len() as int) =~= o.subrange(0, out.len() as int));
        }
        assert forall|j: int| out.len() <= j < o2.len() implies !vis.contains(#[trigger] o2[j]) by {
            if j < o.len() {
                assert(o2[j] == o[j]);
                assert(!vis2.contains(o[j]));
            }
        }
        assert forall|j: int| out.len() <= j < o2.len() implies reaches(g, n, #[trigger] o2[j]) by {
            if j < o.len() {
                assert(o2[j] == o[j]);
                let k = choose|k: int| 0 <= k < l.len() && reaches(g, #[trigger] l[k], o[j]);
                assert(l.contains(l[k]));
                lemma_reach_prepend(g, n, l[k], o[j]);
            } else {
                lemma_reaches_refl(g, n);
            }
        }
        assert(o2[o.len() as int] == n);
        assert(o2.to_set().contains(n));
    }
}

proof fn lemma_reach_prepend(g: Map<Seq<char>, Seq<Seq<char>>>, n: Seq<char>, c: Seq<char>, x: Seq<char>)
    requires
        depends_on(g, n, c),
        reaches(g, c, x),
    ensures
        reaches(g, n, x),
{
    let p = choose|p: Seq<Seq<char>>| #[trigger] path_in(g, p) && p[0] == c && p.last() == x;
    let q = seq![n] + p;
    assert forall|k: int| 0 <= k < q.len() - 1 implies depends_on(g, #[trigger] q[k], q[k + 1]) by {
        if k > 0 {
            assert(q[k] == p[k - 1] && q[k + 1] == p[k]);
        }
    }
    assert(path_in(g, q));
}

proof fn lemma_sorted_set_of_finite(s: Seq<Seq<char>>)
    ensures
        crate::order::strictly_sorted(sorted_set(s.to_set())),
        sorted_set(s.to_set()).to_set() == s.to_set(),
{
    // A witness: the elements of `s` inserted one by one into a sorted sequence.
    let w = sorted_witness(s);
    assert(crate::order::strictly_sorted(w) && w.to_set() == s.to_set());
}

/// A strictly sorted sequence with the same elements as `s`.
proof fn sorted_witness(s: Seq<Seq<char>>) -> (w: Seq<Seq<char>>)
    ensures
        crate::order::strictly_sorted(w),
        w.to_set() == s.to_set(),
    decreases s.len(),
{
    if s.len() == 0 {
        assert(s.to_set() =~= Set::<Seq<char>>::empty());
        Seq::empty()
    } else {
        let w0 = sorted_witness(s.drop_last());
        let x = s.last();
        assert(s =~= s.drop_last().push(x));
        s.drop_last().lemma_push_to_set_commute(x);
        if w0.contains(x) {
            assert(w0.to_set().insert(x) =~= w0.to_set());
            w0
        } else {
            let i = crate::order::sorted_position(w0, x);
            crate::order::lemma_insert_keeps_sorted(w0, i, x);
            w0.insert(i, x)
        }
    }
}

/// Some task of `l` reaches `x`.
pub open spec fn reached_from(g: Map<Seq<char>, Seq<Seq<char>>>, l: Seq<Seq<char>>, x: Seq<char>) -> bool {
    exists|k: int| 0 <= k < l.len() && reaches(g, #[trigger] l[k], x)
}

proof fn lemma_visit_list_topo(
    g: Map<Seq<char>, Seq<Seq<char>>>,
    l: Seq<Seq<char>>,
    vis: Set<Seq<char>>,
    out: Seq<Seq<char>>,
    anc: Set<Seq<char>>,
)
    requires
        visit_pre(g, vis, out, anc),
        forall|k: int| 0 <= k < l.len() ==> g.dom().contains(#[trigger] l[k]),
        forall|a: Seq<char>, k: int| #[trigger] anc.contains(a) && 0 <= k < l.len() ==> reaches_plus(g, a, #[trigger] l[k]),
    ensures
        visit_post(g, vis, out, anc, visit_list(g, l, vis, out)),
        forall|k: int| 0 <= k < l.len() ==> visit_list(g, l, vis, out).1.to_set().contains(#[trigger] l[k]),
        forall|j: int| out.len() <= j < visit_list(g, l, vis, out).1.len() ==> reached_from(g, l, #[trigger] visit_list(g, l, vis, out).1[j]),
    decreases unvisited(g, vis), l.len() + 1,
{
    let r = visit_list(g, l, vis, out);
    if l.len() == 0 {
        assert(r.1.subrange(0, out.len() as int) =~= out);
    } else {
        assert forall|a: Seq<char>| #[trigger] anc.contains(a) implies reaches_plus(g, a, l[0]) by {
            assert(reaches_plus(g, a, l[0]));
        }
        lemma_visit_topo(g, l[0], vis, out, anc);
        let r0 = visit(g, l[0], vis, out);
        lemma_unvisited_union(g, vis, r0.0);
        assert(vis.subset_of(r0.0)) by {
            assert forall|x: Seq<char>| vis.contains(x) implies r0.0.contains(x) by {
                if out.to_set().contains(x) {
                    let j = choose|j: int| 0 <= j < out.len() && out[j] == x;
                    assert(r0.1.subrange(0, out.len() as int)[j] == x);
                    assert(r0.1[j] == x);
                    assert(r0.1.contains(x));
                }
            }
        }
        assert(r0.0.union(vis) =~= r0.0);
        let rest = l.drop_first();
        assert forall|a: Seq<char>, k: int| #[trigger] anc.contains(a) && 0 <= k < rest.len() implies reaches_plus(g, a, #[trigger] rest[k]) by {
            assert(rest[k] == l[k + 1]);
        }
        assert forall|k: int| 0 <= k < rest.len() implies g.dom().contains(#[trigger] rest[k]) by {
            assert(rest[k] == l[k + 1]);
        }
        lemma_visit_list_topo(g, rest, r0.0, r0.1, anc);
        let r1 = visit_list(g, rest, r0.0, r0.1);
        assert(r == r1);
        assert(r1.1.subrange(0, out.len() as int) =~= out) by {
            assert(r1.1.subrange(0, out.len() as int) =~= r1.1.subrange(0, r0.1.len() as int).subrange(0, out.len() as int));
        }
        assert forall|j: int| out.len() <= j < r1.1.len() implies !vis.contains(#[trigger] r1.1[j]) by {
            if j < r0.1.len() {
                assert(r1.1.subrange(0, r0.1.len() as int)[j] == r1.1[j]);
                assert(r0.1[j] == r1.1[j]);
            }
        }
        assert forall|k: int| 0 <= k < l.len() implies r1.1.to_set().contains(#[trigger] l[k]) by {
            if k == 0 {
                let j = choose|j: int| 0 <= j < r0.1.len() && r0.1[j] == l[0];
                assert(r1.1.subrange(0, r0.1.len() as int)[j] == l[0]);
                assert(r1.1[j] == l[0]);
                assert(r1.1.contains(l[0]));
            } else {
                assert(rest[k - 1] == l[k]);
            }
        }
        assert forall|j: int| out.len() <= j < r1.1.len() implies reached_from(g, l, #[trigger] r1.1[j]) by {
            if j < r0.1.len() {
                assert(r1.1.subrange(0, r0.1.len() as int)[j] == r1.1[j]);
                assert(r0.1[j] == r1.1[j]);
                assert(reaches(g, l[0], r0.1[j]));
                assert(l[0] == l[0]);
            } else {
                let k = choose|k: int| 0 <= k < rest.len() && reaches(g, #[trigger] rest[k], r1.1[j]);
                assert(rest[k] == l[k + 1]);
            }
        }
    }
}

/// The tasks that the requested tasks `roots` need, themselves included.
pub open spec fn needed(g: Map<Seq<char>, Seq<Seq<char>>>, roots: Set<Seq<char>>) -> Set<Seq<char>> {
    Set::new(|x: Seq<char>| exists|r: Seq<char>| #[trigger] roots.contains(r) && reaches(g, r, x))
}

/// For an acyclic graph whose dependencies are all tasks, the schedule is a topological sort
/// of the tasks that the requested tasks need: it holds each of them exactly once, nothing
/// else, and every task comes after all of its dependencies.
pub proof fn lemma_schedule_topological(g: Map<Seq<char>, Seq<Seq<char>>>, roots: Set<Seq<char>>)
    requires
        g.dom().finite(),
        dependencies_exist(g),
        acyclic(g),
        roots.finite(),
        roots.subset_of(g.dom()),
    ensures
        spec_schedule(g, roots).no_duplicates(),
        spec_schedule(g, roots).to_set() == needed(g, roots),
        deps_before(g, spec_schedule(g, roots)),
{
    let l = sorted_set(roots);
    let w = sorted_witness_of_set(roots);
    crate::order::lemma_sorted_unique(l, w);
    let out = Seq::<Seq<char>>::empty();
    let anc = Set::<Seq<char>>::empty();
    assert(out.to_set() =~= Set::<Seq<char>>::empty());
    assert(Set::<Seq<char>>::empty() =~= out.to_set().union(anc));
    assert forall|k: int| 0 <= k < l.len() implies g.dom().contains(#[trigger] l[k]) by {
        assert(l.to_set().contains(l[k]));
    }
    lemma_visit_list_topo(g, l, Set::empty(), out, anc);
    let s = spec_schedule(g, roots);
    assert(s.to_set() =~= needed(g, roots)) by {
        assert forall|x: Seq<char>| s.to_set().contains(x) implies needed(g, roots).contains(x) by {
            let j = choose|j: int| 0 <= j < s.len() && s[j] == x;
            let k = choose|k: int| 0 <= k < l.len() && reaches(g, #[trigger] l[k], s[j]);
            assert(l.to_set().contains(l[k]));
        }
        assert forall|x: Seq<char>| needed(g, roots).contains(x) implies s.to_set().contains(x) by {
            let r = choose|r: Seq<char>| #[trigger] roots.contains(r) && reaches(g, r, x);
            assert(l.to_set().contains(r));
            let k = choose|k: int| 0 <= k < l.len() && l[k] == r;
            assert(s.to_set().contains(l[k]));
            let p = choose|p: Seq<Seq<char>>| #[trigger] path_in(g, p) && p[0] == r && p.last() == x;
            assert forall|a: Seq<char>, b: Seq<char>| s.to_set().contains(a) && #[trigger] depends_on(g, a, b) implies s.to_set().contains(b) by {
                let i = choose|i: int| 0 <= i < s.len() && s[i] == a;
                assert(s.subrange(0, i).contains(b));
                let j = choose|j: int| 0 <= j < i && s.subrange(0, i)[j] == b;
                assert(s[j] == b);
                assert(s.contains(b));
            }
            lemma_closed_reach(g, s.to_set(), p);
        }
    }
}

/// A strictly sorted sequence with the elements of a finite set.
proof fn sorted_witness_of_set(s: Set<Seq<char>>) -> (w: Seq<Seq<char>>)
    requires
        s.finite(),
    ensures
        crate::order::strictly_sorted(w),
        w.to_set() == s,
        sorted_set(s) == w,
    decreases s.len(),
{
    if s.len() == 0 {
        s.lemma_len0_is_empty();
        let w = Seq::<Seq<char>>::empty();
        assert(w.to_set() =~= s);
        crate::order::lemma_sorted_set_of(w);
        w
    } else {
        let x = s.choose();
        let w0 = sorted_witness_of_set(s.remove(x));
        assert(!w0.contains(x)) by {
            if w0.contains(x) {
                assert(w0.to_set().contains(x));
            }
        }
        let i = crate::order::sorted_position(w0, x);
        crate::order::lemma_insert_keeps_sorted(w0, i, x);
        let w = w0.insert(i, x);
        assert(w.to_set() =~= s);
        crate::order::lemma_sorted_set_of(w);
        w
    }
}

/// The schedule depends only on the set of requested tasks, not on their order or
/// repetitions: `toast foo bar` and `toast bar foo` run the same schedule.
pub proof fn lemma_schedule_roots_order(g: Map<Seq<char>, Seq<Seq<char>>>, r1: Seq<Seq<char>>, r2: Seq<Seq<char>>)
    requires
        r1.to_set() == r2.to_set(),
    ensures
        spec_schedule(g, r1.to_set()) == spec_schedule(g, r2.to_set()),
{
}

/// Two graphs with the same tasks, each needing the same set of dependencies (listed in
/// any order, with any repetitions).
pub open spec fn same_needs(g1: Map<Seq<char>, Seq<Seq<char>>>, g2: Map<Seq<char>, Seq<Seq<char>>>) -> bool {
    g1.dom() == g2.dom() && forall|n: Seq<char>| #[trigger] g1.dom().contains(n) ==> g1[n].to_set() == g2[n].to_set()
}

proof fn lemma_visit_same(
    g1: Map<Seq<char>, Seq<Seq<char>>>,
    g2: Map<Seq<char>, Seq<Seq<char>>>,
    n: Seq<char>,
    vis: Set<Seq<char>>,
    out: Seq<Seq<char>>,
)
    requires
        same_needs(g1, g2),
    ensures
        visit(g1, n, vis, out) == visit(g2, n, vis, out),
    decreases unvisited(g1, vis), 0nat,
{
    if g1.dom().finite() && !vis.contains(n) && g1.dom().contains(n) {
        lemma_unvisited_insert(g1, vis, n);
        assert(children(g1, n) == children(g2, n));
        lemma_visit_list_same(g1, g2, children(g1, n), vis.insert(n), out);
    }
}

proof fn lemma_visit_list_same(
    g1: Map<Seq<char>, Seq<Seq<char>>>,
    g2: Map<Seq<char>, Seq<Seq<char>>>,
    l: Seq<Seq<char>>,
    vis: Set<Seq<char>>,
    out: Seq<Seq<char>>,
)
    requires
        same_needs(g1, g2),
    ensures
        visit_list(g1, l, vis, out) == visit_list(g2, l, vis, out),
    decreases unvisited(g1, vis), l.len() + 1,
{
    if g1.dom().finite() && l.len() > 0 {
        lemma_visit_same(g1, g2, l[0], vis, out);
        let r = visit(g1, l[0], vis, out);
        lemma_unvisited_union(g1, vis, r.0);
        lemma_visit_list_same(g1, g2, l.drop_first(), r.0.union(vis), r.1);
    }
}

/// The schedule does not depend on the order in which tasks list their dependencies, nor on
/// repeated dependencies: graphs in which each task needs the same set of tasks give the
/// same schedule.
pub proof fn lemma_schedule_dependency_order(
    g1: Map<Seq<char>, Seq<Seq<char>>>,
    g2: Map<Seq<char>, Seq<Seq<char>>>,
    roots: Set<Seq<char>>,
)
    requires
        same_needs(g1, g2),
    ensures
        spec_schedule(g1, roots) == spec_schedule(g2, roots),
{
    lemma_visit_list_same(g1, g2, sorted_set(roots), Set::empty(), Seq::empty());
}

} // verus!
