//! Toastfiles: the tasks they define, and the checks that make a toastfile valid.
use crate::dag::{
    acyclic, adj_closed, adj_view, dependencies_exist, depends_on, find_index_cycle, idx_cycle,
    idx_edge, is_cycle,
};
use crate::failure::Failure;
use crate::format::{code_rendering, code_str, series, spec_series};
use crate::order::sorted_set;
use crate::strmap::StringMap;
use crate::text::{
    contains_char, find_first, is_absolute, lemma_find_first_at, lemma_find_first_none,
    path_is_absolute,
};
use vstd::prelude::*;

verus! {

/// The default location for commands and files copied into the container.
pub const DEFAULT_LOCATION: &'static str = "/scratch";

/// The default user for commands and files copied into the container.
pub const DEFAULT_USER: &'static str = "root";

/// A task. Paths are written as strings, in the host's (Unix) notation.
#[derive(Debug, PartialEq, Eq)]
pub struct Task {
    pub description: Option<String>,
    /// Must name tasks of the toastfile, and the dependencies must not form a cycle.
    pub dependencies: Vec<String>,
    /// Must be disabled if `mount_paths` or `ports` is nonempty.
    pub cache: bool,
    /// Keys must not contain `=`.
    pub environment: StringMap<Option<String>>,
    /// Must be relative.
    pub input_paths: Vec<String>,
    /// Must be relative. Copied out of the container if the task succeeds.
    pub output_paths: Vec<String>,
    /// Copied out of the container if the task's command fails.
    pub output_paths_on_failure: Vec<String>,
    /// Can be relative or absolute; must not contain `,`.
    pub mount_paths: Vec<String>,
    pub mount_readonly: bool,
    pub ports: Vec<String>,
    /// Must be absolute.
    pub location: String,
    pub user: String,
    pub command: String,
    /// If present, used in place of the toastfile's command prefix.
    pub command_prefix: Option<String>,
}

/// A toastfile.
#[derive(Debug, PartialEq, Eq)]
pub struct Toastfile {
    pub image: String,
    /// If present, must name a task.
    pub default: Option<String>,
    /// Put before the command of every task that has no prefix of its own.
    pub command_prefix: String,
    pub tasks: StringMap<Task>,
}

/// Whether a task is cached unless it says otherwise.
pub fn default_task_cache() -> (b: bool)
    ensures
        b,
{
    true
}

/// Whether mount paths are read-only unless a task says otherwise.
pub fn default_task_mount_readonly() -> (b: bool)
    ensures
        !b,
{
    false
}

/// The location of a task that names none.
pub fn default_task_location() -> (s: String)
    ensures
        s@ == "/scratch"@,
{
    proof { reveal_strlit("/scratch"); }
    String::from_str("/scratch")
}

/// The user of a task that names none.
pub fn default_task_user() -> (s: String)
    ensures
        s@ == "root"@,
{
    proof { reveal_strlit("root"); }
    String::from_str("root")
}

/// A list of strings as character sequences.
pub open spec fn views(v: Seq<String>) -> Seq<Seq<char>> {
    v.map_values(|s: String| s@)
}

/// The command prefix that applies to a task: its own, or else the toastfile's.
pub open spec fn prefix_of(t: Toastfile, task: Task) -> Seq<char> {
    match task.command_prefix {
        Some(p) => p@,
        None => t.command_prefix@,
    }
}

/// The command a task runs: its command after the prefix that applies, on a line of its
/// own; under an empty prefix, the command as it is.
pub open spec fn full_command(t: Toastfile, task: Task) -> Seq<char> {
    let p = prefix_of(t, task);
    if p.len() == 0 {
        task.command@
    } else {
        p + "\n"@ + task.command@
    }
}

/// An optional string as an optional character sequence.
pub open spec fn opt_view(o: Option<String>) -> Option<Seq<char>> {
    match o {
        Some(s) => Some(s@),
        None => None,
    }
}

/// `b` is task `a` with everything but its command and its command prefix kept.
pub open spec fn same_but_command(a: Task, b: Task) -> bool {
    &&& opt_view(b.description) == opt_view(a.description)
    &&& views(b.dependencies@) == views(a.dependencies@)
    &&& b.cache == a.cache
    &&& b.environment@.dom() == a.environment@.dom()
    &&& forall|k: Seq<char>| #[trigger] b.environment@.dom().contains(k) ==> opt_view(b.environment@[k]) == opt_view(a.environment@[k])
    &&& views(b.input_paths@) == views(a.input_paths@)
    &&& views(b.output_paths@) == views(a.output_paths@)
    &&& views(b.output_paths_on_failure@) == views(a.output_paths_on_failure@)
    &&& views(b.mount_paths@) == views(a.mount_paths@)
    &&& b.mount_readonly == a.mount_readonly
    &&& views(b.ports@) == views(a.ports@)
    &&& b.location@ == a.location@
    &&& b.user@ == a.user@
}

/// A copy of a list of strings.
pub(crate) fn copy_strings(v: &Vec<String>) -> (r: Vec<String>)
    ensures
        views(r@) == views(v@),
{
    let mut r: Vec<String> = Vec::new();
    let mut i: usize = 0;
    while i < v.len()
        invariant
            i <= v.len(),
            views(r@) == views(v@).subrange(0, i as int),
        decreases v.len() - i,
    {
        let ghost before = views(r@);
        r.push(v[i].clone());
        assert(views(r@) =~= before.push(v@[i as int]@));
        assert(views(v@).subrange(0, i + 1) =~= views(v@).subrange(0, i as int).push(v@[i as int]@));
        i = i + 1;
    }
    assert(views(v@).subrange(0, v.len() as int) =~= views(v@));
    r
}

fn copy_option(o: &Option<String>) -> (r: Option<String>)
    ensures
        opt_view(r) == opt_view(*o),
{
    match o {
        Some(s) => Some(s.clone()),
        None => None,
    }
}

fn copy_variables(env: &StringMap<Option<String>>) -> (r: StringMap<Option<String>>)
    ensures
        r@.dom() == env@.dom(),
        forall|k: Seq<char>| #[trigger] r@.dom().contains(k) ==> opt_view(r@[k]) == opt_view(env@[k]),
{
    proof {
        use_type_invariant(env);
        env.lemma_entries();
    }
    let ghost ks = env.key_order();
    let mut r: StringMap<Option<String>> = StringMap::new();
    let mut i: usize = 0;
    while i < env.len()
        invariant
            ks == env.key_order(),
            env@.dom() == ks.to_set(),
            forall|j: int| 0 <= j < ks.len() ==> #[trigger] env@[ks[j]] == env.value_order()[j],
            i <= ks.len(),
            r@.dom() == ks.subrange(0, i as int).to_set(),
            forall|k: Seq<char>| #[trigger] r@.dom().contains(k) ==> opt_view(r@[k]) == opt_view(env@[k]),
        decreases ks.len() - i,
    {
        let key = env.key_at(i);
        let value = env.value_at(i);
        r.insert(key.clone(), copy_option(value));
        proof {
            let s0 = ks.subrange(0, i as int);
            let s1 = ks.subrange(0, i + 1);
            assert(s1 =~= s0.push(key@));
            assert(s1.to_set() =~= s0.to_set().insert(key@)) by {
                assert forall|y: Seq<char>| s1.to_set().contains(y) <==> s0.to_set().insert(key@).contains(y) by {
                    if s1.contains(y) {
                        let j = choose|j: int| 0 <= j < s1.len() && s1[j] == y;
                        if j < i {
                            assert(s0[j] == y);
                        }
                    }
                    if s0.contains(y) {
                        let j = choose|j: int| 0 <= j < s0.len() && s0[j] == y;
                        assert(s1[j] == y);
                    }
                    if y == key@ {
                        assert(s1[i as int] == y);
                    }
                }
            }
        }
        i = i + 1;
    }
    assert(ks.subrange(0, ks.len() as int) =~= ks);
    r
}

/// The task as it runs: its command put after the command prefix that applies (on a line of
/// its own, unless the prefix is empty), and nothing left to prefix; all else is kept. The
/// cache key of the task is taken of this command.
pub fn prefixed(toastfile: &Toastfile, task: &Task) -> (r: Task)
    ensures
        same_but_command(*task, r),
        r.command@ == full_command(*toastfile, *task),
        r.command_prefix matches Some(p) && p@.len() == 0,
        full_command(*toastfile, r) == r.command@,
{
    let prefix = match &task.command_prefix {
        Some(p) => p,
        None => &toastfile.command_prefix,
    };
    let command = if prefix.as_str().unicode_len() == 0 {
        task.command.clone()
    } else {
        proof { reveal_strlit("\n"); }
        let mut c = prefix.clone();
        c.append("\n");
        c.append(task.command.as_str());
        c
    };
    Task {
        description: copy_option(&task.description),
        dependencies: copy_strings(&task.dependencies),
        cache: task.cache,
        environment: copy_variables(&task.environment),
        input_paths: copy_strings(&task.input_paths),
        output_paths: copy_strings(&task.output_paths),
        output_paths_on_failure: copy_strings(&task.output_paths_on_failure),
        mount_paths: copy_strings(&task.mount_paths),
        mount_readonly: task.mount_readonly,
        ports: copy_strings(&task.ports),
        location: task.location.clone(),
        user: task.user.clone(),
        command,
        command_prefix: Some(String::new()),
    }
}

/// The names of the dependencies of a task.
pub open spec fn deps_of(t: Task) -> Seq<Seq<char>> {
    views(t.dependencies@)
}

/// The dependency graph of a set of tasks.
pub open spec fn dep_graph(tasks: Map<Seq<char>, Task>) -> Map<Seq<char>, Seq<Seq<char>>> {
    tasks.map_values(|t: Task| deps_of(t))
}

/// `adj` numbers the tasks of `tasks` by their position in key order.
pub open spec fn numbers(tasks: StringMap<Task>, adj: Seq<Seq<usize>>) -> bool {
    &&& adj.len() == tasks.key_order().len()
    &&& adj_closed(adj)
    &&& forall|i: int| 0 <= i < adj.len() ==> (#[trigger] adj[i]).len() == deps_of(tasks.value_order()[i]).len()
    &&& forall|i: int, k: int| 0 <= i < adj.len() && 0 <= k < adj[i].len() ==>
        tasks.key_order()[#[trigger] adj[i][k] as int] == deps_of(tasks.value_order()[i])[k]
}

/// Numbers the dependency graph of `tasks`, whose dependencies must all be tasks.
fn number_graph(tasks: &StringMap<Task>) -> (adj: Vec<Vec<usize>>)
    requires
        tasks.wf(),
        dependencies_exist(dep_graph(tasks@)),
    ensures
        numbers(*tasks, adj_view(&adj)),
{
    proof { tasks.lemma_entries(); }
    let ghost g = dep_graph(tasks@);
    let n = tasks.len();
    let mut adj: Vec<Vec<usize>> = Vec::new();
    let mut i: usize = 0;
    while i < n
        invariant
            tasks.wf(),
            g == dep_graph(tasks@),
            dependencies_exist(g),
            n == tasks.key_order().len(),
            n == tasks.value_order().len(),
            i <= n,
            adj.len() == i,
            forall|j: int| 0 <= j < i ==> (#[trigger] adj@[j]).len() == deps_of(tasks.value_order()[j]).len(),
            forall|j: int, k: int| 0 <= j < i && 0 <= k < adj@[j].len() ==> (#[trigger] adj@[j]@[k] as int) < n
                && tasks.key_order()[adj@[j]@[k] as int] == deps_of(tasks.value_order()[j])[k],
        decreases n - i,
    {
        proof { tasks.lemma_entries(); }
        let task = tasks.value_at(i);
        let ghost name = tasks.key_order()[i as int];
        let mut row: Vec<usize> = Vec::new();
        let mut k: usize = 0;
        while k < task.dependencies.len()
            invariant
                tasks.wf(),
                g == dep_graph(tasks@),
                dependencies_exist(g),
                n == tasks.key_order().len(),
                i < n,
                *task == tasks.value_order()[i as int],
                *task == tasks@[name],
                name == tasks.key_order()[i as int],
                k <= task.dependencies.len(),
                row.len() == k,
                forall|m: int| 0 <= m < k ==> (#[trigger] row@[m] as int) < n
                    && tasks.key_order()[row@[m] as int] == deps_of(*task)[m],
            decreases task.dependencies.len() - k,
        {
            let dep = &task.dependencies[k];
            proof {
                tasks.lemma_entries();
                assert(tasks@.dom().contains(name));
                assert(g[name] == deps_of(*task));
                assert(deps_of(*task)[k as int] == dep@);
                assert(depends_on(g, name, dep@));
            }
            match tasks.find(dep.as_str()) {
                Some(j) => {
                    row.push(j);
                },
                None => {
                    assert(false);
                    row.push(0);
                },
            }
            k = k + 1;
        }
        adj.push(row);
        i = i + 1;
    }
    proof {
        let a = adj_view(&adj);
        assert forall|j: int, k: int| 0 <= j < a.len() && 0 <= k < a[j].len() implies (#[trigger] a[j][k] as int) < a.len() by {
            assert(a[j] == adj@[j]@);
        }
        assert forall|j: int| 0 <= j < a.len() implies (#[trigger] a[j]).len() == deps_of(tasks.value_order()[j]).len() by {
            assert(a[j] == adj@[j]@);
        }
        assert forall|j: int, k: int| 0 <= j < a.len() && 0 <= k < a[j].len() implies
            tasks.key_order()[#[trigger] a[j][k] as int] == deps_of(tasks.value_order()[j])[k] by {
            assert(a[j] == adj@[j]@);
        }
    }
    adj
}

/// A cycle of the numbered graph, named, is a cycle of the dependency graph.
proof fn lemma_named_cycle(tasks: StringMap<Task>, a: Seq<Seq<usize>>, c: Seq<usize>)
    requires
        tasks.wf(),
        numbers(tasks, a),
        idx_cycle(a, c),
    ensures
        is_cycle(dep_graph(tasks@), c.map_values(|i: usize| tasks.key_order()[i as int])),
{
    tasks.lemma_entries();
    let ks = tasks.key_order();
    let g = dep_graph(tasks@);
    let names = c.map_values(|i: usize| ks[i as int]);
    assert forall|x: usize, y: usize| idx_edge(a, x, y) implies depends_on(g, ks[x as int], ks[y as int]) by {
        let m = choose|m: int| 0 <= m < a[x as int].len() && a[x as int][m] == y;
        assert(ks[a[x as int][m] as int] == deps_of(tasks.value_order()[x as int])[m]);
        assert(tasks@[ks[x as int]] == tasks.value_order()[x as int]);
        assert(tasks@.dom().contains(ks[x as int]));
        assert(g[ks[x as int]] == deps_of(tasks.value_order()[x as int]));
    }
    assert forall|k: int| 0 <= k < names.len() - 1 implies depends_on(g, #[trigger] names[k], names[k + 1]) by {
        assert(idx_edge(a, c[k], c[k + 1]));
    }
    assert(idx_edge(a, c.last(), c[0]));
}

/// A cycle of the dependency graph, numbered, is a cycle of the numbered graph.
proof fn lemma_numbered_cycle(tasks: StringMap<Task>, a: Seq<Seq<usize>>, c: Seq<Seq<char>>)
    requires
        tasks.wf(),
        numbers(tasks, a),
        a.len() <= usize::MAX,
        is_cycle(dep_graph(tasks@), c),
    ensures
        idx_cycle(a, c.map_values(|s: Seq<char>| tasks.key_order().index_of(s) as usize)),
{
    tasks.lemma_entries();
    let ks = tasks.key_order();
    let g = dep_graph(tasks@);
    let ic = c.map_values(|s: Seq<char>| ks.index_of(s) as usize);
    assert forall|x: Seq<char>, y: Seq<char>| depends_on(g, x, y) implies
        idx_edge(a, ks.index_of(x) as usize, ks.index_of(y) as usize) && ks[ks.index_of(x)] == x by {
        assert(ks.to_set().contains(x));
        assert(ks.contains(x));
        let i = ks.index_of(x);
        assert(ks[i] == x);
        assert(tasks@[x] == tasks.value_order()[i]);
        assert(g[x] == deps_of(tasks.value_order()[i]));
        let m = choose|m: int| 0 <= m < g[x].len() && g[x][m] == y;
        let j = a[i][m];
        assert(ks[j as int] == y);
        assert(ks.contains(y));
        let jy = ks.index_of(y);
        assert(ks[jy] == y);
        assert(jy == j as int);
        assert(a[i][m] == j);
        assert((jy as usize) == j);
        assert(((i as usize) as int) == i);
        assert(a[(i as usize) as int].contains(j));
    }
    assert forall|k: int| 0 <= k < ic.len() - 1 implies idx_edge(a, #[trigger] ic[k], ic[k + 1]) by {
        assert(depends_on(g, c[k], c[k + 1]));
    }
    assert(depends_on(g, c.last(), c[0]));
}

/// Finds a cycle among the dependencies of `tasks`, whose dependencies must all be tasks.
/// Each task in the returned cycle depends on the next, and the last on the first.
pub fn find_cycle(tasks: &StringMap<Task>) -> (r: Option<Vec<String>>)
    requires
        dependencies_exist(dep_graph(tasks@)),
    ensures
        r is None <==> acyclic(dep_graph(tasks@)),
        r matches Some(c) ==> is_cycle(dep_graph(tasks@), views(c@)) && views(c@).no_duplicates(),
{
    proof { use_type_invariant(tasks); }
    let adj = number_graph(tasks);
    let ghost alen = adj.len();
    assert(adj_view(&adj).len() == alen);
    match find_index_cycle(&adj) {
        None => {
            proof {
                assert forall|c: Seq<Seq<char>>| !is_cycle(dep_graph(tasks@), c) by {
                    if is_cycle(dep_graph(tasks@), c) {
                        lemma_numbered_cycle(*tasks, adj_view(&adj), c);
                    }
                }
            }
            None
        },
        Some(ic) => {
            proof {
                tasks.lemma_entries();
                lemma_named_cycle(*tasks, adj_view(&adj), ic@);
            }
            let mut names: Vec<String> = Vec::new();
            let mut k: usize = 0;
            while k < ic.len()
                invariant
                    tasks.wf(),
                    k <= ic.len(),
                    forall|m: int| 0 <= m < ic.len() ==> (#[trigger] ic@[m] as int) < tasks.key_order().len(),
                    views(names@) == ic@.subrange(0, k as int).map_values(|i: usize| tasks.key_order()[i as int]),
                decreases ic.len() - k,
            {
                let name = tasks.key_at(ic[k]).clone();
                let ghost before = views(names@);
                names.push(name);
                assert(views(names@) =~= before.push(name@));
                assert(ic@.subrange(0, k + 1).drop_last() =~= ic@.subrange(0, k as int));
                assert(views(names@) =~= ic@.subrange(0, k + 1).map_values(|i: usize| tasks.key_order()[i as int]));
                k = k + 1;
            }
            proof {
                assert(ic@.subrange(0, ic.len() as int) =~= ic@);
                let v = views(names@);
                assert(v.no_duplicates()) by {
                    tasks.lemma_entries();
                    assert forall|x: int, y: int| 0 <= x < v.len() && 0 <= y < v.len() && x != y implies v[x] != v[y] by {
                        assert(ic@[x] != ic@[y]);
                        assert(tasks.key_order().no_duplicates());
                    }
                }
                assert(!acyclic(dep_graph(tasks@)));
            }
            Some(names)
        },
    }
}

/// Each string of `rs` renders the corresponding name of `names` as code.
pub open spec fn renders(rs: Seq<Seq<char>>, names: Seq<Seq<char>>) -> bool {
    rs.len() == names.len() && forall|i: int| 0 <= i < rs.len() ==> code_rendering(#[trigger] rs[i], names[i])
}

/// Renders each name as code.
pub fn render_all(names: &Vec<String>) -> (rs: Vec<String>)
    ensures
        renders(views(rs@), views(names@)),
{
    let mut rs: Vec<String> = Vec::new();
    let mut i: usize = 0;
    while i < names.len()
        invariant
            i <= names.len(),
            renders(views(rs@), views(names@).subrange(0, i as int)),
        decreases names.len() - i,
    {
        let r = code_str(names[i].as_str());
        let ghost before = views(rs@);
        rs.push(r);
        assert(views(rs@) =~= before.push(r@));
        assert(views(names@).subrange(0, i + 1) =~= views(names@).subrange(0, i as int).push(names@[i as int]@));
        i = i + 1;
    }
    assert(views(names@).subrange(0, names.len() as int) =~= views(names@));
    rs
}

/// The dependencies among `deps` that are not in `dom`, in order.
pub open spec fn missing_of(deps: Seq<Seq<char>>, dom: Set<Seq<char>>) -> Seq<Seq<char>>
    decreases deps.len(),
{
    if deps.len() == 0 {
        Seq::empty()
    } else {
        let prev = missing_of(deps.drop_last(), dom);
        if dom.contains(deps.last()) {
            prev
        } else {
            prev.push(deps.last())
        }
    }
}

/// For the tasks `ks` in order, each task that lists dependencies which are not tasks,
/// with those dependencies.
pub open spec fn violations_in(g: Map<Seq<char>, Seq<Seq<char>>>, ks: Seq<Seq<char>>) -> Seq<(Seq<char>, Seq<Seq<char>>)>
    decreases ks.len(),
{
    if ks.len() == 0 {
        Seq::empty()
    } else {
        let prev = violations_in(g, ks.drop_last());
        let m = missing_of(g[ks.last()], g.dom());
        if m.len() > 0 {
            prev.push((ks.last(), m))
        } else {
            prev
        }
    }
}

/// The tasks, in name order, that list dependencies which are not tasks, with those
/// dependencies.
pub open spec fn spec_violations(tasks: Map<Seq<char>, Task>) -> Seq<(Seq<char>, Seq<Seq<char>>)> {
    violations_in(dep_graph(tasks), sorted_set(tasks.dom()))
}

proof fn lemma_missing_empty(deps: Seq<Seq<char>>, dom: Set<Seq<char>>)
    ensures
        missing_of(deps, dom).len() == 0 <==> forall|k: int| 0 <= k < deps.len() ==> dom.contains(#[trigger] deps[k]),
    decreases deps.len(),
{
    if deps.len() > 0 {
        lemma_missing_empty(deps.drop_last(), dom);
        if missing_of(deps, dom).len() == 0 {
            assert forall|k: int| 0 <= k < deps.len() implies dom.contains(#[trigger] deps[k]) by {
                if k < deps.len() - 1 {
                    assert(deps.drop_last()[k] == deps[k]);
                }
            }
        } else {
            if forall|k: int| 0 <= k < deps.len() ==> dom.contains(#[trigger] deps[k]) {
                assert forall|k: int| 0 <= k < deps.drop_last().len() implies dom.contains(#[trigger] deps.drop_last()[k]) by {
                    assert(deps.drop_last()[k] == deps[k]);
                }
                assert(dom.contains(deps[deps.len() - 1]));
            }
        }
    }
}

proof fn lemma_violations_empty(g: Map<Seq<char>, Seq<Seq<char>>>, ks: Seq<Seq<char>>)
    ensures
        violations_in(g, ks).len() == 0 <==> forall|i: int| 0 <= i < ks.len() ==> missing_of(g[#[trigger] ks[i]], g.dom()).len() == 0,
    decreases ks.len(),
{
    if ks.len() > 0 {
        lemma_violations_empty(g, ks.drop_last());
        if violations_in(g, ks).len() == 0 {
            assert forall|i: int| 0 <= i < ks.len() implies missing_of(g[#[trigger] ks[i]], g.dom()).len() == 0 by {
                if i < ks.len() - 1 {
                    assert(ks.drop_last()[i] == ks[i]);
                }
            }
        } else {
            if forall|i: int| 0 <= i < ks.len() ==> missing_of(g[#[trigger] ks[i]], g.dom()).len() == 0 {
                assert forall|i: int| 0 <= i < ks.drop_last().len() implies missing_of(g[#[trigger] ks.drop_last()[i]], g.dom()).len() == 0 by {
                    assert(ks.drop_last()[i] == ks[i]);
                }
                assert(missing_of(g[ks[ks.len() - 1]], g.dom()).len() == 0);
            }
        }
    }
}

/// No violations exactly when every dependency is a task.
pub proof fn lemma_no_violations(tasks: StringMap<Task>)
    requires
        tasks.wf(),
    ensures
        spec_violations(tasks@).len() == 0 <==> dependencies_exist(dep_graph(tasks@)),
{
    tasks.lemma_entries();
    let g = dep_graph(tasks@);
    let ks = sorted_set(tasks@.dom());
    lemma_violations_empty(g, ks);
    assert(g.dom() == tasks@.dom());
    if spec_violations(tasks@).len() == 0 {
        assert forall|a: Seq<char>, b: Seq<char>| #[trigger] depends_on(g, a, b) implies g.dom().contains(b) by {
            assert(ks.to_set().contains(a));
            let i = choose|i: int| 0 <= i < ks.len() && ks[i] == a;
            assert(missing_of(g[ks[i]], g.dom()).len() == 0);
            lemma_missing_empty(g[a], g.dom());
            let k = choose|k: int| 0 <= k < g[a].len() && g[a][k] == b;
        }
    } else {
        let i = choose|i: int| 0 <= i < ks.len() && missing_of(g[#[trigger] ks[i]], g.dom()).len() != 0;
        let a = ks[i];
        assert(ks.to_set().contains(a));
        lemma_missing_empty(g[a], g.dom());
        let k = choose|k: int| 0 <= k < g[a].len() && !g.dom().contains(#[trigger] g[a][k]);
        assert(depends_on(g, a, g[a][k]));
    }
}

/// The views of a list of violations.
pub open spec fn violation_views(v: Seq<(String, Vec<String>)>) -> Seq<(Seq<char>, Seq<Seq<char>>)> {
    v.map_values(|p: (String, Vec<String>)| (p.0@, views(p.1@)))
}

/// Lists, for each task in name order, the dependencies it names which are not tasks
/// (tasks without such dependencies are left out).
pub fn dependency_violations(tasks: &StringMap<Task>) -> (r: Vec<(String, Vec<String>)>)
    ensures
        violation_views(r@) == spec_violations(tasks@),
{
    proof {
        use_type_invariant(tasks);
        tasks.lemma_entries();
    }
    let ghost g = dep_graph(tasks@);
    let ghost ks = tasks.key_order();
    let n = tasks.len();
    let mut r: Vec<(String, Vec<String>)> = Vec::new();
    let mut i: usize = 0;
    while i < n
        invariant
            tasks.wf(),
            g == dep_graph(tasks@),
            ks == tasks.key_order(),
            ks == sorted_set(tasks@.dom()),
            n == ks.len(),
            i <= n,
            violation_views(r@) == violations_in(g, ks.subrange(0, i as int)),
        decreases n - i,
    {
        proof { tasks.lemma_entries(); }
        let name = tasks.key_at(i);
        let task = tasks.value_at(i);
        assert(g.dom() == tasks@.dom());
        assert(g[ks[i as int]] == deps_of(*task));
        let mut missing: Vec<String> = Vec::new();
        let mut k: usize = 0;
        while k < task.dependencies.len()
            invariant
                tasks.wf(),
                g == dep_graph(tasks@),
                g.dom() == tasks@.dom(),
                k <= task.dependencies.len(),
                views(missing@) == missing_of(deps_of(*task).subrange(0, k as int), g.dom()),
            decreases task.dependencies.len() - k,
        {
            let dep = &task.dependencies[k];
            let ghost before = views(missing@);
            assert(deps_of(*task).subrange(0, k + 1).drop_last() =~= deps_of(*task).subrange(0, k as int));
            assert(deps_of(*task).subrange(0, k + 1).last() == dep@);
            if !tasks.contains_key(dep.as_str()) {
                missing.push(dep.clone());
                assert(views(missing@) =~= before.push(dep@));
            }
            k = k + 1;
        }
        assert(deps_of(*task).subrange(0, task.dependencies.len() as int) =~= deps_of(*task));
        let ghost before = violation_views(r@);
        assert(ks.subrange(0, i + 1).drop_last() =~= ks.subrange(0, i as int));
        assert(ks.subrange(0, i + 1).last() == name@);
        if missing.len() > 0 {
            r.push((name.clone(), missing));
            assert(violation_views(r@) =~= before.push((name@, missing_of(g[name@], g.dom()))));
        }
        i = i + 1;
    }
    assert(ks.subrange(0, n as int) =~= ks);
    r
}

/// The default task, if one is named, is a task.
pub open spec fn default_valid(t: Toastfile) -> bool {
    t.default matches Some(d) ==> t.tasks@.dom().contains(d@)
}

/// `item` describes one task with invalid dependencies: the task's name, then its
/// invalid dependencies in parentheses.
pub open spec fn describes_violation(item: Seq<char>, name: Seq<char>, deps: Seq<Seq<char>>) -> bool {
    exists|r: Seq<char>, rs: Seq<Seq<char>>|
        #![trigger code_rendering(r, name), renders(rs, deps)]
        code_rendering(r, name) && renders(rs, deps) && item == r + " ("@ + spec_series(rs) + ")"@
}

/// `items` describe the violations one by one.
pub open spec fn describes_violations(items: Seq<Seq<char>>, vs: Seq<(Seq<char>, Seq<Seq<char>>)>) -> bool {
    items.len() == vs.len() && forall|i: int| 0 <= i < items.len() ==> describes_violation(#[trigger] items[i], vs[i].0, vs[i].1)
}

/// How a cycle is described, given the renderings of its tasks.
pub open spec fn spec_cycle_text(rs: Seq<Seq<char>>) -> Seq<char> {
    if rs.len() == 1 {
        rs[0] + " depends on itself."@
    } else if rs.len() == 2 {
        rs[0] + " and "@ + rs[1] + " depend on each other."@
    } else {
        spec_series(Seq::new(rs.len(), |i: int| rs[i] + " depends on "@ + rs[(i + 1) % (rs.len() as int)])) + "."@
    }
}

/// The message given when the dependencies of a toastfile are not valid.
pub open spec fn dependency_message(t: Toastfile, m: Seq<char>) -> bool {
    let vs = spec_violations(t.tasks@);
    let g = dep_graph(t.tasks@);
    if vs.len() > 0 {
        exists|items: Seq<Seq<char>>| #[trigger] describes_violations(items, vs) && if default_valid(t) {
            m == "The following tasks have invalid dependencies: "@ + spec_series(items) + "."@
        } else {
            exists|r: Seq<char>| #[trigger] code_rendering(r, t.default->0@) && m == "The default task "@ + r
                + " does not exist, and the following tasks have invalid dependencies: "@ + spec_series(items) + "."@
        }
    } else if !default_valid(t) {
        exists|r: Seq<char>| #[trigger] code_rendering(r, t.default->0@) && m == "The default task "@ + r + " does not exist."@
    } else {
        exists|c: Seq<Seq<char>>, rs: Seq<Seq<char>>|
            #![trigger is_cycle(g, c), renders(rs, c)]
            is_cycle(g, c) && renders(rs, c) && m == "The dependencies are cyclic. "@ + spec_cycle_text(rs)
    }
}

/// Describes a cycle whose tasks are rendered as `rs`.
fn cycle_text(rs: &Vec<String>) -> (res: String)
    requires
        rs.len() > 0,
    ensures
        res@ == spec_cycle_text(views(rs@)),
{
    proof {
        reveal_strlit(" depends on itself.");
        reveal_strlit(" and ");
        reveal_strlit(" depend on each other.");
        reveal_strlit(" depends on ");
        reveal_strlit(".");
    }
    let n = rs.len();
    if n == 1 {
        let mut res = rs[0].clone();
        res.append(" depends on itself.");
        res
    } else if n == 2 {
        let mut res = rs[0].clone();
        res.append(" and ");
        res.append(rs[1].as_str());
        res.append(" depend on each other.");
        res
    } else {
        let ghost v = views(rs@);
        let ghost want = Seq::new(v.len(), |i: int| v[i] + " depends on "@ + v[(i + 1) % (v.len() as int)]);
        let mut items: Vec<String> = Vec::new();
        let mut i: usize = 0;
        while i < n
            invariant
                n == rs.len(),
                v == views(rs@),
                want == Seq::new(v.len(), |i: int| v[i] + " depends on "@ + v[(i + 1) % (v.len() as int)]),
                i <= n,
                views(items@) == want.subrange(0, i as int),
            decreases n - i,
        {
            let next = if i + 1 == n { 0 } else { i + 1 };
            proof {
                if i + 1 == n {
                    assert((n as int) % (n as int) == 0) by (nonlinear_arith)
                        requires
                            n > 0,
                    ;
                } else {
                    let j = (i + 1) as int;
                    assert(j % (n as int) == j) by (nonlinear_arith)
                        requires
                            0 <= j < n,
                    ;
                }
            }
            assert(next as int == (i + 1) % (n as int));
            let mut item = rs[i].clone();
            item.append(" depends on ");
            item.append(rs[next].as_str());
            let ghost before = views(items@);
            items.push(item);
            assert(views(items@) =~= before.push(item@));
            assert(want.subrange(0, i + 1) =~= want.subrange(0, i as int).push(want[i as int]));
            i = i + 1;
        }
        assert(want.subrange(0, n as int) =~= want);
        let mut res = series(items.as_slice());
        res.append(".");
        res
    }
}

/// Describes one task with invalid dependencies.
fn violation_item(v: &(String, Vec<String>)) -> (item: String)
    ensures
        describes_violation(item@, v.0@, views(v.1@)),
{
    proof { reveal_strlit(" ("); reveal_strlit(")"); }
    let r = code_str(v.0.as_str());
    let rs = render_all(&v.1);
    let listed = series(rs.as_slice());
    let mut item = r.clone();
    item.append(" (");
    item.append(listed.as_str());
    item.append(")");
    assert(listed@ == spec_series(views(rs@)));
    assert(item@ == r@ + " ("@ + spec_series(views(rs@)) + ")"@);
    assert(code_rendering(r@, v.0@) && renders(views(rs@), views(v.1@)));
    item
}

/// Describes each task of `violations` with the names it lists, one item per task.
pub(crate) fn describe_all(violations: &Vec<(String, Vec<String>)>) -> (items: Vec<String>)
    ensures
        describes_violations(views(items@), violation_views(violations@)),
{
    let ghost vs = violation_views(violations@);
    let mut items: Vec<String> = Vec::new();
    let mut i: usize = 0;
    while i < violations.len()
        invariant
            i <= violations.len(),
            violation_views(violations@) == vs,
            describes_violations(views(items@), vs.subrange(0, i as int)),
        decreases violations.len() - i,
    {
        let item = violation_item(&violations[i]);
        let ghost before = views(items@);
        items.push(item);
        assert(views(items@) =~= before.push(item@));
        assert(vs.subrange(0, i + 1) =~= vs.subrange(0, i as int).push(vs[i as int]));
        i = i + 1;
    }
    assert(vs.subrange(0, violations.len() as int) =~= vs);
    items
}

/// Checks that the default task and all dependencies exist and that the dependencies form
/// no cycle.
pub fn check_dependencies(toastfile: &Toastfile) -> (r: Result<(), Failure>)
    ensures
        r is Ok <==> (default_valid(*toastfile) && dependencies_exist(dep_graph(toastfile.tasks@))
            && acyclic(dep_graph(toastfile.tasks@))),
        r matches Err(e) ==> e matches Failure::User(m, None) && dependency_message(*toastfile, m@),
{
    proof { use_type_invariant(&toastfile.tasks); }
    let valid_default = match &toastfile.default {
        Some(d) => toastfile.tasks.contains_key(d.as_str()),
        None => true,
    };
    let violations = dependency_violations(&toastfile.tasks);
    proof { lemma_no_violations(toastfile.tasks); }
    let ghost vs = spec_violations(toastfile.tasks@);
    if violations.len() > 0 {
        let items = describe_all(&violations);
        let listed = series(items.as_slice());
        proof {
            reveal_strlit("The following tasks have invalid dependencies: ");
            reveal_strlit("The default task ");
            reveal_strlit(" does not exist, and the following tasks have invalid dependencies: ");
            reveal_strlit(".");
        }
        if valid_default {
            let mut m = String::from_str("The following tasks have invalid dependencies: ");
            m.append(listed.as_str());
            m.append(".");
            return Err(Failure::User(m, None));
        } else {
            let d = match &toastfile.default {
                Some(d) => d,
                None => { assert(false); return Err(Failure::Interrupted); },
            };
            let r = code_str(d.as_str());
            let mut m = String::from_str("The default task ");
            m.append(r.as_str());
            m.append(" does not exist, and the following tasks have invalid dependencies: ");
            m.append(listed.as_str());
            m.append(".");
            return Err(Failure::User(m, None));
        }
    } else if !valid_default {
        let d = match &toastfile.default {
            Some(d) => d,
            None => { assert(false); return Err(Failure::Interrupted); },
        };
        proof {
            reveal_strlit("The default task ");
            reveal_strlit(" does not exist.");
        }
        let r = code_str(d.as_str());
        let mut m = String::from_str("The default task ");
        m.append(r.as_str());
        m.append(" does not exist.");
        return Err(Failure::User(m, None));
    }
    match find_cycle(&toastfile.tasks) {
        None => Ok(()),
        Some(c) => {
            let rs = render_all(&c);
            proof { reveal_strlit("The dependencies are cyclic. "); }
            let mut m = String::from_str("The dependencies are cyclic. ");
            m.append(cycle_text(&rs).as_str());
            assert(renders(views(rs@), views(c@)));
            Err(Failure::User(m, None))
        },
    }
}

/// `m` reads `a x b y c z d`, with `x`, `y` and `z` rendered as code.
pub open spec fn phrased3(
    m: Seq<char>,
    a: Seq<char>,
    x: Seq<char>,
    b: Seq<char>,
    y: Seq<char>,
    c: Seq<char>,
    z: Seq<char>,
    d: Seq<char>,
) -> bool {
    exists|r1: Seq<char>, r2: Seq<char>, r3: Seq<char>|
        #![trigger code_rendering(r1, x), code_rendering(r2, y), code_rendering(r3, z)]
        code_rendering(r1, x) && code_rendering(r2, y) && code_rendering(r3, z) && m == a + r1 + b + r2 + c
            + r3 + d
}

/// `m` reads `a x b y c`, with `x` and `y` rendered as code.
pub open spec fn phrased2(m: Seq<char>, a: Seq<char>, x: Seq<char>, b: Seq<char>, y: Seq<char>, c: Seq<char>) -> bool {
    exists|r1: Seq<char>, r2: Seq<char>|
        #![trigger code_rendering(r1, x), code_rendering(r2, y)]
        code_rendering(r1, x) && code_rendering(r2, y) && m == a + r1 + b + r2 + c
}

/// Builds `a x b y c z d`, with `x`, `y` and `z` rendered as code.
fn phrase3(a: &str, x: &str, b: &str, y: &str, c: &str, z: &str, d: &str) -> (m: String)
    ensures
        phrased3(m@, a@, x@, b@, y@, c@, z@, d@),
{
    let r1 = code_str(x);
    let r2 = code_str(y);
    let r3 = code_str(z);
    let mut m = String::from_str(a);
    m.append(r1.as_str());
    m.append(b);
    m.append(r2.as_str());
    m.append(c);
    m.append(r3.as_str());
    m.append(d);
    assert(code_rendering(r1@, x@) && code_rendering(r2@, y@) && code_rendering(r3@, z@));
    m
}

/// Builds `a x b y c`, with `x` and `y` rendered as code.
pub(crate) fn phrase2(a: &str, x: &str, b: &str, y: &str, c: &str) -> (m: String)
    ensures
        phrased2(m@, a@, x@, b@, y@, c@),
{
    let r1 = code_str(x);
    let r2 = code_str(y);
    let mut m = String::from_str(a);
    m.append(r1.as_str());
    m.append(b);
    m.append(r2.as_str());
    m.append(c);
    assert(code_rendering(r1@, x@) && code_rendering(r2@, y@));
    m
}

/// Names that contain `=`.
pub open spec fn has_equals() -> spec_fn(Seq<char>) -> bool {
    |s: Seq<char>| s.contains('=')
}

/// Paths that contain `,`.
pub open spec fn has_comma() -> spec_fn(Seq<char>) -> bool {
    |s: Seq<char>| s.contains(',')
}

/// Absolute paths.
pub open spec fn absolute() -> spec_fn(Seq<char>) -> bool {
    |s: Seq<char>| is_absolute(s)
}

/// The environment variables of a task, in name order.
pub open spec fn env_keys(t: Task) -> Seq<Seq<char>> {
    sorted_set(t.environment@.dom())
}

/// A task is valid when its variable names have no `=`, its input and output paths are
/// relative, its mount paths have no `,`, its location is absolute, and it disables caching
/// if it exposes ports or mounts paths.
pub open spec fn task_valid(t: Task) -> bool {
    &&& find_first(env_keys(t), has_equals()) is None
    &&& find_first(views(t.input_paths@), absolute()) is None
    &&& find_first(views(t.output_paths@), absolute()) is None
    &&& find_first(views(t.mount_paths@), has_comma()) is None
    &&& is_absolute(t.location@)
    &&& !(t.ports.len() > 0 && t.cache)
    &&& !(t.mount_paths.len() > 0 && t.cache)
}

/// The message given for the first problem found with task `name`, checking in the order
/// of `task_valid`.
pub open spec fn task_message(name: Seq<char>, t: Task, m: Seq<char>) -> bool {
    if let Some(v) = find_first(env_keys(t), has_equals()) {
        phrased3(m, "Environment variable "@, v, " of task "@, name, " contains "@, "="@, "."@)
    } else if let Some(p) = find_first(views(t.input_paths@), absolute()) {
        phrased3(m, "Task "@, name, " has an absolute "@, "input_path"@, ": "@, p, "."@)
    } else if let Some(p) = find_first(views(t.output_paths@), absolute()) {
        phrased3(m, "Task "@, name, " has an absolute "@, "output_path"@, ": "@, p, "."@)
    } else if let Some(p) = find_first(views(t.mount_paths@), has_comma()) {
        phrased3(m, "Mount path "@, p, " of task "@, name, " has a "@, ","@, "."@)
    } else if !is_absolute(t.location@) {
        phrased3(m, "Task "@, name, " has a relative "@, "location"@, ": "@, t.location@, "."@)
    } else if t.ports.len() > 0 && t.cache {
        phrased2(
            m,
            "Task "@,
            name,
            " exposes ports but does not disable caching. To fix this, set "@,
            "cache: false"@,
            " for this"@ + " task."@,
        )
    } else {
        phrased3(
            m,
            "Task "@,
            name,
            " has "@,
            "mount_paths"@,
            " but does not disable caching. To fix this, set "@,
            "cache: false"@,
            " for this"@ + " task."@,
        )
    }
}

/// The position of the first path of `v` that contains a comma.
fn first_with_comma(v: &Vec<String>) -> (r: Option<usize>)
    ensures
        match r {
            Some(i) => i < v.len() && find_first(views(v@), has_comma()) == Some(v@[i as int]@),
            None => find_first(views(v@), has_comma()) is None,
        },
{
    let mut i: usize = 0;
    while i < v.len()
        invariant
            i <= v.len(),
            forall|j: int| 0 <= j < i ==> !has_comma()(#[trigger] views(v@)[j]),
        decreases v.len() - i,
    {
        if contains_char(v[i].as_str(), ',') {
            proof { lemma_find_first_at(views(v@), has_comma(), i as int); }
            return Some(i);
        }
        i = i + 1;
    }
    proof { lemma_find_first_none(views(v@), has_comma()); }
    None
}

/// The position of the first absolute path of `v`.
fn first_absolute(v: &Vec<String>) -> (r: Option<usize>)
    ensures
        match r {
            Some(i) => i < v.len() && find_first(views(v@), absolute()) == Some(v@[i as int]@),
            None => find_first(views(v@), absolute()) is None,
        },
{
    let mut i: usize = 0;
    while i < v.len()
        invariant
            i <= v.len(),
            forall|j: int| 0 <= j < i ==> !absolute()(#[trigger] views(v@)[j]),
        decreases v.len() - i,
    {
        if path_is_absolute(v[i].as_str()) {
            proof { lemma_find_first_at(views(v@), absolute(), i as int); }
            return Some(i);
        }
        i = i + 1;
    }
    proof { lemma_find_first_none(views(v@), absolute()); }
    None
}

/// The first environment variable of `t`, in name order, whose name contains `=`.
fn first_env_with_equals(t: &Task) -> (r: Option<&String>)
    ensures
        match r {
            Some(k) => find_first(env_keys(*t), has_equals()) == Some(k@),
            None => find_first(env_keys(*t), has_equals()) is None,
        },
{
    let env = &t.environment;
    proof {
        use_type_invariant(env);
        env.lemma_entries();
    }
    let n = env.len();
    let mut i: usize = 0;
    while i < n
        invariant
            n == env.key_order().len(),
            env.key_order() == env_keys(*t),
            env == &t.environment,
            i <= n,
            forall|j: int| 0 <= j < i ==> !has_equals()(#[trigger] env.key_order()[j]),
        decreases n - i,
    {
        let k = env.key_at(i);
        if contains_char(k.as_str(), '=') {
            proof { lemma_find_first_at(env.key_order(), has_equals(), i as int); }
            return Some(k);
        }
        i = i + 1;
    }
    proof { lemma_find_first_none(env.key_order(), has_equals()); }
    None
}

/// Checks that a task is valid.
pub fn check_task(name: &str, task: &Task) -> (r: Result<(), Failure>)
    ensures
        r is Ok <==> task_valid(*task),
        r matches Err(e) ==> e matches Failure::User(m, None) && task_message(name@, *task, m@),
{
    proof {
        reveal_strlit("Environment variable ");
        reveal_strlit(" of task ");
        reveal_strlit(" contains ");
        reveal_strlit("=");
        reveal_strlit(".");
        reveal_strlit("Task ");
        reveal_strlit(" has an absolute ");
        reveal_strlit("input_path");
        reveal_strlit("output_path");
        reveal_strlit(": ");
        reveal_strlit("Mount path ");
        reveal_strlit(" has a ");
        reveal_strlit(",");
        reveal_strlit(" has a relative ");
        reveal_strlit("location");
        reveal_strlit(" exposes ports but does not disable caching. To fix this, set ");
        reveal_strlit("cache: false");
        reveal_strlit(" for this");
        reveal_strlit(" task.");
        reveal_strlit(" has ");
        reveal_strlit("mount_paths");
        reveal_strlit(" but does not disable caching. To fix this, set ");
    }
    // Environment variable names must not contain `=`.
    if let Some(variable) = first_env_with_equals(task) {
        return Err(Failure::User(phrase3("Environment variable ", variable.as_str(), " of task ", name, " contains ", "=", "."), None));
    }
    // Input paths must be relative.
    if let Some(i) = first_absolute(&task.input_paths) {
        return Err(Failure::User(phrase3("Task ", name, " has an absolute ", "input_path", ": ", task.input_paths[i].as_str(), "."), None));
    }
    // Output paths must be relative.
    if let Some(i) = first_absolute(&task.output_paths) {
        return Err(Failure::User(phrase3("Task ", name, " has an absolute ", "output_path", ": ", task.output_paths[i].as_str(), "."), None));
    }
    // Mount paths must not contain commas.
    if let Some(i) = first_with_comma(&task.mount_paths) {
        return Err(Failure::User(phrase3("Mount path ", task.mount_paths[i].as_str(), " of task ", name, " has a ", ",", "."), None));
    }
    // The location must be absolute.
    if !path_is_absolute(task.location.as_str()) {
        return Err(Failure::User(phrase3("Task ", name, " has a relative ", "location", ": ", task.location.as_str(), "."), None));
    }
    let mut ending = String::from_str(" for this");
    ending.append(" task.");
    // A task that exposes ports must disable caching.
    if task.ports.len() > 0 && task.cache {
        return Err(Failure::User(phrase2("Task ", name, " exposes ports but does not disable caching. To fix this, set ", "cache: false", ending.as_str()), None));
    }
    // A task that mounts paths must disable caching.
    if task.mount_paths.len() > 0 && task.cache {
        return Err(Failure::User(phrase3("Task ", name, " has ", "mount_paths", " but does not disable caching. To fix this, set ", "cache: false", ending.as_str()), None));
    }
    Ok(())
}

/// The value a variable of task `t` takes: the one the host environment gives, or else its
/// default.
pub open spec fn env_value(t: Task, host: Map<Seq<char>, String>, k: Seq<char>) -> Seq<char> {
    if host.dom().contains(k) {
        host[k]@
    } else {
        t.environment@[k]->0@
    }
}

/// A variable of task `t` is missing when it has no default and the host environment
/// does not give it.
pub open spec fn var_missing(t: Task, host: Map<Seq<char>, String>, k: Seq<char>) -> bool {
    t.environment@[k] is None && !host.dom().contains(k)
}

/// The variables among `ks` that are missing, in order.
pub open spec fn missing_vars(t: Task, host: Map<Seq<char>, String>, ks: Seq<Seq<char>>) -> Seq<Seq<char>>
    decreases ks.len(),
{
    if ks.len() == 0 {
        Seq::empty()
    } else {
        let prev = missing_vars(t, host, ks.drop_last());
        if var_missing(t, host, ks.last()) {
            prev.push(ks.last())
        } else {
            prev
        }
    }
}

/// No variable among `ks` is missing exactly when `missing_vars` finds none.
pub proof fn lemma_missing_vars_empty(t: Task, host: Map<Seq<char>, String>, ks: Seq<Seq<char>>)
    ensures
        missing_vars(t, host, ks).len() == 0 <==> forall|i: int| 0 <= i < ks.len() ==> !var_missing(t, host, #[trigger] ks[i]),
    decreases ks.len(),
{
    if ks.len() > 0 {
        lemma_missing_vars_empty(t, host, ks.drop_last());
        if missing_vars(t, host, ks).len() == 0 {
            assert forall|i: int| 0 <= i < ks.len() implies !var_missing(t, host, #[trigger] ks[i]) by {
                if i < ks.len() - 1 {
                    assert(ks.drop_last()[i] == ks[i]);
                }
            }
        } else {
            if forall|i: int| 0 <= i < ks.len() ==> !var_missing(t, host, #[trigger] ks[i]) {
                assert forall|i: int| 0 <= i < ks.drop_last().len() implies !var_missing(t, host, #[trigger] ks.drop_last()[i]) by {
                    assert(ks.drop_last()[i] == ks[i]);
                }
                assert(!var_missing(t, host, ks[ks.len() - 1]));
            }
        }
    }
}

/// Determines the variables of a task from the host environment `host`: each variable
/// takes the host's value, or else its default. Fails with the names of the variables that
/// have neither, in name order.
pub fn environment<'a>(task: &'a Task, host: &StringMap<String>) -> (r: Result<StringMap<String>, Vec<&'a str>>)
    ensures
        r is Ok <==> forall|k: Seq<char>| #[trigger] task.environment@.dom().contains(k) ==> !var_missing(*task, host@, k),
        r matches Ok(m) ==> m@.dom() == task.environment@.dom() && forall|k: Seq<char>| #[trigger] m@.dom().contains(k) ==> m@[k]@ == env_value(*task, host@, k),
        r matches Err(v) ==> v@.map_values(|s: &str| s@) == missing_vars(*task, host@, env_keys(*task)),
{
    let env = &task.environment;
    proof {
        use_type_invariant(env);
        env.lemma_entries();
    }
    let ghost ks = env.key_order();
    let n = env.len();
    let mut result: StringMap<String> = StringMap::new();
    let mut violations: Vec<&'a str> = Vec::new();
    let mut i: usize = 0;
    while i < n
        invariant
            env == &task.environment,
            env.wf(),
            ks == env.key_order(),
            ks == env_keys(*task),
            n == ks.len(),
            i <= n,
            forall|k: Seq<char>| #[trigger] result@.dom().contains(k) <==> (ks.subrange(0, i as int).contains(k) && !var_missing(*task, host@, k)),
            forall|k: Seq<char>| #[trigger] result@.dom().contains(k) ==> result@[k]@ == env_value(*task, host@, k),
            violations@.map_values(|s: &str| s@) == missing_vars(*task, host@, ks.subrange(0, i as int)),
        decreases n - i,
    {
        proof { env.lemma_entries(); }
        let name = env.key_at(i);
        let default = env.value_at(i);
        let ghost before_dom = result@.dom();
        let ghost before_v = violations@.map_values(|s: &str| s@);
        assert(ks.subrange(0, i + 1) =~= ks.subrange(0, i as int).push(name@));
        assert(ks.subrange(0, i + 1).drop_last() =~= ks.subrange(0, i as int));
        match host.get(name.as_str()) {
            Some(value) => {
                result.insert(name.clone(), value.clone());
            },
            None => {
                match default {
                    Some(d) => {
                        result.insert(name.clone(), d.clone());
                    },
                    None => {
                        violations.push(name.as_str());
                        assert(violations@.map_values(|s: &str| s@) =~= before_v.push(name@));
                    },
                }
            },
        }
        proof {
            let s1 = ks.subrange(0, i + 1);
            let s0 = ks.subrange(0, i as int);
            assert(*default == task.environment@[name@]);
            assert forall|k: Seq<char>| #[trigger] s1.contains(k) <==> (s0.contains(k) || k == name@) by {
                if s1.contains(k) {
                    let j = choose|j: int| 0 <= j < s1.len() && s1[j] == k;
                    if j < i {
                        assert(s0[j] == k);
                    }
                }
                if s0.contains(k) {
                    let j = choose|j: int| 0 <= j < s0.len() && s0[j] == k;
                    assert(s1[j] == k);
                }
                if k == name@ {
                    assert(s1[i as int] == k);
                }
            }
        }
        i = i + 1;
    }
    assert(ks.subrange(0, n as int) =~= ks);
    proof {
        lemma_missing_vars_empty(*task, host@, ks);
        assert(ks.to_set() == env@.dom());
    }
    if violations.len() == 0 {
        assert forall|k: Seq<char>| #[trigger] task.environment@.dom().contains(k) implies !var_missing(*task, host@, k) by {
            assert(ks.to_set().contains(k));
            let j = choose|j: int| 0 <= j < ks.len() && ks[j] == k;
        }
        Ok(result)
    } else {
        proof {
            if forall|k: Seq<char>| #[trigger] task.environment@.dom().contains(k) ==> !var_missing(*task, host@, k) {
                assert forall|j: int| 0 <= j < ks.len() implies !var_missing(*task, host@, #[trigger] ks[j]) by {
                    assert(ks.to_set().contains(ks[j]));
                }
            }
        }
        Err(violations)
    }
}

/// The names of the tasks that are not valid.
pub open spec fn invalid_task(tasks: Map<Seq<char>, Task>) -> spec_fn(Seq<char>) -> bool {
    |name: Seq<char>| !task_valid(tasks[name])
}

/// A toastfile is valid when its dependencies are valid and each of its tasks is valid.
pub open spec fn toastfile_valid(t: Toastfile) -> bool {
    &&& default_valid(t)
    &&& dependencies_exist(dep_graph(t.tasks@))
    &&& acyclic(dep_graph(t.tasks@))
    &&& forall|name: Seq<char>| #[trigger] t.tasks@.dom().contains(name) ==> task_valid(t.tasks@[name])
}

/// The message given for an invalid toastfile: the dependency problem if there is one,
/// and otherwise the problem with the first invalid task in name order.
pub open spec fn toastfile_message(t: Toastfile, m: Seq<char>) -> bool {
    if !(default_valid(t) && dependencies_exist(dep_graph(t.tasks@)) && acyclic(dep_graph(t.tasks@))) {
        dependency_message(t, m)
    } else {
        find_first(sorted_set(t.tasks@.dom()), invalid_task(t.tasks@)) matches Some(name)
            && task_message(name, t.tasks@[name], m)
    }
}

/// Checks a toastfile that has been read: its dependencies, then each task in name order.
pub fn validate(toastfile: Toastfile) -> (r: Result<Toastfile, Failure>)
    ensures
        r is Ok <==> toastfile_valid(toastfile),
        r matches Ok(t) ==> t == toastfile,
        r matches Err(e) ==> e matches Failure::User(m, None) && toastfile_message(toastfile, m@),
{
    check_dependencies(&toastfile)?;
    let tasks = &toastfile.tasks;
    proof {
        use_type_invariant(tasks);
        tasks.lemma_entries();
    }
    let ghost ks = tasks.key_order();
    let ghost bad = invalid_task(tasks@);
    let n = tasks.len();
    let mut i: usize = 0;
    while i < n
        invariant
            tasks == &toastfile.tasks,
            tasks.wf(),
            ks == tasks.key_order(),
            ks == sorted_set(tasks@.dom()),
            n == ks.len(),
            i <= n,
            bad == invalid_task(tasks@),
            forall|j: int| 0 <= j < i ==> !bad(#[trigger] ks[j]),
            default_valid(toastfile),
            dependencies_exist(dep_graph(toastfile.tasks@)),
            acyclic(dep_graph(toastfile.tasks@)),
        decreases n - i,
    {
        proof { tasks.lemma_entries(); }
        let name = tasks.key_at(i);
        let task = tasks.value_at(i);
        match check_task(name.as_str(), task) {
            Ok(()) => {},
            Err(e) => {
                proof {
                    lemma_find_first_at(ks, bad, i as int);
                    assert(ks[i as int] == name@);
                    assert(tasks@[name@] == *task);
                    assert(ks.to_set().contains(name@));
                    assert(toastfile.tasks@.dom().contains(name@));
                }
                return Err(e);
            },
        }
        i = i + 1;
    }
    proof {
        assert forall|name: Seq<char>| #[trigger] toastfile.tasks@.dom().contains(name) implies task_valid(toastfile.tasks@[name]) by {
            assert(ks.to_set().contains(name));
            let j = choose|j: int| 0 <= j < ks.len() && ks[j] == name;
            assert(!bad(ks[j]));
        }
    }
    Ok(toastfile)
}

} // verus!



