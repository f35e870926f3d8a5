//! The decisions of a whole session: which tasks may use the caches, what to tell the user
//! before and after running them, and where the shell runs.
use crate::cache::{initial_key, spec_initial_key};
use crate::failure::Failure;
use crate::format::{code_rendering, code_str, number, series, spec_number, spec_series};
use crate::order::str_eq;
use crate::runner::{task_environment, Plan};
use crate::dag::depends_on;
use crate::schedule::{deps_before, path_in, reaches_plus, strs};
use crate::settings::Settings;
use crate::strmap::StringMap;
use crate::toastfile::{copy_strings, dep_graph, env_keys, render_all, renders, views, Task, Toastfile};
use vstd::prelude::*;

verus! {

/// Task `i` of `schedule` may use the caches: it and every task before it are cacheable
/// and not forced.
pub open spec fn caching_allowed(
    schedule: Seq<Seq<char>>,
    tasks: Map<Seq<char>, Task>,
    forced: Seq<Seq<char>>,
    i: int,
) -> bool {
    forall|j: int| 0 <= j <= i ==> #[trigger] cacheable(schedule, tasks, forced, j)
}

/// Task `j` of `schedule` is cacheable and not forced.
pub open spec fn cacheable(schedule: Seq<Seq<char>>, tasks: Map<Seq<char>, Task>, forced: Seq<Seq<char>>, j: int) -> bool {
    tasks[schedule[j]].cache && !forced.contains(schedule[j])
}

/// Decides, for each task of the schedule, whether it may read and write the caches: only
/// as long as every task so far is cacheable and not forced, so that once a task is not,
/// no later task uses a cache either.
pub fn caching_flags(schedule: &[&str], tasks: &StringMap<Task>, forced: &Vec<String>) -> (flags: Vec<bool>)
    requires
        forall|i: int| 0 <= i < schedule.len() ==> tasks@.dom().contains(#[trigger] schedule@[i]@),
    ensures
        flags.len() == schedule.len(),
        forall|i: int| 0 <= i < flags.len() ==> #[trigger] flags@[i] == caching_allowed(strs(schedule@), tasks@, views(forced@), i),
{
    let ghost names = strs(schedule@);
    let ghost fs = views(forced@);
    let mut flags: Vec<bool> = Vec::new();
    let mut enabled = true;
    let mut i: usize = 0;
    while i < schedule.len()
        invariant
            i <= schedule.len(),
            names == strs(schedule@),
            fs == views(forced@),
            forall|j: int| 0 <= j < schedule.len() ==> tasks@.dom().contains(#[trigger] schedule@[j]@),
            flags.len() == i,
            forall|j: int| 0 <= j < i ==> #[trigger] flags@[j] == caching_allowed(names, tasks@, fs, j),
            enabled == (i == 0 || caching_allowed(names, tasks@, fs, i - 1)),
        decreases schedule.len() - i,
    {
        let name = schedule[i];
        let task_cacheable: bool = match tasks.get(name) {
            Some(t) => t.cache,
            None => {
                assert(false);
                false
            },
        };
        let mut is_forced = false;
        let mut k: usize = 0;
        while k < forced.len()
            invariant
                k <= forced.len(),
                fs == views(forced@),
                is_forced == fs.subrange(0, k as int).contains(name@),
            decreases forced.len() - k,
        {
            proof {
                let s0 = fs.subrange(0, k as int);
                let s1 = fs.subrange(0, k + 1);
                assert(s1 =~= s0.push(fs[k as int]));
                if s1.contains(name@) {
                    let j = choose|j: int| 0 <= j < s1.len() && s1[j] == name@;
                    if j < k {
                        assert(s0[j] == name@);
                    }
                }
                if s0.contains(name@) {
                    let j = choose|j: int| 0 <= j < s0.len() && s0[j] == name@;
                    assert(s1[j] == name@);
                }
            }
            if str_eq(forced[k].as_str(), name) {
                assert(fs.subrange(0, k + 1)[k as int] == name@);
                is_forced = true;
            }
            k = k + 1;
        }
        assert(fs.subrange(0, forced.len() as int) =~= fs);
        enabled = enabled && task_cacheable && !is_forced;
        proof {
            assert(names[i as int] == name@);
            assert(task_cacheable == tasks@[name@].cache);
            if !enabled {
                if i > 0 && !caching_allowed(names, tasks@, fs, i - 1) {
                    lemma_caching_stays_off(names, tasks@, fs, i - 1, i as int);
                } else {
                    assert(!cacheable(names, tasks@, fs, i as int));
                }
            }
            if enabled {
                assert forall|j: int| 0 <= j <= i implies #[trigger] cacheable(names, tasks@, fs, j) by {
                    if j < i {
                        assert(caching_allowed(names, tasks@, fs, i - 1));
                    }
                }
            }
        }
        flags.push(enabled);
        i = i + 1;
    }
    flags
}

/// Once a task may not use the caches, no later task may.
pub proof fn lemma_caching_stays_off(
    schedule: Seq<Seq<char>>,
    tasks: Map<Seq<char>, Task>,
    forced: Seq<Seq<char>>,
    i: int,
    j: int,
)
    requires
        0 <= i <= j,
        !caching_allowed(schedule, tasks, forced, i),
    ensures
        !caching_allowed(schedule, tasks, forced, j),
{
    let k = choose|k: int| 0 <= k <= i && !#[trigger] cacheable(schedule, tasks, forced, k);
    assert(0 <= k <= j);
}

/// A task that is not cacheable or that is forced, and every task after it, run without
/// the caches.
pub proof fn lemma_forced_uncached(
    schedule: Seq<Seq<char>>,
    tasks: Map<Seq<char>, Task>,
    forced: Seq<Seq<char>>,
    i: int,
    j: int,
)
    requires
        0 <= i <= j,
        !tasks[schedule[i]].cache || forced.contains(schedule[i]),
    ensures
        !caching_allowed(schedule, tasks, forced, j),
{
    assert(!cacheable(schedule, tasks, forced, i));
}

proof fn lemma_path_earlier(g: Map<Seq<char>, Seq<Seq<char>>>, s: Seq<Seq<char>>, j: int, p: Seq<Seq<char>>)
    requires
        deps_before(g, s),
        0 <= j < s.len(),
        path_in(g, p),
        p.len() >= 2,
        p[0] == s[j],
    ensures
        exists|k: int| 0 <= k < j && s[k] == p.last(),
    decreases p.len(),
{
    if p.len() == 2 {
        assert(depends_on(g, p[0], p[1]));
        assert(s.subrange(0, j).contains(p[1]));
        let k = choose|k: int| 0 <= k < j && s.subrange(0, j)[k] == p[1];
        assert(s[k] == p.last());
    } else {
        let q = p.drop_last();
        assert forall|m: int| 0 <= m < q.len() - 1 implies depends_on(g, #[trigger] q[m], q[m + 1]) by {
            assert(depends_on(g, p[m], p[m + 1]));
        }
        lemma_path_earlier(g, s, j, q);
        let k = choose|k: int| 0 <= k < j && s[k] == q.last();
        assert(depends_on(g, p[p.len() - 2], p[p.len() - 1]));
        assert(depends_on(g, s[k], p.last()));
        assert(s.subrange(0, k).contains(p.last()));
        let k2 = choose|k2: int| 0 <= k2 < k && s.subrange(0, k)[k2] == p.last();
        assert(s[k2] == p.last());
    }
}

/// Disabling the caches for a task disables them for every task that depends on it: in a
/// schedule where each task comes after its dependencies, a task that needs (directly or
/// not) a task that is not cacheable, or that is forced, does not use the caches.
pub proof fn lemma_uncached_dependents(
    schedule: Seq<Seq<char>>,
    tasks: Map<Seq<char>, Task>,
    forced: Seq<Seq<char>>,
    i: int,
    j: int,
)
    requires
        deps_before(dep_graph(tasks), schedule),
        schedule.no_duplicates(),
        0 <= i < schedule.len(),
        0 <= j < schedule.len(),
        !tasks[schedule[i]].cache || forced.contains(schedule[i]),
        reaches_plus(dep_graph(tasks), schedule[j], schedule[i]),
    ensures
        !caching_allowed(schedule, tasks, forced, j),
{
    let g = dep_graph(tasks);
    let p = choose|p: Seq<Seq<char>>| #[trigger] path_in(g, p) && p.len() >= 2 && p[0] == schedule[j] && p.last() == schedule[i];
    lemma_path_earlier(g, schedule, j, p);
    let k = choose|k: int| 0 <= k < j && schedule[k] == p.last();
    assert(k == i);
    lemma_forced_uncached(schedule, tasks, forced, i, j);
}


/// What one task's run is given: the switches of the settings, whether the task may use
/// the caches, whether it has outputs (on success and on failure), and whether the
/// context it runs in is kept.
pub fn task_plan(settings: &Settings, task: &Task, caching_enabled: bool, context_persist: bool) -> (plan: Plan)
    ensures
        plan == (Plan {
            caching_enabled: caching_enabled,
            read_local_cache: settings.read_local_cache,
            read_remote_cache: settings.read_remote_cache,
            write_local_cache: settings.write_local_cache,
            write_remote_cache: settings.write_remote_cache,
            has_outputs: task.output_paths.len() > 0,
            has_failure_outputs: task.output_paths_on_failure.len() > 0,
            context_persist: context_persist,
        }),
{
    Plan {
        caching_enabled,
        read_local_cache: settings.read_local_cache,
        read_remote_cache: settings.read_remote_cache,
        write_local_cache: settings.write_local_cache,
        write_remote_cache: settings.write_remote_cache,
        has_outputs: task.output_paths.len() > 0,
        has_failure_outputs: task.output_paths_on_failure.len() > 0,
        context_persist,
    }
}

/// Where a run of the schedule stands: the position of the next task, and the cache key it
/// starts from (the key the task before it returned, or the initial key).
#[derive(Debug, PartialEq, Eq)]
pub struct RunState {
    pub next: usize,
    pub cache_key: String,
}

/// What to do next in a run of the schedule.
#[derive(Debug, PartialEq, Eq)]
pub enum RunAction {
    /// Run the task at this position, starting from this cache key, with the caches
    /// allowed or not.
    Run(usize, String, bool),
    /// Stop with this result; the last task attempted, if any.
    Stop(Result<(), Failure>, Option<usize>),
}

/// A run of the schedule starts at its first task, from the initial key of the base image.
pub fn start_run(image: &str) -> (state: RunState)
    ensures
        state.next == 0,
        state.cache_key@ == spec_initial_key(image@),
{
    RunState { next: 0, cache_key: initial_key(image) }
}

/// Decides the next step of a run of the schedule: stop with success after the last task,
/// stop as interrupted (naming the task about to run) if the user asked to stop, and
/// otherwise run the next task from the current key, with the caches as its flag says.
pub fn run_step(schedule_len: usize, flags: &Vec<bool>, state: &RunState, interrupted: bool) -> (a: RunAction)
    requires
        flags.len() == schedule_len,
        state.next <= schedule_len,
    ensures
        state.next == schedule_len ==> a == RunAction::Stop(
            Ok(()),
            if schedule_len == 0 { None } else { Some((schedule_len - 1) as usize) },
        ),
        state.next < schedule_len && interrupted ==> a == RunAction::Stop(Err(Failure::Interrupted), Some(state.next)),
        state.next < schedule_len && !interrupted ==> (a matches RunAction::Run(i, k, c)
            && i == state.next && k@ == state.cache_key@ && c == flags@[state.next as int]),
{
    if state.next == schedule_len {
        if schedule_len == 0 {
            RunAction::Stop(Ok(()), None)
        } else {
            RunAction::Stop(Ok(()), Some(schedule_len - 1))
        }
    } else if interrupted {
        RunAction::Stop(Err(Failure::Interrupted), Some(state.next))
    } else {
        RunAction::Run(state.next, state.cache_key.clone(), flags[state.next])
    }
}

/// After a task ran: on success, the next task starts from the key it returned; on
/// failure, the run stops with that failure at that task.
pub fn after_task(state: RunState, outcome: Result<String, Failure>) -> (r: Result<RunState, (Failure, usize)>)
    requires
        state.next < usize::MAX,
    ensures
        outcome matches Ok(k) ==> r == Ok::<RunState, (Failure, usize)>(RunState { next: (state.next + 1) as usize, cache_key: k }),
        outcome matches Err(e) ==> r == Err::<RunState, (Failure, usize)>((e, state.next)),
{
    match outcome {
        Ok(k) => Ok(RunState { next: state.next + 1, cache_key: k }),
        Err(e) => Err((e, state.next)),
    }
}

/// The tasks that run from position `next` on, each with the cache key it starts from,
/// when there are `n` tasks, the run starts from `key`, no interruption comes, and the tasks
/// end as `outcomes` says in turn (`Some` with the key returned, or `None` for a failure):
/// these are the steps that `run_step` and `after_task` take.
pub open spec fn runs(key: Seq<char>, next: nat, n: nat, outcomes: Seq<Option<Seq<char>>>) -> Seq<(nat, Seq<char>)>
    decreases outcomes.len(),
{
    if next >= n || outcomes.len() == 0 {
        Seq::empty()
    } else {
        seq![(next, key)] + match outcomes[0] {
            Some(k) => runs(k, next + 1, n, outcomes.drop_first()),
            None => Seq::empty(),
        }
    }
}

/// In a run of the schedule, task `j` runs `j`-th, from the initial key if it is the first
/// and otherwise from the key the task before it returned; it runs only if every task
/// before it succeeded; and no more tasks run than the schedule holds.
pub proof fn lemma_runs_chain_keys(key: Seq<char>, next: nat, n: nat, outcomes: Seq<Option<Seq<char>>>)
    ensures
        next + runs(key, next, n, outcomes).len() <= n || runs(key, next, n, outcomes).len() == 0,
        runs(key, next, n, outcomes).len() <= outcomes.len(),
        forall|j: int| 0 <= j < runs(key, next, n, outcomes).len() ==> {
            &&& #[trigger] runs(key, next, n, outcomes)[j].0 == next + j
            &&& runs(key, next, n, outcomes)[j].1 == if j == 0 { key } else { outcomes[j - 1]->0 }
            &&& forall|i: int| 0 <= i < j ==> outcomes[i] is Some
        },
    decreases outcomes.len(),
{
    if next >= n || outcomes.len() == 0 {
    } else {
        match outcomes[0] {
            Some(k) => {
                let rest = outcomes.drop_first();
                lemma_runs_chain_keys(k, next + 1, n, rest);
                let r = runs(key, next, n, outcomes);
                let r2 = runs(k, next + 1, n, rest);
                assert(r == seq![(next, key)] + r2);
                assert forall|j: int| 0 <= j < r.len() implies {
                    &&& #[trigger] r[j].0 == next + j
                    &&& r[j].1 == if j == 0 { key } else { outcomes[j - 1]->0 }
                    &&& forall|i: int| 0 <= i < j ==> outcomes[i] is Some
                } by {
                    if j > 0 {
                        assert(r[j] == r2[j - 1]);
                        assert(r2[j - 1].0 == next + 1 + (j - 1));
                        assert forall|i: int| 0 <= i < j implies outcomes[i] is Some by {
                            if i > 0 {
                                assert(rest[i - 1] == outcomes[i]);
                            }
                        }
                        if j > 1 {
                            assert(rest[j - 2] == outcomes[j - 1]);
                        }
                    }
                }
            },
            None => {
                let r = runs(key, next, n, outcomes);
                assert(r =~= seq![(next, key)]);
            },
        }
    }
}


/// The message announcing a schedule: the number of tasks, then their names.
pub open spec fn ready_message(m: Seq<char>, schedule: Seq<Seq<char>>) -> bool {
    exists|rs: Seq<Seq<char>>| #[trigger] renders(rs, schedule)
        && m == "Ready to run "@ + spec_number(schedule.len(), "task"@) + ": "@ + spec_series(rs) + "."@
}

/// Announces the schedule, or says nothing (`None`) if it is empty.
pub fn announcement(schedule: &[&str]) -> (r: Option<String>)
    ensures
        schedule.len() == 0 <==> r is None,
        r matches Some(m) ==> ready_message(m@, strs(schedule@)),
{
    if schedule.len() == 0 {
        return None;
    }
    let mut names: Vec<String> = Vec::new();
    let mut i: usize = 0;
    while i < schedule.len()
        invariant
            i <= schedule.len(),
            views(names@) == strs(schedule@).subrange(0, i as int),
        decreases schedule.len() - i,
    {
        let ghost before = views(names@);
        names.push(String::from_str(schedule[i]));
        assert(views(names@) =~= before.push(schedule@[i as int]@));
        assert(strs(schedule@).subrange(0, i + 1) =~= strs(schedule@).subrange(0, i as int).push(schedule@[i as int]@));
        i = i + 1;
    }
    assert(strs(schedule@).subrange(0, schedule.len() as int) =~= strs(schedule@));
    let rs = render_all(&names);
    proof {
        reveal_strlit("Ready to run ");
        reveal_strlit("task");
        reveal_strlit(": ");
        reveal_strlit(".");
    }
    let mut m = String::from_str("Ready to run ");
    m.append(number(schedule.len(), "task").as_str());
    m.append(": ");
    m.append(series(rs.as_slice()).as_str());
    m.append(".");
    assert(renders(views(rs@), strs(schedule@)));
    Some(m)
}

/// Whether the session goes on to the shell after running the tasks: it does when they
/// succeeded or a task failed, and not when the user interrupted the program or a system
/// operation failed.
pub fn goes_on(result: &Result<(), Failure>) -> (b: bool)
    ensures
        b <==> (result is Ok || result matches Err(Failure::User(_, _))),
{
    match result {
        Ok(()) => true,
        Err(Failure::User(_, _)) => true,
        Err(_) => false,
    }
}

/// The result of the session once the shell has run: the shell's failure if it failed, and
/// otherwise the result of the tasks.
pub fn after_shell(result: Result<(), Failure>, shell: Result<(), Failure>) -> (r: Result<(), Failure>)
    ensures
        shell matches Err(e) ==> r == Err::<(), Failure>(e),
        shell is Ok ==> r == result,
{
    match shell {
        Err(e) => Err(e),
        Ok(()) => result,
    }
}

/// Where and how the shell runs.
#[derive(Debug, PartialEq, Eq)]
pub struct ShellSetup {
    pub environment: StringMap<String>,
    pub location: String,
    pub mount_paths: Vec<String>,
    pub mount_readonly: bool,
    pub ports: Vec<String>,
    pub user: String,
}

/// Sets up the shell like the last task that ran, with the variables it was given; with
/// no last task, in the base image at `/` as `root`, with no variables, mounts, or ports.
pub fn shell_setup(toastfile: &Toastfile, last_task: Option<&str>, environment: &StringMap<String>) -> (r: ShellSetup)
    requires
        last_task matches Some(name) ==> toastfile.tasks@.dom().contains(name@)
            && toastfile.tasks@[name@].environment@.dom().subset_of(environment@.dom()),
    ensures
        match last_task {
            Some(name) => {
                let t = toastfile.tasks@[name@];
                &&& r.environment@.dom() == t.environment@.dom()
                &&& forall|k: Seq<char>| #[trigger] r.environment@.dom().contains(k) ==> r.environment@[k]@ == environment@[k]@
                &&& r.location@ == t.location@
                &&& views(r.mount_paths@) == views(t.mount_paths@)
                &&& r.mount_readonly == t.mount_readonly
                &&& views(r.ports@) == views(t.ports@)
                &&& r.user@ == t.user@
            },
            None => {
                &&& r.environment@ == Map::<Seq<char>, String>::empty()
                &&& r.location@ == "/"@
                &&& r.mount_paths@.len() == 0
                &&& !r.mount_readonly
                &&& r.ports@.len() == 0
                &&& r.user@ == "root"@
            },
        },
{
    match last_task {
        Some(name) => {
            let t = match toastfile.tasks.get(name) {
                Some(t) => t,
                None => {
                    assert(false);
                    return ShellSetup {
                        environment: StringMap::new(),
                        location: String::new(),
                        mount_paths: Vec::new(),
                        mount_readonly: false,
                        ports: Vec::new(),
                        user: String::new(),
                    };
                },
            };
            ShellSetup {
                environment: task_environment(t, environment),
                location: t.location.clone(),
                mount_paths: copy_strings(&t.mount_paths),
                mount_readonly: t.mount_readonly,
                ports: copy_strings(&t.ports),
                user: t.user.clone(),
            }
        },
        None => {
            proof {
                reveal_strlit("/");
                reveal_strlit("root");
            }
            ShellSetup {
                environment: StringMap::new(),
                location: String::from_str("/"),
                mount_paths: Vec::new(),
                mount_readonly: crate::toastfile::default_task_mount_readonly(),
                ports: Vec::new(),
                user: String::from_str(crate::toastfile::DEFAULT_USER),
            }
        },
    }
}


/// The names among `ks` of tasks that have a description, in order.
pub open spec fn described_in(ks: Seq<Seq<char>>, tasks: Map<Seq<char>, Task>) -> Seq<Seq<char>>
    decreases ks.len(),
{
    if ks.len() == 0 {
        Seq::empty()
    } else if tasks[ks.last()].description is Some {
        described_in(ks.drop_last(), tasks).push(ks.last())
    } else {
        described_in(ks.drop_last(), tasks)
    }
}

/// The names of the tasks that have a description, in name order.
pub open spec fn described(tasks: Map<Seq<char>, Task>) -> Seq<Seq<char>> {
    described_in(crate::order::sorted_set(tasks.dom()), tasks)
}

/// The line that introduces a task: its name and its description.
pub open spec fn header_line(line: Seq<char>, name: Seq<char>, description: Seq<char>) -> bool {
    exists|r: Seq<char>| #[trigger] code_rendering(r, name) && line == "* "@ + r + " \u{2014} "@ + description
}

/// The line that shows a variable of a task, with its default if it has one.
pub open spec fn variable_line(line: Seq<char>, var: Seq<char>, default: Option<String>) -> bool {
    exists|r: Seq<char>| #[trigger] code_rendering(r, var) && match default {
        Some(d) => exists|rd: Seq<char>| #[trigger] code_rendering(rd, d@) && line == "  "@ + r + ": "@ + rd,
        None => line == "  "@ + r + ": (no default provided)"@,
    }
}

/// The lines that show one task: its header, then its variables in name order.
pub open spec fn task_block(block: Seq<Seq<char>>, name: Seq<char>, t: Task) -> bool {
    let ks = env_keys(t);
    &&& block.len() == ks.len() + 1
    &&& header_line(block[0], name, t.description->0@)
    &&& forall|i: int| 1 <= i < block.len() ==> variable_line(#[trigger] block[i], ks[i - 1], t.environment@[ks[i - 1]])
}

/// `lines` show the tasks `names`, one block after another.
pub open spec fn listing(lines: Seq<Seq<char>>, names: Seq<Seq<char>>, tasks: Map<Seq<char>, Task>) -> bool
    decreases names.len(),
{
    if names.len() == 0 {
        lines.len() == 0
    } else {
        let n = names.last();
        let k = env_keys(tasks[n]).len() + 1;
        &&& lines.len() >= k
        &&& listing(lines.subrange(0, lines.len() - k), names.drop_last(), tasks)
        &&& task_block(lines.subrange(lines.len() - k, lines.len() as int), n, tasks[n])
    }
}

proof fn lemma_listing_push(lines: Seq<Seq<char>>, names: Seq<Seq<char>>, tasks: Map<Seq<char>, Task>, block: Seq<Seq<char>>, n: Seq<char>)
    requires
        listing(lines, names, tasks),
        task_block(block, n, tasks[n]),
    ensures
        listing(lines + block, names.push(n), tasks),
{
    let all = lines + block;
    let k = env_keys(tasks[n]).len() + 1;
    assert(names.push(n).drop_last() =~= names);
    assert(all.subrange(0, all.len() - k) =~= lines);
    assert(all.subrange(all.len() - k, all.len() as int) =~= block);
}

/// The lines that show one task.
fn task_lines(name: &str, task: &Task) -> (block: Vec<String>)
    requires
        task.description is Some,
    ensures
        task_block(views(block@), name@, *task),
{
    let description = match &task.description {
        Some(d) => d,
        None => {
            assert(false);
            return Vec::new();
        },
    };
    proof {
        reveal_strlit("* ");
        reveal_strlit(" \u{2014} ");
        reveal_strlit("  ");
        reveal_strlit(": ");
        reveal_strlit(": (no default provided)");
    }
    let r = code_str(name);
    let mut header = String::from_str("* ");
    header.append(r.as_str());
    header.append(" \u{2014} ");
    header.append(description.as_str());
    assert(header_line(header@, name@, task.description->0@));
    let mut block: Vec<String> = Vec::new();
    block.push(header);
    let vars = &task.environment;
    proof {
        use_type_invariant(vars);
        vars.lemma_entries();
    }
    let ghost ks = env_keys(*task);
    let mut i: usize = 0;
    while i < vars.len()
        invariant
            vars == &task.environment,
            ks == env_keys(*task),
            ks == vars.key_order(),
            forall|j: int| 0 <= j < ks.len() ==> #[trigger] vars@[ks[j]] == vars.value_order()[j],
            i <= ks.len(),
            block.len() == i + 1,
            header_line(views(block@)[0], name@, task.description->0@),
            forall|j: int| 1 <= j < block.len() ==> variable_line(#[trigger] views(block@)[j], ks[j - 1], task.environment@[ks[j - 1]]),
        decreases ks.len() - i,
    {
        let var = vars.key_at(i);
        let default = vars.value_at(i);
        let rv = code_str(var.as_str());
        let mut line = String::from_str("  ");
        line.append(rv.as_str());
        match default {
            Some(d) => {
                let rd = code_str(d.as_str());
                line.append(": ");
                line.append(rd.as_str());
                assert(code_rendering(rd@, d@));
            },
            None => {
                line.append(": (no default provided)");
            },
        }
        assert(code_rendering(rv@, var@));
        assert(*default == task.environment@[ks[i as int]]);
        assert(variable_line(line@, ks[i as int], task.environment@[ks[i as int]]));
        let ghost before = views(block@);
        block.push(line);
        assert(views(block@) =~= before.push(line@));
        i = i + 1;
    }
    block
}

/// Shows the tasks that have a description, in name order: for each, its name and
/// description, then each of its variables with its default, if it has one.
pub fn task_list(toastfile: &Toastfile) -> (lines: Vec<String>)
    ensures
        listing(views(lines@), described(toastfile.tasks@), toastfile.tasks@),
{
    let tasks = &toastfile.tasks;
    proof {
        use_type_invariant(tasks);
        tasks.lemma_entries();
    }
    let ghost ks = tasks.key_order();
    let mut lines: Vec<String> = Vec::new();
    let mut i: usize = 0;
    while i < tasks.len()
        invariant
            tasks == &toastfile.tasks,
            ks == tasks.key_order(),
            ks == crate::order::sorted_set(tasks@.dom()),
            forall|j: int| 0 <= j < ks.len() ==> #[trigger] tasks@[ks[j]] == tasks.value_order()[j],
            i <= ks.len(),
            listing(views(lines@), described_in(ks.subrange(0, i as int), tasks@), tasks@),
        decreases ks.len() - i,
    {
        let name = tasks.key_at(i);
        let task = tasks.value_at(i);
        let ghost prefix = ks.subrange(0, i as int);
        let ghost next = ks.subrange(0, i + 1);
        proof {
            assert(next.drop_last() =~= prefix);
            assert(next.last() == name@);
            assert(*task == tasks@[name@]);
        }
        if task.description.is_some() {
            let block = task_lines(name.as_str(), task);
            let ghost before = views(lines@);
            proof {
                lemma_listing_push(before, described_in(prefix, tasks@), tasks@, views(block@), name@);
            }
            let mut k: usize = 0;
            while k < block.len()
                invariant
                    k <= block.len(),
                    views(lines@) == before + views(block@).subrange(0, k as int),
                decreases block.len() - k,
            {
                let ghost b = views(lines@);
                lines.push(block[k].clone());
                assert(views(lines@) =~= b.push(block@[k as int]@));
                assert(views(block@).subrange(0, k + 1) =~= views(block@).subrange(0, k as int).push(block@[k as int]@));
                k = k + 1;
            }
            assert(views(block@).subrange(0, block.len() as int) =~= views(block@));
        }
        i = i + 1;
    }
    assert(ks.subrange(0, ks.len() as int) =~= ks);
    lines
}

} // verus!
