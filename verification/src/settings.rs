//! What the command line asks for: the settings, the tasks to run, and the variables they
//! take from the environment.
use crate::config::Config;
use crate::failure::Failure;
use crate::format::{code_rendering, code_str, series, spec_series};
use crate::order::sorted_set;
use crate::strmap::StringMap;
use crate::text::{lowercase, to_lowercase, trim, trimmed};
use crate::order::str_eq;
use crate::schedule::strs;
use crate::toastfile::{
    describe_all, describes_violations, environment, env_keys, env_value, lemma_missing_vars_empty,
    missing_vars, phrased2, var_missing, violation_views, views, Task, Toastfile,
};
use vstd::prelude::*;

verus! {

/// The settings of a run, from the command line and the configuration file.
#[derive(Debug, PartialEq, Eq)]
pub struct Settings {
    pub toastfile_path: String,
    pub docker_cli: String,
    pub docker_repo: String,
    pub read_local_cache: bool,
    pub write_local_cache: bool,
    pub read_remote_cache: bool,
    pub write_remote_cache: bool,
    pub list: bool,
    pub spawn_shell: bool,
    pub tasks: Option<Vec<String>>,
    pub forced_tasks: Vec<String>,
}

/// How a command-line argument reads as a Boolean: trimmed and in lowercase.
pub open spec fn normalized(s: Seq<char>) -> Seq<char> {
    lowercase(trimmed(s))
}

/// The Boolean that a word stands for: `true` or `yes` for true, and `false` or `no` for
/// false.
pub open spec fn word_value(w: Seq<char>) -> Option<bool> {
    if w == "true"@ || w == "yes"@ {
        Some(true)
    } else if w == "false"@ || w == "no"@ {
        Some(false)
    } else {
        None
    }
}

/// The Boolean that a command-line argument stands for: `true` or `yes` for true, and
/// `false` or `no` for false, ignoring case and surrounding white space.
pub open spec fn boolean_value(s: Seq<char>) -> Option<bool> {
    word_value(normalized(s))
}

/// Reads a word, already trimmed and in lowercase, as a Boolean: `true` or `yes` for true,
/// `false` or `no` for false, and nothing for any other word.
pub fn bool_from_word(word: &str) -> (r: Option<bool>)
    ensures
        r == word_value(word@),
{
    proof {
        reveal_strlit("true");
        reveal_strlit("yes");
        reveal_strlit("false");
        reveal_strlit("no");
        assert("false"@.len() != "true"@.len() && "false"@.len() != "yes"@.len());
        assert("no"@.len() != "true"@.len() && "no"@.len() != "yes"@.len());
    }
    if str_eq(word, "true") || str_eq(word, "yes") {
        Some(true)
    } else if str_eq(word, "false") || str_eq(word, "no") {
        Some(false)
    } else {
        None
    }
}

/// `m` says that `s` is not a Boolean.
pub open spec fn not_boolean(m: Seq<char>, s: Seq<char>) -> bool {
    exists|c: Seq<char>| #[trigger] code_rendering(c, s) && m == c + " is not a Boolean."@
}

/// Converts a command-line argument into a Boolean: `true` or `yes` for true, and `false`
/// or `no` for false, ignoring case and surrounding white space.
pub fn parse_bool(s: &str) -> (r: Result<bool, Failure>)
    ensures
        boolean_value(s@) matches Some(b) ==> r == Ok::<bool, Failure>(b),
        boolean_value(s@) is None ==> (r matches Err(Failure::User(m, None)) && not_boolean(m@, s@)),
{
    let t = trim(s);
    let normalized = to_lowercase(t.as_str());
    proof {
        reveal_strlit(" is not a Boolean.");
    }
    match bool_from_word(normalized.as_str()) {
        Some(b) => Ok(b),
        None => {
            let c = code_str(s);
            let mut m = c.clone();
            m.append(" is not a Boolean.");
            assert(code_rendering(c@, s@));
            Err(Failure::User(m, None))
        },
    }
}

/// What the command line gives, before the configuration fills in what it leaves out.
#[derive(Debug, PartialEq, Eq)]
pub struct Arguments {
    pub toastfile_path: String,
    pub docker_cli: Option<String>,
    pub docker_repo: Option<String>,
    pub read_local_cache: Option<String>,
    pub write_local_cache: Option<String>,
    pub read_remote_cache: Option<String>,
    pub write_remote_cache: Option<String>,
    pub list: bool,
    pub spawn_shell: bool,
    pub tasks: Option<Vec<String>>,
    pub forced_tasks: Vec<String>,
}

/// The value of a switch: the one the command line gives, or else the configuration's.
pub open spec fn switch_value(arg: Option<String>, default: bool) -> Option<bool> {
    match arg {
        Some(s) => boolean_value(s@),
        None => Some(default),
    }
}

/// The text the command line gives, or else the configuration's.
pub open spec fn text_value(arg: Option<String>, default: String) -> Seq<char> {
    match arg {
        Some(s) => s@,
        None => default@,
    }
}

/// `e` is the failure for a switch given as `arg` that is not a Boolean.
pub open spec fn switch_failure(e: Failure, arg: Option<String>) -> bool {
    arg matches Some(s) && e matches Failure::User(m, None) && not_boolean(m@, s@)
}

fn switch(arg: &Option<String>, default: bool) -> (r: Result<bool, Failure>)
    ensures
        switch_value(*arg, default) matches Some(b) ==> r == Ok::<bool, Failure>(b),
        switch_value(*arg, default) is None ==> (r matches Err(e) && switch_failure(e, *arg)),
{
    match arg {
        Some(s) => parse_bool(s.as_str()),
        None => Ok(default),
    }
}

fn text_or(arg: Option<String>, default: &String) -> (r: String)
    ensures
        r@ == text_value(arg, *default),
{
    match arg {
        Some(s) => s,
        None => default.clone(),
    }
}

/// Combines the command line with the configuration: each switch and each Docker setting
/// takes the command line's value, or else the configuration's. Fails on the first switch,
/// in the order local read, local write, remote read, remote write, whose value is not a
/// Boolean.
pub fn settings_from(args: Arguments, config: &Config) -> (r: Result<Settings, Failure>)
    ensures
        ({
            let rl = switch_value(args.read_local_cache, config.read_local_cache);
            let wl = switch_value(args.write_local_cache, config.write_local_cache);
            let rr = switch_value(args.read_remote_cache, config.read_remote_cache);
            let wr = switch_value(args.write_remote_cache, config.write_remote_cache);
            &&& r is Ok <==> (rl is Some && wl is Some && rr is Some && wr is Some)
            &&& r matches Ok(s) ==> {
                &&& s.toastfile_path == args.toastfile_path
                &&& s.docker_cli@ == text_value(args.docker_cli, config.docker_cli)
                &&& s.docker_repo@ == text_value(args.docker_repo, config.docker_repo)
                &&& rl == Some(s.read_local_cache)
                &&& wl == Some(s.write_local_cache)
                &&& rr == Some(s.read_remote_cache)
                &&& wr == Some(s.write_remote_cache)
                &&& s.list == args.list
                &&& s.spawn_shell == args.spawn_shell
                &&& s.tasks == args.tasks
                &&& s.forced_tasks == args.forced_tasks
            }
            &&& r matches Err(e) ==> {
                if rl is None {
                    switch_failure(e, args.read_local_cache)
                } else if wl is None {
                    switch_failure(e, args.write_local_cache)
                } else if rr is None {
                    switch_failure(e, args.read_remote_cache)
                } else {
                    switch_failure(e, args.write_remote_cache)
                }
            }
        }),
{
    let read_local_cache = match switch(&args.read_local_cache, config.read_local_cache) {
        Ok(b) => b,
        Err(e) => return Err(e),
    };
    let write_local_cache = match switch(&args.write_local_cache, config.write_local_cache) {
        Ok(b) => b,
        Err(e) => return Err(e),
    };
    let read_remote_cache = match switch(&args.read_remote_cache, config.read_remote_cache) {
        Ok(b) => b,
        Err(e) => return Err(e),
    };
    let write_remote_cache = match switch(&args.write_remote_cache, config.write_remote_cache) {
        Ok(b) => b,
        Err(e) => return Err(e),
    };
    let Arguments { toastfile_path, docker_cli, docker_repo, list, spawn_shell, tasks, forced_tasks, .. } = args;
    Ok(Settings {
        toastfile_path,
        docker_cli: text_or(docker_cli, &config.docker_cli),
        docker_repo: text_or(docker_repo, &config.docker_repo),
        read_local_cache,
        write_local_cache,
        read_remote_cache,
        write_remote_cache,
        list,
        spawn_shell,
        tasks,
        forced_tasks,
    })
}

/// The tasks named on the command line, followed by the tasks to force.
pub open spec fn requested(settings: Settings) -> Seq<Seq<char>> {
    (match settings.tasks {
        Some(t) => views(t@),
        None => Seq::empty(),
    }) + views(settings.forced_tasks@)
}

/// Determines which tasks to run: the tasks named on the command line and those to force,
/// in that order; if there are none, the default task, or else every task in name order.
/// Fails on the first requested task that the toastfile does not define.
pub fn get_roots<'a>(settings: &'a Settings, toastfile: &'a Toastfile) -> (r: Result<Vec<&'a str>, Failure>)
    ensures
        requested(*settings).len() == 0 ==> r is Ok,
        requested(*settings).len() == 0 ==> (r matches Ok(v) && v@.map_values(|s: &str| s@) == match toastfile.default {
            Some(d) => seq![d@],
            None => sorted_set(toastfile.tasks@.dom()),
        }),
        requested(*settings).len() > 0 ==> (r is Ok <==> forall|i: int| 0 <= i < requested(*settings).len() ==> toastfile.tasks@.dom().contains(#[trigger] requested(*settings)[i])),
        requested(*settings).len() > 0 ==> (r matches Ok(v) ==> v@.map_values(|s: &str| s@) == requested(*settings)),
        r matches Err(e) ==> exists|i: int| 0 <= i < requested(*settings).len()
            && !toastfile.tasks@.dom().contains(#[trigger] requested(*settings)[i])
            && (forall|j: int| 0 <= j < i ==> toastfile.tasks@.dom().contains(#[trigger] requested(*settings)[j]))
            && (e matches Failure::User(m, None) && phrased2(m@, "No task named "@, requested(*settings)[i], " in "@, settings.toastfile_path@, "."@)),
{
    let ghost req = requested(*settings);
    let mut roots: Vec<&'a str> = Vec::new();
    if let Some(tasks) = &settings.tasks {
        let mut i: usize = 0;
        while i < tasks.len()
            invariant
                i <= tasks.len(),
                roots@.map_values(|s: &str| s@) == views(tasks@).subrange(0, i as int),
            decreases tasks.len() - i,
        {
            let ghost before = roots@.map_values(|s: &str| s@);
            roots.push(tasks[i].as_str());
            assert(roots@.map_values(|s: &str| s@) =~= before.push(tasks@[i as int]@));
            assert(views(tasks@).subrange(0, i + 1) =~= views(tasks@).subrange(0, i as int).push(tasks@[i as int]@));
            i = i + 1;
        }
        assert(views(tasks@).subrange(0, tasks.len() as int) =~= views(tasks@));
    }
    let ghost first = roots@.map_values(|s: &str| s@);
    let mut k: usize = 0;
    while k < settings.forced_tasks.len()
        invariant
            k <= settings.forced_tasks.len(),
            roots@.map_values(|s: &str| s@) == first + views(settings.forced_tasks@).subrange(0, k as int),
        decreases settings.forced_tasks.len() - k,
    {
        let ghost before = roots@.map_values(|s: &str| s@);
        roots.push(settings.forced_tasks[k].as_str());
        assert(roots@.map_values(|s: &str| s@) =~= before.push(settings.forced_tasks@[k as int]@));
        assert(views(settings.forced_tasks@).subrange(0, k + 1) =~= views(settings.forced_tasks@).subrange(0, k as int).push(settings.forced_tasks@[k as int]@));
        k = k + 1;
    }
    assert(views(settings.forced_tasks@).subrange(0, k as int) =~= views(settings.forced_tasks@));
    assert(roots@.map_values(|s: &str| s@) =~= req);
    if roots.len() == 0 {
        if let Some(default) = &toastfile.default {
            let mut v: Vec<&'a str> = Vec::new();
            v.push(default.as_str());
            assert(v@.map_values(|s: &str| s@) =~= seq![default@]);
            return Ok(v);
        }
        let tasks = &toastfile.tasks;
        proof {
            use_type_invariant(tasks);
            tasks.lemma_entries();
        }
        let mut v: Vec<&'a str> = Vec::new();
        let mut i: usize = 0;
        while i < tasks.len()
            invariant
                tasks.wf(),
                i <= tasks.key_order().len(),
                v@.map_values(|s: &str| s@) == tasks.key_order().subrange(0, i as int),
            decreases tasks.key_order().len() - i,
        {
            let ghost before = v@.map_values(|s: &str| s@);
            let name = tasks.key_at(i);
            v.push(name.as_str());
            assert(v@.map_values(|s: &str| s@) =~= before.push(name@));
            assert(tasks.key_order().subrange(0, i + 1) =~= tasks.key_order().subrange(0, i as int).push(name@));
            i = i + 1;
        }
        assert(tasks.key_order().subrange(0, i as int) =~= tasks.key_order());
        return Ok(v);
    }
    let mut i: usize = 0;
    while i < roots.len()
        invariant
            i <= roots.len(),
            roots@.map_values(|s: &str| s@) == req,
            req == requested(*settings),
            forall|j: int| 0 <= j < i ==> toastfile.tasks@.dom().contains(#[trigger] req[j]),
        decreases roots.len() - i,
    {
        assert(req[i as int] == roots@[i as int]@);
        if !toastfile.tasks.contains_key(roots[i]) {
            proof {
                reveal_strlit("No task named ");
                reveal_strlit(" in ");
                reveal_strlit(".");
            }
            let m = crate::toastfile::phrase2("No task named ", roots[i], " in ", settings.toastfile_path.as_str(), ".");
            return Err(Failure::User(m, None));
        }
        i = i + 1;
    }
    Ok(roots)
}

/// The variables that the tasks `ts` take from the host environment `host`, all together;
/// where two tasks share a variable, the later task's value stands.
pub open spec fn merged_env(ts: Seq<Task>, host: Map<Seq<char>, String>) -> Map<Seq<char>, Seq<char>>
    decreases ts.len(),
{
    if ts.len() == 0 {
        Map::empty()
    } else {
        let t = ts.last();
        merged_env(ts.drop_last(), host).union_prefer_right(
            Map::new(|k: Seq<char>| t.environment@.dom().contains(k), |k: Seq<char>| env_value(t, host, k)),
        )
    }
}

/// Every variable of every task of the schedule has a value in the gathered variables, so a
/// task's variables can always be looked up once they are gathered.
pub proof fn lemma_merged_env_covers(ts: Seq<Task>, host: Map<Seq<char>, String>, i: int)
    requires
        0 <= i < ts.len(),
    ensures
        ts[i].environment@.dom().subset_of(merged_env(ts, host).dom()),
    decreases ts.len(),
{
    if i < ts.len() - 1 {
        lemma_merged_env_covers(ts.drop_last(), host, i);
        assert(ts.drop_last()[i] == ts[i]);
    }
}

/// The tasks that the names of `schedule` refer to.
pub open spec fn scheduled(schedule: Seq<Seq<char>>, tasks: Map<Seq<char>, Task>) -> Seq<Task> {
    schedule.map_values(|n: Seq<char>| tasks[n])
}

/// A task of `schedule` uses a variable that neither the host environment nor a default
/// gives.
pub open spec fn lacks_variable(t: Task, host: Map<Seq<char>, String>) -> bool {
    exists|k: Seq<char>| #[trigger] t.environment@.dom().contains(k) && var_missing(t, host, k)
}

/// The names of the violations `vs`.
pub open spec fn violation_names(vs: Seq<(Seq<char>, Seq<Seq<char>>)>) -> Seq<Seq<char>> {
    vs.map_values(|v: (Seq<char>, Seq<Seq<char>>)| v.0)
}

/// The tasks of `schedule` that use missing variables, each named once, in the order in
/// which they first come, each with its missing variables in name order.
pub open spec fn env_violations(
    schedule: Seq<Seq<char>>,
    tasks: Map<Seq<char>, Task>,
    host: Map<Seq<char>, String>,
) -> Seq<(Seq<char>, Seq<Seq<char>>)>
    decreases schedule.len(),
{
    if schedule.len() == 0 {
        Seq::empty()
    } else {
        let prev = env_violations(schedule.drop_last(), tasks, host);
        let name = schedule.last();
        let t = tasks[name];
        let vars = missing_vars(t, host, env_keys(t));
        if vars.len() > 0 && !violation_names(prev).contains(name) {
            prev.push((name, vars))
        } else {
            prev
        }
    }
}

/// The message given when tasks use missing variables.
pub open spec fn missing_message(m: Seq<char>, vs: Seq<(Seq<char>, Seq<Seq<char>>)>) -> bool {
    exists|items: Seq<Seq<char>>| #[trigger] describes_violations(items, vs)
        && m == "The following tasks use variables which are missing from the environment: "@
            + spec_series(items) + "."@
}

/// Whether `name` is the name of one of `violations`.
fn listed(violations: &Vec<(String, Vec<String>)>, name: &str) -> (b: bool)
    ensures
        b == violation_names(violation_views(violations@)).contains(name@),
{
    let ghost names = violation_names(violation_views(violations@));
    let mut i: usize = 0;
    while i < violations.len()
        invariant
            i <= violations.len(),
            names == violation_names(violation_views(violations@)),
            forall|j: int| 0 <= j < i ==> #[trigger] names[j] != name@,
        decreases violations.len() - i,
    {
        if str_eq(violations[i].0.as_str(), name) {
            assert(names[i as int] == name@);
            return true;
        }
        i = i + 1;
    }
    false
}

/// Adds the entries of `more` to `env`, replacing those it shares keys with.
fn merge_into(env: &mut StringMap<String>, more: &StringMap<String>)
    ensures
        final(env)@.dom() == old(env)@.dom().union(more@.dom()),
        forall|k: Seq<char>| #[trigger] final(env)@.dom().contains(k) ==> final(env)@[k]@ == (if more@.dom().contains(k) { more@[k]@ } else { old(env)@[k]@ }),
{
    proof {
        use_type_invariant(more);
        more.lemma_entries();
    }
    let ghost ks = more.key_order();
    let ghost start = env@;
    let n = more.len();
    let mut i: usize = 0;
    while i < n
        invariant
            more.wf(),
            ks == more.key_order(),
            n == ks.len(),
            i <= n,
            more@.dom() == ks.to_set(),
            forall|j: int| 0 <= j < ks.len() ==> #[trigger] more@[ks[j]] == more.value_order()[j],
            env@.dom() == start.dom().union(ks.subrange(0, i as int).to_set()),
            forall|k: Seq<char>| #[trigger] env@.dom().contains(k) ==> env@[k]@ == (if ks.subrange(0, i as int).contains(k) { more@[k]@ } else { start[k]@ }),
        decreases n - i,
    {
        let key = more.key_at(i);
        let value = more.value_at(i);
        let ghost s0 = ks.subrange(0, i as int);
        let ghost s1 = ks.subrange(0, i + 1);
        env.insert(key.clone(), value.clone());
        proof {
            assert(s1 =~= s0.push(key@));
            assert forall|k: Seq<char>| #[trigger] s1.contains(k) <==> (s0.contains(k) || k == key@) by {
                if s1.contains(k) {
                    let j = choose|j: int| 0 <= j < s1.len() && s1[j] == k;
                    if j < i {
                        assert(s0[j] == k);
                    }
                }
                if s0.contains(k) {
                    let j = choose|j: int| 0 <= j < s0.len() && s0[j] == k;
                    assert(s1[j] == k);
                }
                if k == key@ {
                    assert(s1[i as int] == k);
                }
            }
            assert(s1.to_set() =~= s0.to_set().insert(key@));
            assert(env@.dom() =~= start.dom().union(s1.to_set()));
        }
        i = i + 1;
    }
    proof {
        assert(ks.subrange(0, n as int) =~= ks);
        assert forall|k: Seq<char>| ks.contains(k) <==> more@.dom().contains(k) by {
            assert(ks.to_set().contains(k) <==> ks.contains(k));
        }
    }
}

/// Gathers the variables that the tasks of `schedule` take from the host environment
/// `host`: each takes the host's value, or else its default, and where two tasks share a
/// variable the later task's value stands. Fails if any task uses a variable that has
/// neither, naming each such task once with its missing variables.
pub fn fetch_environment(schedule: &[&str], tasks: &StringMap<Task>, host: &StringMap<String>) -> (r: Result<StringMap<String>, Failure>)
    requires
        forall|i: int| 0 <= i < schedule.len() ==> tasks@.dom().contains(#[trigger] schedule@[i]@),
    ensures
        r is Ok <==> forall|i: int| 0 <= i < schedule.len() ==> !lacks_variable(#[trigger] tasks@[schedule@[i]@], host@),
        r is Ok <==> env_violations(strs(schedule@), tasks@, host@).len() == 0,
        r matches Ok(env) ==> ({
            let want = merged_env(scheduled(strs(schedule@), tasks@), host@);
            &&& env@.dom() == want.dom()
            &&& forall|k: Seq<char>| #[trigger] env@.dom().contains(k) ==> env@[k]@ == want[k]
        }),
        r matches Err(e) ==> e matches Failure::User(m, None) && missing_message(m@, env_violations(strs(schedule@), tasks@, host@)),
{
    let ghost names = strs(schedule@);
    let mut env: StringMap<String> = StringMap::new();
    let mut violations: Vec<(String, Vec<String>)> = Vec::new();
    let mut i: usize = 0;
    while i < schedule.len()
        invariant
            i <= schedule.len(),
            names == strs(schedule@),
            forall|j: int| 0 <= j < schedule.len() ==> tasks@.dom().contains(#[trigger] schedule@[j]@),
            violation_views(violations@) == env_violations(names.subrange(0, i as int), tasks@, host@),
            violations.len() == 0 <==> forall|j: int| 0 <= j < i ==> !lacks_variable(#[trigger] tasks@[schedule@[j]@], host@),
            violations.len() == 0 ==> ({
                let want = merged_env(scheduled(names.subrange(0, i as int), tasks@), host@);
                &&& env@.dom() == want.dom()
                &&& forall|k: Seq<char>| #[trigger] env@.dom().contains(k) ==> env@[k]@ == want[k]
            }),
        decreases schedule.len() - i,
    {
        let name = schedule[i];
        let task = match tasks.get(name) {
            Some(t) => t,
            None => {
                assert(false);
                return Err(Failure::Interrupted);
            },
        };
        let ghost prefix = names.subrange(0, i as int);
        let ghost next = names.subrange(0, i + 1);
        let ghost prev_vs = violation_views(violations@);
        let ghost before_env = env@;
        proof {
            assert(next.drop_last() =~= prefix);
            assert(next.last() == name@);
            assert(scheduled(next, tasks@).drop_last() =~= scheduled(prefix, tasks@));
            assert(scheduled(next, tasks@).last() == *task);
            lemma_missing_vars_empty(*task, host@, env_keys(*task));
            use_type_invariant(&task.environment);
            task.environment.lemma_entries();
        }
        match environment(task, host) {
            Ok(more) => {
                proof {
                    assert(!lacks_variable(*task, host@));
                    assert forall|j: int| 0 <= j < env_keys(*task).len() implies !var_missing(*task, host@, #[trigger] env_keys(*task)[j]) by {
                        assert(env_keys(*task).to_set().contains(env_keys(*task)[j]));
                    }
                }
                merge_into(&mut env, &more);
                proof {
                    if violations.len() == 0 {
                        let want = merged_env(scheduled(next, tasks@), host@);
                        assert(env@.dom() =~= want.dom());
                    }
                }
            },
            Err(vars) => {
                proof {
                    assert(missing_vars(*task, host@, env_keys(*task)).len() > 0);
                    let j = choose|j: int| 0 <= j < env_keys(*task).len() && var_missing(*task, host@, #[trigger] env_keys(*task)[j]);
                    assert(task.environment@.dom().contains(env_keys(*task)[j]));
                    assert(lacks_variable(*task, host@));
                }
                if !listed(&violations, name) {
                    let mut owned: Vec<String> = Vec::new();
                    let mut k: usize = 0;
                    while k < vars.len()
                        invariant
                            k <= vars.len(),
                            views(owned@) == vars@.map_values(|s: &str| s@).subrange(0, k as int),
                        decreases vars.len() - k,
                    {
                        let ghost before = views(owned@);
                        owned.push(String::from_str(vars[k]));
                        assert(views(owned@) =~= before.push(vars@[k as int]@));
                        assert(vars@.map_values(|s: &str| s@).subrange(0, k + 1) =~= vars@.map_values(|s: &str| s@).subrange(0, k as int).push(vars@[k as int]@));
                        k = k + 1;
                    }
                    assert(vars@.map_values(|s: &str| s@).subrange(0, vars.len() as int) =~= vars@.map_values(|s: &str| s@));
                    violations.push((String::from_str(name), owned));
                    assert(violation_views(violations@) =~= prev_vs.push((name@, missing_vars(*task, host@, env_keys(*task)))));
                } else {
                    assert(prev_vs.len() > 0);
                }
            },
        }
        i = i + 1;
    }
    assert(names.subrange(0, schedule.len() as int) =~= names);
    if violations.len() == 0 {
        Ok(env)
    } else {
        let items = describe_all(&violations);
        let listed = series(items.as_slice());
        proof {
            reveal_strlit("The following tasks use variables which are missing from the environment: ");
            reveal_strlit(".");
        }
        let mut m = String::from_str("The following tasks use variables which are missing from the environment: ");
        m.append(listed.as_str());
        m.append(".");
        assert(describes_violations(views(items@), violation_views(violations@)));
        Err(Failure::User(m, None))
    }
}

} // verus!
