use toast::cache::initial_key;
use toast::session::{after_task, run_step, start_run, RunAction};
use toast::session::after_shell;
use toast::failure::Failure;
use toast::runner::Plan;
use toast::session::{announcement, caching_flags, goes_on, shell_setup, task_list, task_plan};
use toast::settings::Settings;
use toast::strmap::StringMap;
use toast::toastfile::{Task, Toastfile, DEFAULT_LOCATION, DEFAULT_USER};

fn task(cache: bool) -> Task {
    Task {
        description: None,
        dependencies: vec![],
        cache,
        environment: StringMap::new(),
        input_paths: vec![],
        output_paths: vec![],
        output_paths_on_failure: vec![],
        mount_paths: vec![],
        mount_readonly: false,
        ports: vec![],
        location: DEFAULT_LOCATION.to_owned(),
        user: DEFAULT_USER.to_owned(),
        command: String::new(),
        command_prefix: None,
    }
}

#[test]
fn caching_stops_at_first_uncached_task() {
    let mut tasks = StringMap::new();
    tasks.insert("a".to_owned(), task(true));
    tasks.insert("b".to_owned(), task(false));
    tasks.insert("c".to_owned(), task(true));
    let flags = caching_flags(&["a", "b", "c"], &tasks, &vec![]);
    assert_eq!(flags, vec![true, false, false]);
}

#[test]
fn caching_stops_at_forced_task() {
    let mut tasks = StringMap::new();
    tasks.insert("a".to_owned(), task(true));
    tasks.insert("b".to_owned(), task(true));
    tasks.insert("c".to_owned(), task(true));
    let flags = caching_flags(&["a", "b", "c"], &tasks, &vec!["b".to_owned()]);
    assert_eq!(flags, vec![true, false, false]);
    let flags = caching_flags(&["a", "b", "c"], &tasks, &vec![]);
    assert_eq!(flags, vec![true, true, true]);
}

#[test]
fn announcement_of_schedule() {
    assert_eq!(announcement(&[]), None);
    let m = announcement(&["foo", "bar"]).unwrap();
    assert!(m.starts_with("Ready to run 2 tasks: "));
    assert!(m.contains("foo") && m.contains(" and ") && m.contains("bar"));
    assert!(m.ends_with('.'));
    let one = announcement(&["foo"]).unwrap();
    assert!(one.starts_with("Ready to run 1 task: "));
}

#[test]
fn goes_on_to_shell() {
    assert!(goes_on(&Ok(())));
    assert!(goes_on(&Err(Failure::User("Command failed.".to_owned(), None))));
    assert!(!goes_on(&Err(Failure::Interrupted)));
    assert!(!goes_on(&Err(Failure::System("x".to_owned(), None))));
}

#[test]
fn shell_like_last_task() {
    let mut t = task(false);
    t.environment.insert("V".to_owned(), None);
    t.location = "/code".to_owned();
    t.user = "dev".to_owned();
    t.ports = vec!["8080:80".to_owned()];
    let mut tasks = StringMap::new();
    tasks.insert("a".to_owned(), t);
    let toastfile = Toastfile { image: "img".to_owned(), default: None, command_prefix: String::new(), tasks };
    let mut env = StringMap::new();
    env.insert("V".to_owned(), "1".to_owned());
    env.insert("W".to_owned(), "2".to_owned());
    let setup = shell_setup(&toastfile, Some("a"), &env);
    let mut expected_env = StringMap::new();
    expected_env.insert("V".to_owned(), "1".to_owned());
    assert_eq!(setup.environment, expected_env);
    assert_eq!(setup.location, "/code");
    assert_eq!(setup.user, "dev");
    assert_eq!(setup.ports, vec!["8080:80".to_owned()]);
    let base = shell_setup(&toastfile, None, &env);
    assert_eq!(base.location, "/");
    assert_eq!(base.user, "root");
    assert_eq!(base.environment, StringMap::new());
    assert!(base.mount_paths.is_empty() && base.ports.is_empty() && !base.mount_readonly);
}

#[test]
fn listing_of_described_tasks() {
    let mut a = task(true);
    a.description = Some("Build it.".to_owned());
    a.environment.insert("B".to_owned(), Some("x".to_owned()));
    a.environment.insert("A".to_owned(), None);
    let b = task(true);
    let mut c = task(true);
    c.description = Some("Check it.".to_owned());
    let mut tasks = StringMap::new();
    tasks.insert("c".to_owned(), c);
    tasks.insert("b".to_owned(), b);
    tasks.insert("a".to_owned(), a);
    let toastfile = Toastfile { image: "img".to_owned(), default: None, command_prefix: String::new(), tasks };
    let lines = task_list(&toastfile);
    assert_eq!(lines.len(), 4);
    assert!(lines[0].starts_with("* ") && lines[0].ends_with(" \u{2014} Build it."));
    assert!(lines[1].starts_with("  ") && lines[1].ends_with(": (no default provided)"));
    assert!(lines[1].contains('A'));
    assert!(lines[2].contains('B') && lines[2].contains(": "));
    assert!(lines[3].ends_with(" \u{2014} Check it."));
}

#[test]
fn plan_for_task() {
    let settings = Settings {
        toastfile_path: "toast.yml".to_owned(),
        docker_cli: "docker".to_owned(),
        docker_repo: "toast".to_owned(),
        read_local_cache: true,
        write_local_cache: false,
        read_remote_cache: true,
        write_remote_cache: false,
        list: false,
        spawn_shell: false,
        tasks: None,
        forced_tasks: vec![],
    };
    let mut t = task(true);
    t.output_paths = vec!["out".to_owned()];
    t.output_paths_on_failure = vec!["log".to_owned()];
    assert_eq!(
        task_plan(&settings, &t, true, false),
        Plan {
            caching_enabled: true,
            read_local_cache: true,
            read_remote_cache: true,
            write_local_cache: false,
            write_remote_cache: false,
            has_outputs: true,
            has_failure_outputs: true,
            context_persist: false,
        }
    );
}

#[test]
fn run_steps_chain_cache_keys() {
    let flags = vec![true, false];
    let state = start_run("img");
    assert_eq!(state.cache_key, initial_key("img"));
    assert_eq!(
        run_step(2, &flags, &state, false),
        RunAction::Run(0, initial_key("img"), true)
    );
    let state = after_task(state, Ok("k1".to_owned())).unwrap();
    assert_eq!(run_step(2, &flags, &state, false), RunAction::Run(1, "k1".to_owned(), false));
    assert_eq!(
        run_step(2, &flags, &state, true),
        RunAction::Stop(Err(Failure::Interrupted), Some(1))
    );
    let stopped = after_task(state, Err(Failure::User("Command failed.".to_owned(), None)));
    assert_eq!(
        stopped,
        Err((Failure::User("Command failed.".to_owned(), None), 1))
    );
    let done = toast::session::RunState { next: 2, cache_key: "k2".to_owned() };
    assert_eq!(run_step(2, &flags, &done, false), RunAction::Stop(Ok(()), Some(1)));
    let empty = start_run("img");
    assert_eq!(run_step(0, &vec![], &empty, false), RunAction::Stop(Ok(()), None));
}

#[test]
fn result_after_shell() {
    let failed = Err(Failure::User("Command failed.".to_owned(), None));
    assert_eq!(after_shell(Ok(()), Ok(())), Ok(()));
    assert_eq!(
        after_shell(Ok(()), Err(Failure::Interrupted)),
        Err(Failure::Interrupted)
    );
    assert_eq!(
        after_shell(Err(Failure::User("Command failed.".to_owned(), None)), Ok(())),
        failed
    );
}
