use toast::config::Config;
use toast::failure::Failure;
use toast::settings::{fetch_environment, get_roots, parse_bool, settings_from, Arguments, Settings};
use toast::strmap::StringMap;
use toast::toastfile::{Task, Toastfile, DEFAULT_LOCATION, DEFAULT_USER};

fn task() -> Task {
    Task {
        description: None,
        dependencies: vec![],
        cache: true,
        environment: StringMap::new(),
        input_paths: vec![],
        output_paths: vec![],
        output_paths_on_failure: vec![],
        mount_paths: vec![],
        mount_readonly: false,
        ports: vec![],
        location: DEFAULT_LOCATION.to_owned(),
        user: DEFAULT_USER.to_owned(),
        command: String::new(),
        command_prefix: None,
    }
}

fn settings(tasks: Option<Vec<&str>>, forced: Vec<&str>) -> Settings {
    Settings {
        toastfile_path: "toast.yml".to_owned(),
        docker_cli: "docker".to_owned(),
        docker_repo: "toast".to_owned(),
        read_local_cache: true,
        write_local_cache: true,
        read_remote_cache: false,
        write_remote_cache: false,
        list: false,
        spawn_shell: false,
        tasks: tasks.map(|v| v.into_iter().map(|s| s.to_owned()).collect()),
        forced_tasks: forced.into_iter().map(|s| s.to_owned()).collect(),
    }
}

fn toastfile(default: Option<&str>, names: &[&str]) -> Toastfile {
    let mut tasks = StringMap::new();
    for name in names {
        tasks.insert((*name).to_owned(), task());
    }
    Toastfile { image: "encom:os-12".to_owned(), default: default.map(|d| d.to_owned()), command_prefix: String::new(), tasks }
}

fn config() -> Config {
    Config {
        docker_cli: "docker".to_owned(),
        docker_repo: "toast".to_owned(),
        read_local_cache: true,
        write_local_cache: true,
        read_remote_cache: false,
        write_remote_cache: false,
    }
}

fn arguments() -> Arguments {
    Arguments {
        toastfile_path: "dir/toast.yml".to_owned(),
        docker_cli: None,
        docker_repo: None,
        read_local_cache: None,
        write_local_cache: None,
        read_remote_cache: None,
        write_remote_cache: None,
        list: false,
        spawn_shell: true,
        tasks: Some(vec!["build".to_owned()]),
        forced_tasks: vec![],
    }
}

#[test]
fn parse_bool_words() {
    assert_eq!(parse_bool("true"), Ok(true));
    assert_eq!(parse_bool(" YES "), Ok(true));
    assert_eq!(parse_bool("False"), Ok(false));
    assert_eq!(parse_bool("no\n"), Ok(false));
}

#[test]
fn parse_bool_rejects_other_words() {
    match parse_bool("maybe") {
        Err(Failure::User(m, None)) => {
            assert!(m.contains("maybe"));
            assert!(m.ends_with(" is not a Boolean."));
        }
        other => panic!("unexpected result: {:?}", other),
    }
}

#[test]
fn settings_from_config_defaults() {
    let s = settings_from(arguments(), &config()).unwrap();
    assert_eq!(s.toastfile_path, "dir/toast.yml");
    assert_eq!(s.docker_cli, "docker");
    assert_eq!(s.docker_repo, "toast");
    assert!(s.read_local_cache && s.write_local_cache);
    assert!(!s.read_remote_cache && !s.write_remote_cache);
    assert!(s.spawn_shell && !s.list);
    assert_eq!(s.tasks, Some(vec!["build".to_owned()]));
}

#[test]
fn settings_from_command_line_overrides() {
    let mut a = arguments();
    a.docker_cli = Some("podman".to_owned());
    a.docker_repo = Some("registry/repo".to_owned());
    a.read_local_cache = Some("no".to_owned());
    a.write_remote_cache = Some("yes".to_owned());
    let s = settings_from(a, &config()).unwrap();
    assert_eq!(s.docker_cli, "podman");
    assert_eq!(s.docker_repo, "registry/repo");
    assert!(!s.read_local_cache);
    assert!(s.write_remote_cache);
}

#[test]
fn settings_from_bad_switch() {
    let mut a = arguments();
    a.write_local_cache = Some("sometimes".to_owned());
    a.read_remote_cache = Some("never".to_owned());
    match settings_from(a, &config()) {
        Err(Failure::User(m, None)) => assert!(m.contains("sometimes") && !m.contains("never")),
        other => panic!("unexpected result: {:?}", other.is_ok()),
    }
}

#[test]
fn get_roots_given_tasks_then_forced() {
    let s = settings(Some(vec!["b"]), vec!["a"]);
    let t = toastfile(None, &["a", "b", "c"]);
    assert_eq!(get_roots(&s, &t).unwrap(), vec!["b", "a"]);
}

#[test]
fn get_roots_default_task() {
    let s = settings(None, vec![]);
    let t = toastfile(Some("b"), &["a", "b", "c"]);
    assert_eq!(get_roots(&s, &t).unwrap(), vec!["b"]);
}

#[test]
fn get_roots_all_tasks_in_name_order() {
    let s = settings(Some(vec![]), vec![]);
    let t = toastfile(None, &["c", "a", "b"]);
    assert_eq!(get_roots(&s, &t).unwrap(), vec!["a", "b", "c"]);
}

#[test]
fn get_roots_unknown_task() {
    let s = settings(Some(vec!["a", "zzz", "yyy"]), vec![]);
    let t = toastfile(None, &["a"]);
    match get_roots(&s, &t) {
        Err(Failure::User(m, None)) => {
            assert!(m.starts_with("No task named "));
            assert!(m.contains("zzz"));
            assert!(!m.contains("yyy"));
            assert!(m.contains("toast.yml"));
        }
        other => panic!("unexpected result: {:?}", other),
    }
}

#[test]
fn fetch_environment_merges() {
    let mut a = task();
    a.environment.insert("X".to_owned(), Some("a-default".to_owned()));
    a.environment.insert("Y".to_owned(), None);
    let mut b = task();
    b.environment.insert("X".to_owned(), Some("b-default".to_owned()));
    let mut tasks = StringMap::new();
    tasks.insert("a".to_owned(), a);
    tasks.insert("b".to_owned(), b);
    let mut host = StringMap::new();
    host.insert("Y".to_owned(), "from-host".to_owned());
    let env = fetch_environment(&["a", "b"], &tasks, &host).unwrap();
    let mut expected = StringMap::new();
    expected.insert("X".to_owned(), "b-default".to_owned());
    expected.insert("Y".to_owned(), "from-host".to_owned());
    assert_eq!(env, expected);
}

#[test]
fn fetch_environment_missing() {
    let mut a = task();
    a.environment.insert("Q".to_owned(), None);
    a.environment.insert("P".to_owned(), None);
    let mut tasks = StringMap::new();
    tasks.insert("a".to_owned(), a);
    tasks.insert("b".to_owned(), task());
    let host = StringMap::new();
    match fetch_environment(&["b", "a", "a"], &tasks, &host) {
        Err(Failure::User(m, None)) => {
            assert!(m.starts_with(
                "The following tasks use variables which are missing from the environment: "
            ));
            assert!(m.ends_with(")."));
            let p = m.find('P').unwrap();
            let q = m.find('Q').unwrap();
            assert!(p < q);
            assert_eq!(m.matches(" (").count(), 1);
        }
        other => panic!("unexpected result: {:?}", other),
    }
}
