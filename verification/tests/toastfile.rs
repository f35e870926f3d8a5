use toast::failure::Failure;
use toast::strmap::StringMap;
use toast::toastfile::{
    check_dependencies, check_task, environment, prefixed, validate, Task, Toastfile, DEFAULT_LOCATION,
    DEFAULT_USER,
};

fn task() -> Task {
    Task {
        description: None,
        dependencies: vec![],
        cache: true,
        environment: StringMap::new(),
        input_paths: vec![],
        output_paths: vec![],
        output_paths_on_failure: vec![],
        mount_paths: vec![],
        mount_readonly: false,
        ports: vec![],
        location: DEFAULT_LOCATION.to_owned(),
        user: DEFAULT_USER.to_owned(),
        command: String::new(),
        command_prefix: None,
    }
}

fn task_with_dependencies(dependencies: &[&str]) -> Task {
    let mut t = task();
    t.dependencies = dependencies.iter().map(|d| (*d).to_owned()).collect();
    t
}

fn toastfile(default: Option<&str>, tasks: Vec<(&str, Task)>) -> Toastfile {
    let mut map = StringMap::new();
    for (name, t) in tasks {
        map.insert(name.to_owned(), t);
    }
    Toastfile {
        image: "encom:os-12".to_owned(),
        default: default.map(|d| d.to_owned()),
        command_prefix: String::new(),
        tasks: map,
    }
}

fn host(pairs: &[(&str, &str)]) -> StringMap<String> {
    let mut m = StringMap::new();
    for (k, v) in pairs {
        m.insert((*k).to_owned(), (*v).to_owned());
    }
    m
}

#[test]
fn environment_empty() {
    let task = task();
    assert_eq!(environment(&task, &host(&[])), Ok(StringMap::new()));
}

#[test]
fn environment_default_overridden() {
    let mut t = task();
    t.environment.insert("foo1".to_owned(), Some("bar".to_owned()));
    let mut expected = StringMap::new();
    expected.insert("foo1".to_owned(), "baz".to_owned());
    assert_eq!(environment(&t, &host(&[("foo1", "baz")])), Ok(expected));
}

#[test]
fn environment_default_not_overridden() {
    let mut t = task();
    t.environment.insert("foo2".to_owned(), Some("bar".to_owned()));
    let mut expected = StringMap::new();
    expected.insert("foo2".to_owned(), "bar".to_owned());
    assert_eq!(environment(&t, &host(&[("other", "x")])), Ok(expected));
}

#[test]
fn environment_missing() {
    let mut t = task();
    t.environment.insert("foo3".to_owned(), None);
    let result = environment(&t, &host(&[]));
    assert!(result.is_err());
    assert_eq!(result.unwrap_err()[0].to_owned(), "foo3");
}

#[test]
fn environment_missing_in_name_order() {
    let mut t = task();
    t.environment.insert("zeta".to_owned(), None);
    t.environment.insert("alpha".to_owned(), None);
    t.environment.insert("mid".to_owned(), Some("d".to_owned()));
    let result = environment(&t, &host(&[]));
    assert_eq!(result, Err(vec!["alpha", "zeta"]));
}

#[test]
fn check_dependencies_valid_default() {
    let toastfile = toastfile(Some("foo"), vec![("foo", task())]);
    assert!(check_dependencies(&toastfile).is_ok());
}

#[test]
fn check_dependencies_invalid_default() {
    let toastfile = toastfile(Some("bar"), vec![("foo", task())]);
    let result = check_dependencies(&toastfile);
    assert!(result.is_err());
    assert!(result.unwrap_err().to_string().contains("bar"));
}

#[test]
fn check_dependencies_empty() {
    let toastfile = toastfile(None, vec![]);
    assert!(check_dependencies(&toastfile).is_ok());
}

#[test]
fn check_dependencies_single() {
    let toastfile = toastfile(None, vec![("foo", task())]);
    assert!(check_dependencies(&toastfile).is_ok());
}

#[test]
fn check_task_dependencies_nonempty() {
    let toastfile = toastfile(
        None,
        vec![("foo", task()), ("bar", task_with_dependencies(&["foo"]))],
    );
    assert!(check_dependencies(&toastfile).is_ok());
}

#[test]
fn check_dependencies_nonexistent() {
    let toastfile = toastfile(
        None,
        vec![("foo", task()), ("bar", task_with_dependencies(&["foo", "baz"]))],
    );
    let result = check_dependencies(&toastfile);
    assert!(result.is_err());
    assert!(result.unwrap_err().to_string().contains("baz"));
}

#[test]
fn check_dependencies_nonexistent_message() {
    let toastfile = toastfile(
        None,
        vec![("foo", task()), ("bar", task_with_dependencies(&["foo", "baz", "qux"]))],
    );
    let message = check_dependencies(&toastfile).unwrap_err().to_string();
    assert!(message.starts_with("The following tasks have invalid dependencies: "));
    assert!(message.ends_with(")."));
    let baz = message.find("baz").unwrap();
    let qux = message.find("qux").unwrap();
    assert!(baz < qux);
    assert!(message[baz..qux].contains(" and "));
}

#[test]
fn check_dependencies_invalid_default_and_dependencies() {
    let toastfile = toastfile(
        Some("nope"),
        vec![("foo", task_with_dependencies(&["baz"]))],
    );
    let message = check_dependencies(&toastfile).unwrap_err().to_string();
    assert!(message.starts_with("The default task "));
    assert!(message.contains("nope"));
    assert!(message.contains(" does not exist, and the following tasks have invalid dependencies: "));
    assert!(message.contains("baz"));
}

#[test]
fn check_dependencies_cycle_1() {
    let toastfile = toastfile(None, vec![("foo", task_with_dependencies(&["foo"]))]);
    let result = check_dependencies(&toastfile);
    assert!(result.is_err());
    assert!(result.unwrap_err().to_string().contains("cyclic"));
}

#[test]
fn check_dependencies_cycle_1_message() {
    let toastfile = toastfile(None, vec![("foo", task_with_dependencies(&["foo"]))]);
    let message = check_dependencies(&toastfile).unwrap_err().to_string();
    assert!(message.starts_with("The dependencies are cyclic. "));
    assert!(message.ends_with(" depends on itself."));
}

#[test]
fn check_dependencies_cycle_2() {
    let toastfile = toastfile(
        None,
        vec![
            ("foo", task_with_dependencies(&["bar"])),
            ("bar", task_with_dependencies(&["foo"])),
        ],
    );
    let result = check_dependencies(&toastfile);
    assert!(result.is_err());
    assert!(result.unwrap_err().to_string().contains("cyclic"));
}

#[test]
fn check_dependencies_cycle_2_message() {
    let toastfile = toastfile(
        None,
        vec![
            ("foo", task_with_dependencies(&["bar"])),
            ("bar", task_with_dependencies(&["foo"])),
        ],
    );
    let message = check_dependencies(&toastfile).unwrap_err().to_string();
    assert!(message.ends_with(" depend on each other."));
}

#[test]
fn check_dependencies_cycle_3() {
    let toastfile = toastfile(
        None,
        vec![
            ("foo", task_with_dependencies(&["baz"])),
            ("bar", task_with_dependencies(&["foo"])),
            ("baz", task_with_dependencies(&["bar"])),
        ],
    );
    let result = check_dependencies(&toastfile);
    assert!(result.is_err());
    assert!(result.unwrap_err().to_string().contains("cyclic"));
}

#[test]
fn check_task_environment_ok() {
    let mut t = task();
    t.environment.insert("corge".to_owned(), None);
    t.environment.insert("grault".to_owned(), None);
    t.environment.insert("garply".to_owned(), None);
    assert!(check_task("foo", &t).is_ok());
}

#[test]
fn check_task_environment_equals() {
    let mut t = task();
    t.environment.insert("corge".to_owned(), None);
    t.environment.insert("gra=ult".to_owned(), None);
    t.environment.insert("garply".to_owned(), None);
    let result = check_task("foo", &t);
    assert!(result.is_err());
    assert!(result.unwrap_err().to_string().contains('='));
}

#[test]
fn check_task_paths_ok() {
    let mut t = task();
    t.cache = false;
    t.input_paths = vec!["bar".to_owned()];
    t.output_paths = vec!["baz".to_owned()];
    t.mount_paths = vec!["qux".to_owned()];
    assert!(check_task("foo", &t).is_ok());
}

#[test]
fn check_task_paths_absolute_input_paths() {
    let mut t = task();
    t.input_paths = vec!["/bar".to_owned()];
    let result = check_task("foo", &t);
    assert!(result.is_err());
    assert!(result.unwrap_err().to_string().contains("/bar"));
}

#[test]
fn check_task_paths_absolute_output_paths() {
    let mut t = task();
    t.cache = false;
    t.output_paths = vec!["/bar".to_owned()];
    let result = check_task("foo", &t);
    assert!(result.is_err());
    assert!(result.unwrap_err().to_string().contains("/bar"));
}

#[test]
fn check_task_paths_absolute_mount_paths() {
    let mut t = task();
    t.cache = false;
    t.mount_paths = vec!["/bar".to_owned()];
    assert!(check_task("foo", &t).is_ok());
}

#[test]
fn check_task_paths_mount_paths_comma() {
    let mut t = task();
    t.mount_paths = vec!["bar,baz".to_owned()];
    let result = check_task("foo", &t);
    assert!(result.is_err());
    assert!(result.unwrap_err().to_string().contains("bar,baz"));
}

#[test]
fn check_task_paths_relative_location() {
    let mut t = task();
    t.location = "code".to_owned();
    let result = check_task("foo", &t);
    assert!(result.is_err());
    assert!(result.unwrap_err().to_string().contains("code"));
}

#[test]
fn check_task_caching_enabled_with_ports() {
    let mut t = task();
    t.ports = vec!["3000:80".to_owned()];
    let result = check_task("foo", &t);
    assert!(result.is_err());
    assert!(result.unwrap_err().to_string().contains("caching"));
}

#[test]
fn check_task_caching_disabled_with_ports() {
    let mut t = task();
    t.cache = false;
    t.ports = vec!["3000:80".to_owned()];
    assert!(check_task("foo", &t).is_ok());
}

#[test]
fn check_task_caching_enabled_with_mount_paths() {
    let mut t = task();
    t.mount_paths = vec!["bar".to_owned()];
    let result = check_task("foo", &t);
    assert!(result.is_err());
    assert!(result.unwrap_err().to_string().contains("mount_paths"));
}

#[test]
fn check_task_caching_disabled_with_mount_paths() {
    let mut t = task();
    t.cache = false;
    t.mount_paths = vec!["bar".to_owned()];
    t.ports = vec!["3000:80".to_owned()];
    assert!(check_task("foo", &t).is_ok());
}

#[test]
fn validate_accepts_valid_toastfile() {
    let t = toastfile(Some("foo"), vec![("foo", task()), ("bar", task_with_dependencies(&["foo"]))]);
    let expected = toastfile(Some("foo"), vec![("foo", task()), ("bar", task_with_dependencies(&["foo"]))]);
    assert_eq!(validate(t), Ok(expected));
}

#[test]
fn validate_reports_first_invalid_task_in_name_order() {
    let mut b = task();
    b.location = "relative_b".to_owned();
    let mut a = task();
    a.location = "relative_a".to_owned();
    let t = toastfile(None, vec![("b", b), ("a", a)]);
    match validate(t) {
        Err(Failure::User(m, None)) => {
            assert!(m.contains("relative_a"));
            assert!(!m.contains("relative_b"));
        }
        other => panic!("unexpected result: {:?}", other),
    }
}

#[test]
fn command_prefix_of_toastfile() {
    let mut t = task();
    t.command = "apt-get update".to_owned();
    let mut file = toastfile(None, vec![]);
    file.command_prefix = "set -e".to_owned();
    let run = prefixed(&file, &t);
    assert_eq!(run.command, "set -e\napt-get update");
    assert_eq!(run.command_prefix, Some(String::new()));
    assert_eq!(run.location, t.location);
}

#[test]
fn command_prefix_of_task_overrides() {
    let mut t = task();
    t.command = "make".to_owned();
    t.command_prefix = Some("set -eu".to_owned());
    let mut file = toastfile(None, vec![]);
    file.command_prefix = "set -e".to_owned();
    assert_eq!(prefixed(&file, &t).command, "set -eu\nmake");
    t.command_prefix = Some(String::new());
    assert_eq!(prefixed(&file, &t).command, "make");
}

#[test]
fn no_command_prefix() {
    let mut t = task();
    t.command = "make".to_owned();
    t.environment.insert("V".to_owned(), Some("1".to_owned()));
    let file = toastfile(None, vec![]);
    let run = prefixed(&file, &t);
    assert_eq!(run.command, "make");
    assert_eq!(run.environment, t.environment);
}
