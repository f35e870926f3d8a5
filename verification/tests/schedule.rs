use toast::schedule::compute;
use toast::strmap::StringMap;
use toast::toastfile::{Task, Toastfile, DEFAULT_LOCATION, DEFAULT_USER};

fn task_with_dependencies(dependencies: Vec<String>) -> Task {
    Task {
        description: None,
        dependencies,
        cache: true,
        environment: StringMap::new(),
        input_paths: vec![],
        output_paths: vec![],
        output_paths_on_failure: vec![],
        mount_paths: vec![],
        mount_readonly: false,
        ports: vec![],
        location: DEFAULT_LOCATION.to_owned(),
        user: DEFAULT_USER.to_owned(),
        command: String::new(),
        command_prefix: None,
    }
}

fn empty_task() -> Task {
    task_with_dependencies(vec![])
}

fn toastfile(tasks: StringMap<Task>) -> Toastfile {
    Toastfile {
        image: "encom:os-12".to_owned(),
        default: None,
        command_prefix: String::new(),
        tasks,
    }
}

#[test]
fn schedule_empty() {
    let toastfile = toastfile(StringMap::new());
    let actual: Vec<&str> = compute(&toastfile, &[]);
    let expected: Vec<&str> = vec![];
    assert_eq!(actual, expected);
}

#[test]
fn schedule_single() {
    let mut tasks = StringMap::new();
    tasks.insert("foo".to_owned(), empty_task());
    let toastfile = toastfile(tasks);
    let actual: Vec<&str> = compute(&toastfile, &["foo"]);
    let expected: Vec<&str> = vec!["foo"];
    assert_eq!(actual, expected);
}

#[test]
fn schedule_linear() {
    let mut tasks = StringMap::new();
    tasks.insert("foo".to_owned(), empty_task());
    tasks.insert("bar".to_owned(), task_with_dependencies(vec!["foo".to_owned()]));
    tasks.insert("baz".to_owned(), task_with_dependencies(vec!["bar".to_owned()]));
    let toastfile = toastfile(tasks);
    let actual: Vec<&str> = compute(&toastfile, &["baz"]);
    let expected: Vec<&str> = vec!["foo", "bar", "baz"];
    assert_eq!(actual, expected);
}

#[test]
fn schedule_diamond() {
    let mut tasks = StringMap::new();
    tasks.insert("foo".to_owned(), empty_task());
    tasks.insert("bar".to_owned(), task_with_dependencies(vec!["foo".to_owned()]));
    tasks.insert("baz".to_owned(), task_with_dependencies(vec!["foo".to_owned()]));
    tasks.insert(
        "qux".to_owned(),
        task_with_dependencies(vec!["bar".to_owned(), "baz".to_owned()]),
    );
    let toastfile = toastfile(tasks);
    let actual: Vec<&str> = compute(&toastfile, &["qux"]);
    let expected: Vec<&str> = vec!["foo", "bar", "baz", "qux"];
    assert_eq!(actual, expected);
}

#[test]
fn schedule_lexicographical_tie_breaking() {
    let mut tasks = StringMap::new();
    tasks.insert("foo".to_owned(), empty_task());
    tasks.insert("bar".to_owned(), empty_task());
    tasks.insert("baz".to_owned(), empty_task());
    let toastfile = toastfile(tasks);
    let actual: Vec<&str> = compute(&toastfile, &["foo", "bar", "baz"]);
    let expected: Vec<&str> = vec!["bar", "baz", "foo"];
    assert_eq!(actual, expected);
}

#[test]
fn schedule_dependency_duplicates() {
    let mut tasks1 = StringMap::new();
    tasks1.insert("foo".to_owned(), empty_task());
    tasks1.insert("bar".to_owned(), empty_task());
    tasks1.insert(
        "baz".to_owned(),
        task_with_dependencies(vec!["foo".to_owned(), "bar".to_owned(), "foo".to_owned()]),
    );
    let mut tasks2 = StringMap::new();
    tasks2.insert("foo".to_owned(), empty_task());
    tasks2.insert("bar".to_owned(), empty_task());
    tasks2.insert(
        "baz".to_owned(),
        task_with_dependencies(vec!["bar".to_owned(), "foo".to_owned(), "bar".to_owned()]),
    );
    let toastfile1 = toastfile(tasks1);
    let toastfile2 = toastfile(tasks2);
    let first: Vec<&str> = compute(&toastfile1, &["baz"]);
    let second: Vec<&str> = compute(&toastfile2, &["baz"]);
    assert_eq!(first, second);
}

#[test]
fn schedule_input_duplicates() {
    let mut tasks = StringMap::new();
    tasks.insert("foo".to_owned(), empty_task());
    tasks.insert("bar".to_owned(), empty_task());
    tasks.insert("baz".to_owned(), empty_task());
    let toastfile = toastfile(tasks);
    let first: Vec<&str> = compute(&toastfile, &["baz", "bar", "baz"]);
    let second: Vec<&str> = compute(&toastfile, &["bar", "baz", "bar"]);
    assert_eq!(first, second);
}

#[test]
fn schedule_dependency_order() {
    let mut tasks1 = StringMap::new();
    tasks1.insert("foo".to_owned(), empty_task());
    tasks1.insert("bar".to_owned(), empty_task());
    tasks1.insert("baz".to_owned(), empty_task());
    tasks1.insert(
        "qux".to_owned(),
        task_with_dependencies(vec!["foo".to_owned(), "bar".to_owned(), "baz".to_owned()]),
    );
    let mut tasks2 = StringMap::new();
    tasks2.insert("foo".to_owned(), empty_task());
    tasks2.insert("bar".to_owned(), empty_task());
    tasks2.insert("baz".to_owned(), empty_task());
    tasks2.insert(
        "qux".to_owned(),
        task_with_dependencies(vec!["baz".to_owned(), "bar".to_owned(), "foo".to_owned()]),
    );
    let toastfile1 = toastfile(tasks1);
    let toastfile2 = toastfile(tasks2);
    let first: Vec<&str> = compute(&toastfile1, &["baz"]);
    let second: Vec<&str> = compute(&toastfile2, &["baz"]);
    assert_eq!(first, second);
}

#[test]
fn schedule_input_order() {
    let mut tasks = StringMap::new();
    tasks.insert("foo".to_owned(), empty_task());
    tasks.insert("bar".to_owned(), empty_task());
    tasks.insert("baz".to_owned(), empty_task());
    let toastfile = toastfile(tasks);
    let first: Vec<&str> = compute(&toastfile, &["foo", "bar", "baz"]);
    let second: Vec<&str> = compute(&toastfile, &["baz", "bar", "foo"]);
    assert_eq!(first, second);
}

#[test]
fn schedule_dependencies_before_dependents() {
    let mut tasks = StringMap::new();
    tasks.insert("a".to_owned(), task_with_dependencies(vec!["c".to_owned(), "b".to_owned()]));
    tasks.insert("b".to_owned(), task_with_dependencies(vec!["c".to_owned()]));
    tasks.insert("c".to_owned(), empty_task());
    tasks.insert("d".to_owned(), empty_task());
    let toastfile = toastfile(tasks);
    let actual: Vec<&str> = compute(&toastfile, &["d", "a"]);
    let expected: Vec<&str> = vec!["c", "b", "a", "d"];
    assert_eq!(actual, expected);
}
