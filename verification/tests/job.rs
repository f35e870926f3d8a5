use toast::job::{index, Job, Task, DEFAULT_LOCATION};
use toast::strmap::StringMap;

fn task(name: &str) -> Task {
    Task {
        name: name.to_owned(),
        dependencies: vec![],
        cache: true,
        args: StringMap::new(),
        files: vec![],
        location: DEFAULT_LOCATION.to_owned(),
        command: None,
    }
}

#[test]
fn index_empty() {
    let job = Job {
        image: "ubuntu:bionic".to_owned(),
        tasks: vec![],
    };
    let job_index = StringMap::new();
    assert_eq!(index(&job), Ok(job_index));
}

#[test]
fn index_no_dupes() {
    let job = Job {
        image: "ubuntu:bionic".to_owned(),
        tasks: vec![task("build"), task("test")],
    };
    let mut job_index = StringMap::new();
    job_index.insert("build".to_owned(), 0);
    job_index.insert("test".to_owned(), 1);
    assert_eq!(index(&job), Ok(job_index));
}

#[test]
fn index_dupes() {
    let job = Job {
        image: "ubuntu:bionic".to_owned(),
        tasks: vec![task("build"), task("build")],
    };
    assert!(index(&job).is_err());
}

#[test]
fn index_dupes_message() {
    let job = Job {
        image: "ubuntu:bionic".to_owned(),
        tasks: vec![task("build"), task("test"), task("build")],
    };
    assert_eq!(index(&job), Err("Duplicate task name: `build`.".to_owned()));
}
