use toast::failure::Failure;
use toast::runner::{
    image_name, result_of, step, task_environment, Action, Ending, Event, Image, NewContext, Plan,
    Stage,
};
use toast::strmap::StringMap;
use toast::toastfile::{Task, DEFAULT_LOCATION, DEFAULT_USER};

fn plan(caching: bool, read_local: bool, write_local: bool, has_outputs: bool) -> Plan {
    Plan {
        caching_enabled: caching,
        read_local_cache: read_local,
        read_remote_cache: false,
        write_local_cache: write_local,
        write_remote_cache: false,
        has_outputs,
        has_failure_outputs: false,
        context_persist: false,
    }
}

fn drive(plan: &Plan, events: Vec<Event>) -> Vec<Action> {
    let mut stage = Stage::Start;
    let mut actions = vec![];
    let mut events = events.into_iter();
    let mut event = Event::Begin;
    loop {
        let (next, action) = step(plan, stage, event);
        let finished = matches!(action, Action::Finish(_, _));
        actions.push(action);
        if finished {
            return actions;
        }
        stage = next;
        event = events.next().unwrap();
    }
}

#[test]
fn image_names() {
    assert_eq!(image_name("toast", "abc"), "toast:abc");
}

#[test]
fn environment_of_task() {
    let mut t = Task {
        description: None,
        dependencies: vec![],
        cache: true,
        environment: StringMap::new(),
        input_paths: vec![],
        output_paths: vec![],
        output_paths_on_failure: vec![],
        mount_paths: vec![],
        mount_readonly: false,
        ports: vec![],
        location: DEFAULT_LOCATION.to_owned(),
        user: DEFAULT_USER.to_owned(),
        command: String::new(),
        command_prefix: None,
    };
    t.environment.insert("A".to_owned(), None);
    let mut env = StringMap::new();
    env.insert("A".to_owned(), "1".to_owned());
    env.insert("B".to_owned(), "2".to_owned());
    let mut expected = StringMap::new();
    expected.insert("A".to_owned(), "1".to_owned());
    assert_eq!(task_environment(&t, &env), expected);
}

#[test]
fn cache_hit_without_outputs() {
    let actions = drive(&plan(true, true, true, false), vec![Event::Exists(true), Event::Done]);
    assert_eq!(
        actions,
        vec![
            Action::CheckImage(Image::Cached),
            Action::DeleteContext,
            Action::Finish(Ending::Success, NewContext::New(Image::Cached, true)),
        ]
    );
}

#[test]
fn cache_hit_with_outputs() {
    let actions = drive(
        &plan(true, true, true, true),
        vec![Event::Exists(true), Event::Done, Event::Done, Event::Done, Event::Done],
    );
    assert_eq!(
        actions,
        vec![
            Action::CheckImage(Image::Cached),
            Action::CreateContainer(Image::Cached, false),
            Action::CopyOut,
            Action::DeleteContainer,
            Action::DeleteContext,
            Action::Finish(Ending::Success, NewContext::New(Image::Cached, true)),
        ]
    );
}

#[test]
fn cache_miss_runs_task() {
    let actions = drive(
        &plan(true, true, true, false),
        vec![
            Event::Exists(false),
            Event::Exists(true),
            Event::Done,
            Event::Done,
            Event::Done,
            Event::Done,
            Event::Done,
            Event::Done,
        ],
    );
    assert_eq!(
        actions,
        vec![
            Action::CheckImage(Image::Cached),
            Action::CheckImage(Image::Context),
            Action::CreateContainer(Image::Context, true),
            Action::CopyIn,
            Action::Start,
            Action::Commit(Image::Cached),
            Action::DeleteContainer,
            Action::DeleteContext,
            Action::Finish(Ending::Success, NewContext::New(Image::Cached, true)),
        ]
    );
}

#[test]
fn caching_disabled_commits_scratch_image() {
    let actions = drive(
        &plan(false, true, true, false),
        vec![Event::Exists(false), Event::Done, Event::Done, Event::Done, Event::Done, Event::Done, Event::Done, Event::Done],
    );
    assert_eq!(
        actions,
        vec![
            Action::CheckImage(Image::Context),
            Action::PullImage(Image::Context),
            Action::CreateContainer(Image::Context, true),
            Action::CopyIn,
            Action::Start,
            Action::Commit(Image::Scratch),
            Action::DeleteContainer,
            Action::DeleteContext,
            Action::Finish(Ending::Success, NewContext::New(Image::Scratch, false)),
        ]
    );
}

#[test]
fn failed_command_keeps_scratch_context() {
    let actions = drive(
        &plan(true, false, true, false),
        vec![
            Event::Exists(true),
            Event::Done,
            Event::Done,
            Event::Failed(Failure::System("exit 1".to_owned(), None), false),
            Event::Done,
            Event::Done,
            Event::Done,
        ],
    );
    assert_eq!(
        actions,
        vec![
            Action::CheckImage(Image::Context),
            Action::CreateContainer(Image::Context, true),
            Action::CopyIn,
            Action::Start,
            Action::Commit(Image::Scratch),
            Action::DeleteContainer,
            Action::DeleteContext,
            Action::Finish(Ending::CommandFailed, NewContext::New(Image::Scratch, false)),
        ]
    );
}

#[test]
fn failed_copy_in_gives_back_old_context() {
    let failure = Failure::System("Unable to copy files into the container.".to_owned(), None);
    let actions = drive(
        &plan(false, false, false, false),
        vec![Event::Exists(true), Event::Done, Event::Failed(failure, false), Event::Done],
    );
    assert_eq!(
        actions,
        vec![
            Action::CheckImage(Image::Context),
            Action::CreateContainer(Image::Context, true),
            Action::CopyIn,
            Action::DeleteContainer,
            Action::Finish(
                Ending::Failed(Failure::System("Unable to copy files into the container.".to_owned(), None)),
                NewContext::Old
            ),
        ]
    );
}

#[test]
fn remote_pull_failure_falls_back_unless_interrupted() {
    let p = Plan {
        caching_enabled: true,
        read_local_cache: false,
        read_remote_cache: true,
        write_local_cache: false,
        write_remote_cache: false,
        has_outputs: false,
        has_failure_outputs: false,
        context_persist: true,
    };
    let (stage, action) = step(&p, Stage::Start, Event::Begin);
    assert_eq!(action, Action::PullImage(Image::Cached));
    let (_, next) = step(&p, stage, Event::Failed(Failure::System("no".to_owned(), None), false));
    assert_eq!(next, Action::CheckImage(Image::Context));
    let (_, stopped) = step(&p, Stage::Pulling, Event::Failed(Failure::Interrupted, true));
    assert_eq!(stopped, Action::Finish(Ending::Failed(Failure::Interrupted), NewContext::Old));
}

#[test]
fn results_of_runs() {
    assert_eq!(result_of(Ending::Success, "key".to_owned()), Ok("key".to_owned()));
    assert_eq!(
        result_of(Ending::CommandFailed, "key".to_owned()),
        Err(Failure::User("Command failed.".to_owned(), None))
    );
    assert_eq!(result_of(Ending::Failed(Failure::Interrupted), "key".to_owned()), Err(Failure::Interrupted));
}

#[test]
fn failed_command_saves_failure_outputs() {
    let mut p = plan(true, false, true, true);
    p.has_failure_outputs = true;
    let actions = drive(
        &p,
        vec![
            Event::Exists(true),
            Event::Done,
            Event::Done,
            Event::Failed(Failure::System("exit 1".to_owned(), None), false),
            Event::Done,
            Event::Done,
            Event::Done,
            Event::Done,
        ],
    );
    assert_eq!(
        actions,
        vec![
            Action::CheckImage(Image::Context),
            Action::CreateContainer(Image::Context, true),
            Action::CopyIn,
            Action::Start,
            Action::CopyOutOnFailure,
            Action::Commit(Image::Scratch),
            Action::DeleteContainer,
            Action::DeleteContext,
            Action::Finish(Ending::CommandFailed, NewContext::New(Image::Scratch, false)),
        ]
    );
}

#[test]
fn successful_command_does_not_save_failure_outputs() {
    let mut p = plan(false, false, false, false);
    p.has_failure_outputs = true;
    let actions = drive(
        &p,
        vec![Event::Exists(true), Event::Done, Event::Done, Event::Done, Event::Done, Event::Done, Event::Done],
    );
    assert!(!actions.contains(&Action::CopyOutOnFailure));
    assert_eq!(actions[4], Action::Commit(Image::Scratch));
}
