use toast::docker::{
    commit_container, container_args, container_id, copy_from_container, copy_into_container,
    create_container, delete_container, delete_image, image_exists, image_exists_outcome,
    loud_outcome, pull_image, push_image, quiet_outcome, spawn_shell, start_container,
    stop_container, Exit, Mode,
};
use toast::failure::Failure;
use toast::strmap::StringMap;

fn args(v: &[&str]) -> Vec<String> {
    v.iter().map(|s| (*s).to_owned()).collect()
}

#[test]
fn image_commands() {
    let inv = image_exists("foo:bar");
    assert_eq!(inv.args, args(&["image", "inspect", "foo:bar"]));
    assert_eq!(inv.mode, Mode::Quiet);
    assert_eq!(inv.error, "The image doesn't exist.");
    assert_eq!(push_image("foo:bar").args, args(&["image", "push", "foo:bar"]));
    assert_eq!(pull_image("foo:bar").args, args(&["image", "pull", "foo:bar"]));
    assert_eq!(delete_image("foo:bar").args, args(&["image", "rm", "--force", "foo:bar"]));
    assert_eq!(pull_image("foo:bar").spinner_message, "Pulling image\u{2026}");
}

#[test]
fn container_commands() {
    assert_eq!(start_container("c1").args, args(&["container", "start", "--attach", "c1"]));
    assert_eq!(start_container("c1").mode, Mode::Loud);
    assert_eq!(stop_container("c1").args, args(&["container", "stop", "c1"]));
    assert_eq!(commit_container("c1", "img").args, args(&["container", "commit", "c1", "img"]));
    assert_eq!(delete_container("c1").args, args(&["container", "rm", "--force", "c1"]));
    let copy_in = copy_into_container("c1");
    assert_eq!(copy_in.args, args(&["container", "cp", "-", "c1:/"]));
    assert_eq!(copy_in.mode, Mode::QuietStdin);
    let copy_out = copy_from_container("c1", "/scratch", "out/file", "/tmp/x/data");
    assert_eq!(copy_out.args, args(&["container", "cp", "c1:/scratch/out/file", "/tmp/x/data"]));
}

#[test]
fn container_arguments() {
    let mut env = StringMap::new();
    env.insert("ZED".to_owned(), "1".to_owned());
    env.insert("ALPHA".to_owned(), "two".to_owned());
    let a = container_args(
        "/src",
        &env,
        "/scratch",
        &vec!["data".to_owned()],
        true,
        &vec!["3000:80".to_owned()],
    );
    assert_eq!(
        a,
        args(&[
            "--init",
            "--env",
            "ALPHA=two",
            "--env",
            "ZED=1",
            "--workdir",
            "/scratch",
            "--mount",
            "type=bind,source=/src/data,target=/scratch/data,readonly",
            "--publish",
            "3000:80",
        ])
    );
}

#[test]
fn create_and_shell() {
    let env = StringMap::new();
    let create = create_container("img", "/src", &env, &vec![], false, &vec![], "/scratch", "root", "make");
    assert_eq!(
        create.args,
        args(&[
            "container", "create", "--init", "--workdir", "/scratch", "img", "/bin/su", "-c",
            "make", "root",
        ])
    );
    let shell = spawn_shell("img", "/src", &env, "/", &vec![], false, &vec![], "root");
    assert_eq!(
        shell.args,
        args(&[
            "container", "run", "--rm", "--interactive", "--tty", "--init", "--workdir", "/",
            "img", "/bin/su", "root",
        ])
    );
    assert_eq!(shell.mode, Mode::Attach);
}

#[test]
fn container_id_trims() {
    assert_eq!(container_id("  abc123\n"), "abc123");
}

#[test]
fn outcomes() {
    let ok = Exit { success: true, signaled: false, was_interrupted: false, now_interrupted: false };
    let failed = Exit { success: false, signaled: false, was_interrupted: false, now_interrupted: false };
    let signaled = Exit { success: false, signaled: true, was_interrupted: false, now_interrupted: false };
    let interrupted = Exit { success: false, signaled: false, was_interrupted: false, now_interrupted: true };
    assert_eq!(quiet_outcome("E", &ok, "out".to_owned(), "err"), (Ok("out".to_owned()), false));
    assert_eq!(
        quiet_outcome("E", &failed, "out".to_owned(), "err"),
        (Err(Failure::System("E\nerr".to_owned(), None)), false)
    );
    assert_eq!(quiet_outcome("E", &signaled, String::new(), ""), (Err(Failure::Interrupted), true));
    assert_eq!(loud_outcome("E", &interrupted), (Err(Failure::Interrupted), true));
    assert_eq!(loud_outcome("E", &failed), (Err(Failure::System("E".to_owned(), None)), false));
    assert_eq!(loud_outcome("E", &ok), (Ok(()), false));
}

#[test]
fn image_exists_outcomes() {
    assert_eq!(image_exists_outcome(Ok(String::new())), Ok(true));
    assert_eq!(image_exists_outcome(Err(Failure::System("x".to_owned(), None))), Ok(false));
    assert_eq!(image_exists_outcome(Err(Failure::Interrupted)), Err(Failure::Interrupted));
}
