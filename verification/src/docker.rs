//! The Docker commands that Toast runs, and what their outcomes mean.
use crate::failure::Failure;
use crate::strmap::StringMap;
use crate::text::{join_paths, path_join};
use crate::toastfile::views;
use vstd::prelude::*;

verus! {

/// How a Docker command is run.
#[derive(Debug, PartialEq, Eq)]
pub enum Mode {
    /// Capture the output while a spinner is shown.
    Quiet,
    /// Like `Quiet`, with data piped to the command's standard input.
    QuietStdin,
    /// Inherit standard output and error.
    Loud,
    /// Inherit standard input, output, and error.
    Attach,
}

/// A Docker command to run: its arguments, how to run it, the message shown by the spinner
/// (empty when there is none), and the message given if it fails.
#[derive(Debug, PartialEq, Eq)]
pub struct Invocation {
    pub args: Vec<String>,
    pub mode: Mode,
    pub spinner_message: String,
    pub error: String,
}

/// The invocation with the given parts.
pub open spec fn invocation_is(inv: Invocation, args: Seq<Seq<char>>, mode: Mode, spinner: Seq<char>, error: Seq<char>) -> bool {
    views(inv.args@) == args && inv.mode == mode && inv.spinner_message@ == spinner && inv.error@ == error
}

fn strings(parts: &[&str]) -> (v: Vec<String>)
    ensures
        views(v@) == parts@.map_values(|s: &str| s@),
{
    let mut v: Vec<String> = Vec::new();
    let mut i: usize = 0;
    while i < parts.len()
        invariant
            i <= parts.len(),
            views(v@) == parts@.subrange(0, i as int).map_values(|s: &str| s@),
        decreases parts.len() - i,
    {
        let ghost before = views(v@);
        v.push(String::from_str(parts[i]));
        assert(views(v@) =~= before.push(parts@[i as int]@));
        assert(parts@.subrange(0, i + 1).map_values(|s: &str| s@) =~= parts@.subrange(0, i as int).map_values(|s: &str| s@).push(parts@[i as int]@));
        i = i + 1;
    }
    assert(parts@.subrange(0, parts.len() as int) =~= parts@);
    v
}

fn quiet(args: Vec<String>, spinner: &str, error: &str) -> (inv: Invocation)
    ensures
        invocation_is(inv, views(args@), Mode::Quiet, spinner@, error@),
{
    Invocation { args, mode: Mode::Quiet, spinner_message: String::from_str(spinner), error: String::from_str(error) }
}

/// Checks whether an image exists locally.
pub fn image_exists(image: &str) -> (inv: Invocation)
    ensures
        invocation_is(inv, seq!["image"@, "inspect"@, image@], Mode::Quiet, "Checking existence of image\u{2026}"@, "The image doesn't exist."@),
{
    proof { reveal_strlit("image"); reveal_strlit("inspect"); }
    let args = strings(&["image", "inspect", image]);
    assert(views(args@) =~= seq!["image"@, "inspect"@, image@]);
    quiet(args, "Checking existence of image\u{2026}", "The image doesn't exist.")
}

/// What the outcome of checking for an image means: it exists if the check succeeded, and
/// an interruption is passed on; any other failure means it does not exist.
pub fn image_exists_outcome(outcome: Result<String, Failure>) -> (r: Result<bool, Failure>)
    ensures
        match outcome {
            Ok(_) => r == Ok::<bool, Failure>(true),
            Err(Failure::Interrupted) => r == Err::<bool, Failure>(Failure::Interrupted),
            Err(_) => r == Ok::<bool, Failure>(false),
        },
{
    match outcome {
        Ok(_) => Ok(true),
        Err(Failure::Interrupted) => Err(Failure::Interrupted),
        Err(Failure::System(_, _)) => Ok(false),
        Err(Failure::User(_, _)) => Ok(false),
    }
}

/// Pushes an image.
pub fn push_image(image: &str) -> (inv: Invocation)
    ensures
        invocation_is(inv, seq!["image"@, "push"@, image@], Mode::Quiet, "Pushing image\u{2026}"@, "Unable to push image."@),
{
    proof { reveal_strlit("image"); reveal_strlit("push"); }
    let args = strings(&["image", "push", image]);
    assert(views(args@) =~= seq!["image"@, "push"@, image@]);
    quiet(args, "Pushing image\u{2026}", "Unable to push image.")
}

/// Pulls an image.
pub fn pull_image(image: &str) -> (inv: Invocation)
    ensures
        invocation_is(inv, seq!["image"@, "pull"@, image@], Mode::Quiet, "Pulling image\u{2026}"@, "Unable to pull image."@),
{
    proof { reveal_strlit("image"); reveal_strlit("pull"); }
    let args = strings(&["image", "pull", image]);
    assert(views(args@) =~= seq!["image"@, "pull"@, image@]);
    quiet(args, "Pulling image\u{2026}", "Unable to pull image.")
}

/// Deletes an image.
pub fn delete_image(image: &str) -> (inv: Invocation)
    ensures
        invocation_is(inv, seq!["image"@, "rm"@, "--force"@, image@], Mode::Quiet, "Deleting image\u{2026}"@, "Unable to delete image."@),
{
    proof { reveal_strlit("image"); reveal_strlit("rm"); reveal_strlit("--force"); }
    let args = strings(&["image", "rm", "--force", image]);
    assert(views(args@) =~= seq!["image"@, "rm"@, "--force"@, image@]);
    quiet(args, "Deleting image\u{2026}", "Unable to delete image.")
}

/// The `--env` arguments for the variables `ks`, in order, with their values in `env`.
pub open spec fn env_args(ks: Seq<Seq<char>>, env: Map<Seq<char>, String>) -> Seq<Seq<char>>
    decreases ks.len(),
{
    if ks.len() == 0 {
        Seq::empty()
    } else {
        env_args(ks.drop_last(), env) + seq!["--env"@, ks.last() + "="@ + env[ks.last()]@]
    }
}

/// The `--mount` arguments for the mount paths `ms`.
pub open spec fn mount_args(ms: Seq<Seq<char>>, source_dir: Seq<char>, location: Seq<char>, readonly: bool) -> Seq<Seq<char>>
    decreases ms.len(),
{
    if ms.len() == 0 {
        Seq::empty()
    } else {
        let m = ms.last();
        let spec_text = "type=bind,source="@ + path_join(source_dir, m) + ",target="@ + path_join(location, m);
        mount_args(ms.drop_last(), source_dir, location, readonly) + seq![
            "--mount"@,
            if readonly {
                spec_text + ",readonly"@
            } else {
                spec_text
            },
        ]
    }
}

/// The `--publish` arguments for the port mappings `ps`.
pub open spec fn port_args(ps: Seq<Seq<char>>) -> Seq<Seq<char>>
    decreases ps.len(),
{
    if ps.len() == 0 {
        Seq::empty()
    } else {
        port_args(ps.drop_last()) + seq!["--publish"@, ps.last()]
    }
}

/// Each variable `k` of `ks`, in order, gives two arguments: `--env`, then `k=value` with its
/// value in `env`.
pub proof fn lemma_env_arguments(ks: Seq<Seq<char>>, env: Map<Seq<char>, String>)
    ensures
        env_args(ks, env).len() == 2 * ks.len(),
        forall|i: int| 0 <= i < ks.len() ==> #[trigger] env_args(ks, env)[2 * i] == "--env"@,
        forall|i: int| 0 <= i < ks.len() ==> env_args(ks, env)[2 * i + 1] == #[trigger] ks[i] + "="@ + env[ks[i]]@,
    decreases ks.len(),
{
    if ks.len() > 0 {
        let rest = ks.drop_last();
        lemma_env_arguments(rest, env);
        assert forall|i: int| 0 <= i < ks.len() implies #[trigger] env_args(ks, env)[2 * i] == "--env"@ by {
            if i < rest.len() {
                assert(rest[i] == ks[i]);
            }
        }
        assert forall|i: int| 0 <= i < ks.len() implies env_args(ks, env)[2 * i + 1] == #[trigger] ks[i] + "="@ + env[ks[i]]@ by {
            if i < rest.len() {
                assert(rest[i] == ks[i]);
            } else {
                assert(ks[i] == ks.last());
            }
        }
    }
}

/// Each mount path `m` of `ms`, in order, gives two arguments: `--mount`, then a bind mount of
/// `m` under `source_dir` onto `m` under `location`, marked `,readonly` exactly when
/// `readonly` is set.
pub proof fn lemma_mount_arguments(ms: Seq<Seq<char>>, source_dir: Seq<char>, location: Seq<char>, readonly: bool)
    ensures
        mount_args(ms, source_dir, location, readonly).len() == 2 * ms.len(),
        forall|i: int| 0 <= i < ms.len() ==> #[trigger] mount_args(ms, source_dir, location, readonly)[2 * i] == "--mount"@,
        forall|i: int| 0 <= i < ms.len() ==> mount_args(ms, source_dir, location, readonly)[2 * i + 1]
            == "type=bind,source="@ + path_join(source_dir, #[trigger] ms[i]) + ",target="@ + path_join(location, ms[i])
                + (if readonly { ",readonly"@ } else { Seq::<char>::empty() }),
    decreases ms.len(),
{
    if ms.len() > 0 {
        let rest = ms.drop_last();
        lemma_mount_arguments(rest, source_dir, location, readonly);
        let text = "type=bind,source="@ + path_join(source_dir, ms.last()) + ",target="@ + path_join(location, ms.last());
        assert(text + Seq::<char>::empty() =~= text);
        assert forall|i: int| 0 <= i < ms.len() implies #[trigger] mount_args(ms, source_dir, location, readonly)[2 * i] == "--mount"@ by {
            if i < rest.len() {
                assert(rest[i] == ms[i]);
            }
        }
        assert forall|i: int| 0 <= i < ms.len() implies mount_args(ms, source_dir, location, readonly)[2 * i + 1]
            == "type=bind,source="@ + path_join(source_dir, #[trigger] ms[i]) + ",target="@ + path_join(location, ms[i])
                + (if readonly { ",readonly"@ } else { Seq::<char>::empty() }) by {
            if i < rest.len() {
                assert(rest[i] == ms[i]);
            } else {
                assert(ms[i] == ms.last());
            }
        }
    }
}

/// Each port mapping `p` of `ps`, in order, gives two arguments: `--publish`, then `p`.
pub proof fn lemma_port_arguments(ps: Seq<Seq<char>>)
    ensures
        port_args(ps).len() == 2 * ps.len(),
        forall|i: int| 0 <= i < ps.len() ==> #[trigger] port_args(ps)[2 * i] == "--publish"@,
        forall|i: int| 0 <= i < ps.len() ==> port_args(ps)[2 * i + 1] == #[trigger] ps[i],
    decreases ps.len(),
{
    if ps.len() > 0 {
        let rest = ps.drop_last();
        lemma_port_arguments(rest);
        assert forall|i: int| 0 <= i < ps.len() implies #[trigger] port_args(ps)[2 * i] == "--publish"@ by {
            if i < rest.len() {
                assert(rest[i] == ps[i]);
            }
        }
        assert forall|i: int| 0 <= i < ps.len() implies port_args(ps)[2 * i + 1] == #[trigger] ps[i] by {
            if i < rest.len() {
                assert(rest[i] == ps[i]);
            } else {
                assert(ps[i] == ps.last());
            }
        }
    }
}

/// The arguments shared by `docker container create` and `docker container run`.
pub open spec fn spec_container_args(
    source_dir: Seq<char>,
    env: StringMap<String>,
    location: Seq<char>,
    mount_paths: Seq<Seq<char>>,
    mount_readonly: bool,
    ports: Seq<Seq<char>>,
) -> Seq<Seq<char>> {
    seq!["--init"@] + env_args(crate::order::sorted_set(env@.dom()), env@) + seq!["--workdir"@, location]
        + mount_args(mount_paths, source_dir, location, mount_readonly) + port_args(ports)
}

/// Where each argument shared by `docker container create` and `docker container run`
/// stands: `--init` first; then `--env` and `name=value` for each variable, by name; then
/// `--workdir` and the location; then `--mount` and a bind mount for each mount path, in
/// order, read-only exactly when `mount_readonly` is set; then `--publish` and the mapping for
/// each port mapping, in order. Nothing else is passed.
pub proof fn lemma_container_layout(
    source_dir: Seq<char>,
    env: StringMap<String>,
    location: Seq<char>,
    ms: Seq<Seq<char>>,
    mount_readonly: bool,
    ps: Seq<Seq<char>>,
)
    ensures
        ({
            let a = spec_container_args(source_dir, env, location, ms, mount_readonly, ps);
            let ks = crate::order::sorted_set(env@.dom());
            let k: int = ks.len() as int;
            &&& a.len() == 3 + 2 * k + 2 * ms.len() + 2 * ps.len()
            &&& a[0] == "--init"@
            &&& forall|i: int| 0 <= i < k ==> #[trigger] a[1 + 2 * i] == "--env"@
            &&& forall|i: int| 0 <= i < k ==> a[2 + 2 * i] == #[trigger] ks[i] + "="@ + env@[ks[i]]@
            &&& a[1 + 2 * k] == "--workdir"@
            &&& a[2 + 2 * k] == location
            &&& forall|i: int| 0 <= i < ms.len() ==> #[trigger] a[3 + 2 * k + 2 * i] == "--mount"@
            &&& forall|i: int| 0 <= i < ms.len() ==> a[4 + 2 * k + 2 * i]
                == "type=bind,source="@ + path_join(source_dir, #[trigger] ms[i]) + ",target="@ + path_join(location, ms[i])
                    + (if mount_readonly { ",readonly"@ } else { Seq::<char>::empty() })
            &&& forall|i: int| 0 <= i < ps.len() ==> #[trigger] a[3 + 2 * k + 2 * ms.len() + 2 * i] == "--publish"@
            &&& forall|i: int| 0 <= i < ps.len() ==> a[4 + 2 * k + 2 * ms.len() + 2 * i] == #[trigger] ps[i]
        }),
{
    let ks = crate::order::sorted_set(env@.dom());
    let k: int = ks.len() as int;
    let e = env_args(ks, env@);
    let m = mount_args(ms, source_dir, location, mount_readonly);
    let p = port_args(ps);
    lemma_env_arguments(ks, env@);
    lemma_mount_arguments(ms, source_dir, location, mount_readonly);
    lemma_port_arguments(ps);
    let a = spec_container_args(source_dir, env, location, ms, mount_readonly, ps);
    let head = seq!["--init"@] + e + seq!["--workdir"@, location];
    assert(a == head + m + p);
    assert(head.len() == 3 + 2 * k);
    assert forall|i: int| 0 <= i < k implies #[trigger] a[1 + 2 * i] == "--env"@ by {
        assert(e[2 * i] == "--env"@);
        assert(head[1 + 2 * i] == e[2 * i]);
    }
    assert forall|i: int| 0 <= i < k implies a[2 + 2 * i] == #[trigger] ks[i] + "="@ + env@[ks[i]]@ by {
        assert(head[2 + 2 * i] == e[2 * i + 1]);
    }
    assert forall|i: int| 0 <= i < ms.len() implies #[trigger] a[3 + 2 * k + 2 * i] == "--mount"@ by {
        assert(m[2 * i] == "--mount"@);
    }
    assert forall|i: int| 0 <= i < ps.len() implies #[trigger] a[3 + 2 * k + 2 * ms.len() + 2 * i] == "--publish"@ by {
        assert(p[2 * i] == "--publish"@);
    }
}

/// Returns the arguments for `docker container create` or `docker container run`: `--init`
/// (so that orphaned processes are reaped and signals are forwarded), the variables, the
/// working directory, the bind mounts, and the published ports.
pub fn container_args(
    source_dir: &str,
    environment: &StringMap<String>,
    location: &str,
    mount_paths: &Vec<String>,
    mount_readonly: bool,
    ports: &Vec<String>,
) -> (args: Vec<String>)
    ensures
        views(args@) == spec_container_args(source_dir@, *environment, location@, views(mount_paths@), mount_readonly, views(ports@)),
        args@.len() >= 3 + 2 * mount_paths.len() + 2 * ports.len(),
        forall|i: int| 0 <= i < mount_paths.len()
            ==> #[trigger] args@[args@.len() - 2 * ports.len() - 2 * mount_paths.len() + 2 * i]@ == "--mount"@,
        forall|i: int| 0 <= i < mount_paths.len()
            ==> args@[args@.len() - 2 * ports.len() - 2 * mount_paths.len() + 2 * i + 1]@
                == "type=bind,source="@ + path_join(source_dir@, #[trigger] mount_paths@[i]@) + ",target="@
                    + path_join(location@, mount_paths@[i]@) + (if mount_readonly { ",readonly"@ } else { Seq::<char>::empty() }),
{
    proof {
        lemma_container_layout(source_dir@, *environment, location@, views(mount_paths@), mount_readonly, views(ports@));
        use_type_invariant(environment);
        environment.lemma_entries();
        reveal_strlit("--init");
        reveal_strlit("--env");
        reveal_strlit("=");
        reveal_strlit("--workdir");
        reveal_strlit("--mount");
        reveal_strlit("type=bind,source=");
        reveal_strlit(",target=");
        reveal_strlit(",readonly");
        reveal_strlit("--publish");
    }
    let mut args: Vec<String> = Vec::new();
    args.push(String::from_str("--init"));
    let ghost head = views(args@);
    assert(head =~= seq!["--init"@]);
    // Environment
    let ghost ks = environment.key_order();
    let mut i: usize = 0;
    while i < environment.len()
        invariant
            environment.wf(),
            ks == environment.key_order(),
            i <= ks.len(),
            views(args@) == head + env_args(ks.subrange(0, i as int), environment@),
        decreases ks.len() - i,
    {
        proof { environment.lemma_entries(); }
        let ghost before = views(args@);
        args.push(String::from_str("--env"));
        let mut setting = environment.key_at(i).clone();
        setting.append("=");
        setting.append(environment.value_at(i).as_str());
        args.push(setting);
        assert(ks.subrange(0, i + 1).drop_last() =~= ks.subrange(0, i as int));
        assert(views(args@) =~= before + seq!["--env"@, setting@]);
        i = i + 1;
    }
    assert(ks.subrange(0, ks.len() as int) =~= ks);
    // Location
    let ghost before_loc = views(args@);
    args.push(String::from_str("--workdir"));
    args.push(String::from_str(location));
    assert(views(args@) =~= before_loc + seq!["--workdir"@, location@]);
    let ghost head2 = views(args@);
    // Mount paths
    let ghost ms = views(mount_paths@);
    let mut j: usize = 0;
    while j < mount_paths.len()
        invariant
            ms == views(mount_paths@),
            j <= mount_paths.len(),
            views(args@) == head2 + mount_args(ms.subrange(0, j as int), source_dir@, location@, mount_readonly),
        decreases mount_paths.len() - j,
    {
        let ghost before = views(args@);
        let m = mount_paths[j].as_str();
        let mut spec_text = String::from_str("type=bind,source=");
        spec_text.append(join_paths(source_dir, m).as_str());
        spec_text.append(",target=");
        spec_text.append(join_paths(location, m).as_str());
        if mount_readonly {
            spec_text.append(",readonly");
        }
        args.push(String::from_str("--mount"));
        args.push(spec_text);
        assert(ms.subrange(0, j + 1).drop_last() =~= ms.subrange(0, j as int));
        assert(views(args@) =~= before + seq!["--mount"@, spec_text@]);
        j = j + 1;
    }
    assert(ms.subrange(0, mount_paths.len() as int) =~= ms);
    let ghost head3 = views(args@);
    // Ports
    let ghost ps = views(ports@);
    let mut k: usize = 0;
    while k < ports.len()
        invariant
            ps == views(ports@),
            k <= ports.len(),
            views(args@) == head3 + port_args(ps.subrange(0, k as int)),
        decreases ports.len() - k,
    {
        let ghost before = views(args@);
        args.push(String::from_str("--publish"));
        args.push(ports[k].clone());
        assert(ps.subrange(0, k + 1).drop_last() =~= ps.subrange(0, k as int));
        assert(views(args@) =~= before + seq!["--publish"@, ports@[k as int]@]);
        k = k + 1;
    }
    assert(ps.subrange(0, ports.len() as int) =~= ps);
    proof {
        let a = views(args@);
        let n: int = crate::order::sorted_set(environment@.dom()).len() as int;
        let base: int = args@.len() - 2 * ports.len() - 2 * mount_paths.len();
        assert(base == 3 + 2 * n);
        assert forall|i: int| 0 <= i < mount_paths.len()
            implies #[trigger] args@[args@.len() - 2 * ports.len() - 2 * mount_paths.len() + 2 * i]@ == "--mount"@ by {
            assert(a[3 + 2 * n + 2 * i] == "--mount"@);
        }
        assert forall|i: int| 0 <= i < mount_paths.len()
            implies args@[args@.len() - 2 * ports.len() - 2 * mount_paths.len() + 2 * i + 1]@
                == "type=bind,source="@ + path_join(source_dir@, #[trigger] mount_paths@[i]@) + ",target="@
                    + path_join(location@, mount_paths@[i]@) + (if mount_readonly { ",readonly"@ } else { Seq::<char>::empty() }) by {
            assert(ms[i] == mount_paths@[i]@);
            assert(a[4 + 2 * n + 2 * i] == args@[4 + 2 * n + 2 * i]@);
        }
    }
    args
}

fn extend(a: &mut Vec<String>, b: Vec<String>)
    ensures
        views(final(a)@) == views(old(a)@) + views(b@),
{
    let ghost a0 = views(a@);
    let mut i: usize = 0;
    while i < b.len()
        invariant
            i <= b.len(),
            views(a@) == a0 + views(b@).subrange(0, i as int),
        decreases b.len() - i,
    {
        let ghost before = views(a@);
        a.push(b[i].clone());
        assert(views(a@) =~= before.push(b@[i as int]@));
        assert(views(b@).subrange(0, i + 1) =~= views(b@).subrange(0, i as int).push(b@[i as int]@));
        i = i + 1;
    }
    assert(views(b@).subrange(0, b.len() as int) =~= views(b@));
}

/// Creates a container that will run `command` as `user` in the image.
pub fn create_container(
    image: &str,
    source_dir: &str,
    environment: &StringMap<String>,
    mount_paths: &Vec<String>,
    mount_readonly: bool,
    ports: &Vec<String>,
    location: &str,
    user: &str,
    command: &str,
) -> (inv: Invocation)
    ensures
        invocation_is(
            inv,
            seq!["container"@, "create"@] + spec_container_args(source_dir@, *environment, location@, views(mount_paths@), mount_readonly, views(ports@))
                + seq![image@, "/bin/su"@, "-c"@, command@, user@],
            Mode::Quiet,
            "Creating container\u{2026}"@,
            "Unable to create container."@,
        ),
{
    proof { reveal_strlit("container"); reveal_strlit("create"); reveal_strlit("/bin/su"); reveal_strlit("-c"); }
    let mut args = strings(&["container", "create"]);
    assert(views(args@) =~= seq!["container"@, "create"@]);
    extend(&mut args, container_args(source_dir, environment, location, mount_paths, mount_readonly, ports));
    let tail = strings(&[image, "/bin/su", "-c", command, user]);
    assert(views(tail@) =~= seq![image@, "/bin/su"@, "-c"@, command@, user@]);
    extend(&mut args, tail);
    quiet(args, "Creating container\u{2026}", "Unable to create container.")
}

/// The ID of a created container: what `docker container create` printed, without leading
/// and trailing white space.
pub fn container_id(output: &str) -> (id: String)
    ensures
        id@ == crate::text::trimmed(output@),
{
    crate::text::trim(output)
}

/// Copies a tar archive, piped to the command, into the root of a container.
pub fn copy_into_container(container: &str) -> (inv: Invocation)
    ensures
        invocation_is(
            inv,
            seq!["container"@, "cp"@, "-"@, container@ + ":/"@],
            Mode::QuietStdin,
            "Copying files into container\u{2026}"@,
            "Unable to copy files into the container."@,
        ),
{
    proof { reveal_strlit("container"); reveal_strlit("cp"); reveal_strlit("-"); reveal_strlit(":/"); }
    let mut target = String::from_str(container);
    target.append(":/");
    let mut args = strings(&["container", "cp", "-"]);
    assert(views(args@) =~= seq!["container"@, "cp"@, "-"@]);
    let ghost before = views(args@);
    args.push(target);
    assert(views(args@) =~= before.push(target@));
    assert(target@ == container@ + ":/"@);
    assert(views(args@) =~= seq!["container"@, "cp"@, "-"@, container@ + ":/"@]);
    Invocation {
        args,
        mode: Mode::QuietStdin,
        spinner_message: String::from_str("Copying files into container\u{2026}"),
        error: String::from_str("Unable to copy files into the container."),
    }
}

/// Copies `path` (relative to `source_dir` in the container) out of a container into
/// `intermediate` on the host.
pub fn copy_from_container(container: &str, source_dir: &str, path: &str, intermediate: &str) -> (inv: Invocation)
    ensures
        invocation_is(
            inv,
            seq!["container"@, "cp"@, container@ + ":"@ + path_join(source_dir@, path@), intermediate@],
            Mode::Quiet,
            "Copying files from the container\u{2026}"@,
            "Unable to copy files from the container."@,
        ),
{
    proof { reveal_strlit("container"); reveal_strlit("cp"); reveal_strlit(":"); }
    let mut source = String::from_str(container);
    source.append(":");
    source.append(join_paths(source_dir, path).as_str());
    let mut args = strings(&["container", "cp"]);
    assert(views(args@) =~= seq!["container"@, "cp"@]);
    let ghost before = views(args@);
    args.push(source);
    args.push(String::from_str(intermediate));
    assert(views(args@) =~= before + seq![source@, intermediate@]);
    assert(source@ == container@ + ":"@ + path_join(source_dir@, path@));
    assert(views(args@) =~= seq!["container"@, "cp"@, container@ + ":"@ + path_join(source_dir@, path@), intermediate@]);
    quiet(args, "Copying files from the container\u{2026}", "Unable to copy files from the container.")
}

/// Starts a container and waits for it, showing its output.
pub fn start_container(container: &str) -> (inv: Invocation)
    ensures
        invocation_is(inv, seq!["container"@, "start"@, "--attach"@, container@], Mode::Loud, Seq::empty(), "Unable to start container."@),
{
    proof { reveal_strlit("container"); reveal_strlit("start"); reveal_strlit("--attach"); }
    let args = strings(&["container", "start", "--attach", container]);
    assert(views(args@) =~= seq!["container"@, "start"@, "--attach"@, container@]);
    Invocation { args, mode: Mode::Loud, spinner_message: String::new(), error: String::from_str("Unable to start container.") }
}

/// Stops a container.
pub fn stop_container(container: &str) -> (inv: Invocation)
    ensures
        invocation_is(inv, seq!["container"@, "stop"@, container@], Mode::Quiet, "Stopping container\u{2026}"@, "Unable to stop container."@),
{
    proof { reveal_strlit("container"); reveal_strlit("stop"); }
    let args = strings(&["container", "stop", container]);
    assert(views(args@) =~= seq!["container"@, "stop"@, container@]);
    quiet(args, "Stopping container\u{2026}", "Unable to stop container.")
}

/// Commits a container to an image.
pub fn commit_container(container: &str, image: &str) -> (inv: Invocation)
    ensures
        invocation_is(inv, seq!["container"@, "commit"@, container@, image@], Mode::Quiet, "Committing container\u{2026}"@, "Unable to commit container."@),
{
    proof { reveal_strlit("container"); reveal_strlit("commit"); }
    let args = strings(&["container", "commit", container, image]);
    assert(views(args@) =~= seq!["container"@, "commit"@, container@, image@]);
    quiet(args, "Committing container\u{2026}", "Unable to commit container.")
}

/// Deletes a container.
pub fn delete_container(container: &str) -> (inv: Invocation)
    ensures
        invocation_is(inv, seq!["container"@, "rm"@, "--force"@, container@], Mode::Quiet, "Deleting container\u{2026}"@, "Unable to delete container."@),
{
    proof { reveal_strlit("container"); reveal_strlit("rm"); reveal_strlit("--force"); }
    let args = strings(&["container", "rm", "--force", container]);
    assert(views(args@) =~= seq!["container"@, "rm"@, "--force"@, container@]);
    quiet(args, "Deleting container\u{2026}", "Unable to delete container.")
}

/// Runs an interactive shell as `user` in a new container from the image.
pub fn spawn_shell(
    image: &str,
    source_dir: &str,
    environment: &StringMap<String>,
    location: &str,
    mount_paths: &Vec<String>,
    mount_readonly: bool,
    ports: &Vec<String>,
    user: &str,
) -> (inv: Invocation)
    ensures
        invocation_is(
            inv,
            seq!["container"@, "run"@, "--rm"@, "--interactive"@, "--tty"@] + spec_container_args(source_dir@, *environment, location@, views(mount_paths@), mount_readonly, views(ports@))
                + seq![image@, "/bin/su"@, user@],
            Mode::Attach,
            Seq::empty(),
            "The shell exited with a failure."@,
        ),
{
    proof {
        reveal_strlit("container");
        reveal_strlit("run");
        reveal_strlit("--rm");
        reveal_strlit("--interactive");
        reveal_strlit("--tty");
        reveal_strlit("/bin/su");
    }
    let mut args = strings(&["container", "run", "--rm", "--interactive", "--tty"]);
    assert(views(args@) =~= seq!["container"@, "run"@, "--rm"@, "--interactive"@, "--tty"@]);
    extend(&mut args, container_args(source_dir, environment, location, mount_paths, mount_readonly, ports));
    let tail = strings(&[image, "/bin/su", user]);
    assert(views(tail@) =~= seq![image@, "/bin/su"@, user@]);
    extend(&mut args, tail);
    Invocation { args, mode: Mode::Attach, spinner_message: String::new(), error: String::from_str("The shell exited with a failure.") }
}

/// How a finished command ended, as the runner observed it.
#[derive(Debug, PartialEq, Eq)]
pub struct Exit {
    /// The command exited successfully.
    pub success: bool,
    /// The command was ended by a signal (it has no exit code).
    pub signaled: bool,
    /// The user had asked to stop the program before the command started.
    pub was_interrupted: bool,
    /// The user has asked to stop the program by the time the command ended.
    pub now_interrupted: bool,
}

/// A failed command counts as interrupted when a signal ended it, or when the user asked
/// to stop while it ran.
pub open spec fn counts_as_interrupted(exit: Exit) -> bool {
    exit.signaled || (!exit.was_interrupted && exit.now_interrupted)
}

/// What a command whose output was captured amounts to: its output if it succeeded; an
/// interruption if it counts as interrupted (and then the program is to be marked as
/// interrupted); and otherwise a system failure with the error message and the command's
/// error output on the next line.
pub fn quiet_outcome(error: &str, exit: &Exit, stdout: String, stderr: &str) -> (r: (Result<String, Failure>, bool))
    ensures
        exit.success ==> r.0 == Ok::<String, Failure>(stdout) && !r.1,
        !exit.success && counts_as_interrupted(*exit) ==> r.0 == Err::<String, Failure>(Failure::Interrupted) && r.1,
        !exit.success && !counts_as_interrupted(*exit) ==> !r.1 && (r.0 matches Err(Failure::System(m, None)) && m@ == error@ + "\n"@ + stderr@),
{
    if exit.success {
        (Ok(stdout), false)
    } else if exit.signaled || (!exit.was_interrupted && exit.now_interrupted) {
        (Err(Failure::Interrupted), true)
    } else {
        proof { reveal_strlit("\n"); }
        let mut m = String::from_str(error);
        m.append("\n");
        m.append(stderr);
        (Err(Failure::System(m, None)), false)
    }
}

/// What a command that showed its output amounts to: success; an interruption if it
/// counts as interrupted (and then the program is to be marked as interrupted); and
/// otherwise a system failure with the error message.
pub fn loud_outcome(error: &str, exit: &Exit) -> (r: (Result<(), Failure>, bool))
    ensures
        exit.success ==> r.0 is Ok && !r.1,
        !exit.success && counts_as_interrupted(*exit) ==> r.0 == Err::<(), Failure>(Failure::Interrupted) && r.1,
        !exit.success && !counts_as_interrupted(*exit) ==> !r.1 && (r.0 matches Err(Failure::System(m, None)) && m@ == error@),
{
    if exit.success {
        (Ok(()), false)
    } else if exit.signaled || (!exit.was_interrupted && exit.now_interrupted) {
        (Err(Failure::Interrupted), true)
    } else {
        (Err(Failure::System(String::from_str(error), None)), false)
    }
}

} // verus!
