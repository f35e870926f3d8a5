//! Running one task: the decisions taken between the Docker commands, as a state machine.
//! The caller performs each action, reports what happened as the next event, and stops at
//! `Action::Finish`.
use crate::failure::Failure;
use crate::strmap::StringMap;
use crate::toastfile::Task;
use vstd::prelude::*;

verus! {

/// A context is an image that may need to be cleaned up: unless `persist` is set, the image
/// is deleted once the context is no longer needed.
#[derive(Debug, PartialEq, Eq)]
pub struct Context {
    pub image: String,
    pub persist: bool,
}

/// The name of the image with tag `tag` in the repository `repo`.
pub fn image_name(repo: &str, tag: &str) -> (res: String)
    ensures
        res@ == repo@ + ":"@ + tag@,
{
    proof { reveal_strlit(":"); }
    let mut res = String::from_str(repo);
    res.append(":");
    res.append(tag);
    res
}

/// The variables of `task`, with the values gathered for the whole run in `environment`.
pub fn task_environment(task: &Task, environment: &StringMap<String>) -> (res: StringMap<String>)
    requires
        task.environment@.dom().subset_of(environment@.dom()),
    ensures
        res@.dom() == task.environment@.dom(),
        forall|k: Seq<char>| #[trigger] res@.dom().contains(k) ==> res@[k]@ == environment@[k]@,
{
    let vars = &task.environment;
    proof {
        use_type_invariant(vars);
        vars.lemma_entries();
    }
    let ghost ks = vars.key_order();
    let mut res: StringMap<String> = StringMap::new();
    let mut i: usize = 0;
    while i < vars.len()
        invariant
            vars == &task.environment,
            ks == vars.key_order(),
            vars@.dom() == ks.to_set(),
            vars@.dom().subset_of(environment@.dom()),
            i <= ks.len(),
            res@.dom() == ks.subrange(0, i as int).to_set(),
            forall|k: Seq<char>| #[trigger] res@.dom().contains(k) ==> res@[k]@ == environment@[k]@,
        decreases ks.len() - i,
    {
        let name = vars.key_at(i);
        assert(ks.to_set().contains(ks[i as int]));
        let value = match environment.get(name.as_str()) {
            Some(v) => v,
            None => {
                assert(false);
                return res;
            },
        };
        res.insert(name.clone(), value.clone());
        proof {
            let s0 = ks.subrange(0, i as int);
            let s1 = ks.subrange(0, i + 1);
            assert(s1 =~= s0.push(name@));
            assert(s1.to_set() =~= s0.to_set().insert(name@)) by {
                assert forall|k: Seq<char>| s1.to_set().contains(k) <==> s0.to_set().insert(name@).contains(k) by {
                    if s1.contains(k) {
                        let j = choose|j: int| 0 <= j < s1.len() && s1[j] == k;
                        if j < i {
                            assert(s0[j] == k);
                        }
                    }
                    if s0.contains(k) {
                        let j = choose|j: int| 0 <= j < s0.len() && s0[j] == k;
                        assert(s1[j] == k);
                    }
                    if k == name@ {
                        assert(s1[i as int] == k);
                    }
                }
            }
        }
        i = i + 1;
    }
    assert(ks.subrange(0, ks.len() as int) =~= ks);
    res
}

/// What is fixed for one run of a task.
#[derive(Debug, PartialEq, Eq)]
pub struct Plan {
    /// The task may read and write caches.
    pub caching_enabled: bool,
    pub read_local_cache: bool,
    pub read_remote_cache: bool,
    pub write_local_cache: bool,
    pub write_remote_cache: bool,
    /// The task has output paths to copy out of the container when it succeeds.
    pub has_outputs: bool,
    /// The task has output paths to copy out of the container when its command fails.
    pub has_failure_outputs: bool,
    /// The context the task runs in is kept once it is no longer needed.
    pub context_persist: bool,
}

/// The images an action can speak of.
#[derive(Debug, PartialEq, Eq)]
pub enum Image {
    /// The image under the task's cache key, in the configured repository.
    Cached,
    /// The image of the context the task runs in.
    Context,
    /// An image under a fresh, random tag, in the configured repository.
    Scratch,
}

/// What the context is once the run is over.
#[derive(Debug, PartialEq, Eq)]
pub enum NewContext {
    /// The context the task was to run in.
    Old,
    /// A context made of the given image, kept if the flag is set.
    New(Image, bool),
}

/// How the run ends.
#[derive(Debug, PartialEq, Eq)]
pub enum Ending {
    /// The task ran, or was found in a cache.
    Success,
    /// A step failed with this failure.
    Failed(Failure),
    /// The task's command exited with a failure.
    CommandFailed,
}

/// What the caller reports after performing an action.
#[derive(Debug, PartialEq, Eq)]
pub enum Event {
    /// The run is to begin (the first event).
    Begin,
    /// The answer to `CheckImage`: whether the image exists.
    Exists(bool),
    /// The action succeeded. Deleting a container or an image always reports this: a
    /// failure to delete is only logged.
    Done,
    /// The action failed, and whether the user has asked to stop the program.
    Failed(Failure, bool),
}

/// What the caller is to do next.
#[derive(Debug, PartialEq, Eq)]
pub enum Action {
    /// Check whether the image exists locally.
    CheckImage(Image),
    /// Pull the image.
    PullImage(Image),
    /// Create a container from the image for the task; if the flag is set, the container is
    /// stopped when the user interrupts the program.
    CreateContainer(Image, bool),
    /// Copy the task's input files into the container.
    CopyIn,
    /// Start the container and wait for the command.
    Start,
    /// Copy the task's output paths out of the container.
    CopyOut,
    /// Copy the paths to save on failure out of the container.
    CopyOutOnFailure,
    /// Commit the container to the image.
    Commit(Image),
    /// Push the image.
    Push(Image),
    /// Delete the container.
    DeleteContainer,
    /// Delete the image of the context the task was to run in.
    DeleteContext,
    /// The run is over.
    Finish(Ending, NewContext),
}

/// Where a run stands: which action's outcome it awaits.
#[derive(Debug, PartialEq, Eq)]
pub enum Stage {
    Start,
    /// Checking the local cache.
    LookingUp,
    /// Pulling from the remote cache.
    Pulling,
    /// Creating a container from a cached image, to copy its outputs.
    CreatingForOutputs,
    /// Copying the outputs of a cached image.
    CopyingCached,
    /// Checking whether the context's image exists.
    CheckingContext,
    /// Pulling the context's image.
    PullingContext,
    /// Creating the container that runs the task.
    Creating,
    /// Copying the input files in.
    CopyingIn,
    /// Running the command.
    Running,
    /// Copying the outputs out.
    CopyingOut,
    /// Copying the paths to save on failure out; the run ends as given.
    CopyingFailureOutputs(Ending),
    /// Committing the container; the run ends as given.
    Committing(Ending),
    /// Pushing the committed image.
    Pushing,
    /// Cleaning up, then ending as given; whether the context's image is still to be
    /// deleted.
    Closing(bool, Ending, NewContext),
    /// The run is over.
    Finished,
}

/// The events that the caller can report in a stage: those that the stage's action can
/// give.
pub open spec fn expects(stage: Stage, event: Event) -> bool {
    match stage {
        Stage::Start => event is Begin,
        Stage::LookingUp | Stage::CheckingContext => event is Exists || event is Failed,
        Stage::Closing(..) => event is Done,
        Stage::Finished => false,
        _ => event is Done || event is Failed,
    }
}

/// Ends the run: deletes the container if there is one, then the old context's image if it
/// is dropped and not to be kept, then finishes.
pub open spec fn close(plan: Plan, container: bool, drop_old: bool, ending: Ending, ctx: NewContext) -> (Stage, Action) {
    if container {
        (Stage::Closing(drop_old, ending, ctx), Action::DeleteContainer)
    } else if drop_old && !plan.context_persist {
        (Stage::Closing(false, ending, ctx), Action::DeleteContext)
    } else {
        (Stage::Finished, Action::Finish(ending, ctx))
    }
}

/// After the cache has been looked up: the outputs of a cached image are copied out if
/// there are any; otherwise the task is run in its context.
pub open spec fn after_cache(plan: Plan, cached: bool) -> (Stage, Action) {
    if cached {
        if plan.has_outputs {
            (Stage::CreatingForOutputs, Action::CreateContainer(Image::Cached, false))
        } else {
            close(plan, false, true, Ending::Success, NewContext::New(Image::Cached, true))
        }
    } else {
        (Stage::CheckingContext, Action::CheckImage(Image::Context))
    }
}

/// After the local cache: the remote cache is tried when the image is not cached locally.
pub open spec fn after_lookup(plan: Plan, cached: bool) -> (Stage, Action) {
    if !cached && plan.caching_enabled && plan.read_remote_cache {
        (Stage::Pulling, Action::PullImage(Image::Cached))
    } else {
        after_cache(plan, cached)
    }
}

/// The run is kept under the cache key when it succeeded, caching is enabled, and the local
/// cache is written.
pub open spec fn persists(plan: Plan, ending: Ending) -> bool {
    ending is Success && plan.caching_enabled && plan.write_local_cache
}

/// The image a run that ends as given is committed to.
pub open spec fn commit_image(plan: Plan, ending: Ending) -> Image {
    if persists(plan, ending) {
        Image::Cached
    } else {
        Image::Scratch
    }
}

/// How a failure of the command counts: an interruption stays one, and any other failure
/// means that the command failed.
pub open spec fn command_ending(f: Failure) -> Ending {
    match f {
        Failure::Interrupted => Ending::Failed(Failure::Interrupted),
        _ => Ending::CommandFailed,
    }
}

/// The step the run takes in `stage` when the caller reports `event`: the next stage and
/// the next action.
pub open spec fn next(plan: Plan, stage: Stage, event: Event) -> (Stage, Action) {
    match stage {
        Stage::Start => if plan.caching_enabled && plan.read_local_cache {
            (Stage::LookingUp, Action::CheckImage(Image::Cached))
        } else {
            after_lookup(plan, false)
        },
        Stage::LookingUp => match event {
            Event::Exists(found) => after_lookup(plan, found),
            Event::Failed(f, _) => close(plan, false, false, Ending::Failed(f), NewContext::Old),
            _ => (Stage::Finished, Action::Finish(Ending::Success, NewContext::Old)),
        },
        Stage::Pulling => match event {
            Event::Failed(f, interrupted) => if interrupted {
                close(plan, false, false, Ending::Failed(f), NewContext::Old)
            } else {
                after_cache(plan, false)
            },
            _ => after_cache(plan, true),
        },
        Stage::CreatingForOutputs => match event {
            Event::Failed(f, _) => close(plan, false, false, Ending::Failed(f), NewContext::Old),
            _ => (Stage::CopyingCached, Action::CopyOut),
        },
        Stage::CopyingCached => match event {
            Event::Failed(f, _) => close(plan, true, false, Ending::Failed(f), NewContext::Old),
            _ => close(plan, true, true, Ending::Success, NewContext::New(Image::Cached, true)),
        },
        Stage::CheckingContext => match event {
            Event::Exists(found) => if found {
                (Stage::Creating, Action::CreateContainer(Image::Context, true))
            } else {
                (Stage::PullingContext, Action::PullImage(Image::Context))
            },
            Event::Failed(f, _) => close(plan, false, false, Ending::Failed(f), NewContext::Old),
            _ => (Stage::Finished, Action::Finish(Ending::Success, NewContext::Old)),
        },
        Stage::PullingContext => match event {
            Event::Failed(f, _) => close(plan, false, false, Ending::Failed(f), NewContext::Old),
            _ => (Stage::Creating, Action::CreateContainer(Image::Context, true)),
        },
        Stage::Creating => match event {
            Event::Failed(f, _) => close(plan, false, false, Ending::Failed(f), NewContext::Old),
            _ => (Stage::CopyingIn, Action::CopyIn),
        },
        Stage::CopyingIn => match event {
            Event::Failed(f, _) => close(plan, true, false, Ending::Failed(f), NewContext::Old),
            _ => (Stage::Running, Action::Start),
        },
        Stage::Running => match event {
            Event::Failed(f, _) => {
                let ending = command_ending(f);
                if plan.has_failure_outputs {
                    (Stage::CopyingFailureOutputs(ending), Action::CopyOutOnFailure)
                } else {
                    (Stage::Committing(ending), Action::Commit(commit_image(plan, ending)))
                }
            },
            _ => if plan.has_outputs {
                (Stage::CopyingOut, Action::CopyOut)
            } else {
                (Stage::Committing(Ending::Success), Action::Commit(commit_image(plan, Ending::Success)))
            },
        },
        Stage::CopyingOut => match event {
            Event::Failed(f, _) => close(plan, true, false, Ending::Failed(f), NewContext::Old),
            _ => (Stage::Committing(Ending::Success), Action::Commit(commit_image(plan, Ending::Success))),
        },
        Stage::CopyingFailureOutputs(ending) => match event {
            Event::Failed(f, _) => close(plan, true, false, Ending::Failed(f), NewContext::Old),
            _ => (Stage::Committing(ending), Action::Commit(commit_image(plan, ending))),
        },
        Stage::Committing(ending) => match event {
            Event::Failed(f, _) => close(plan, true, false, Ending::Failed(f), NewContext::Old),
            _ => {
                let image = commit_image(plan, ending);
                let ctx = NewContext::New(image, persists(plan, ending));
                if ending is Success && plan.caching_enabled && plan.write_remote_cache {
                    (Stage::Pushing, Action::Push(image))
                } else {
                    close(plan, true, true, ending, ctx)
                }
            },
        },
        Stage::Pushing => {
            let image = commit_image(plan, Ending::Success);
            let ctx = NewContext::New(image, persists(plan, Ending::Success));
            match event {
                Event::Failed(f, _) => close(plan, true, true, Ending::Failed(f), ctx),
                _ => close(plan, true, true, Ending::Success, ctx),
            }
        },
        Stage::Closing(drop_old, ending, ctx) => close(plan, false, drop_old, ending, ctx),
        Stage::Finished => (Stage::Finished, Action::Finish(Ending::Success, NewContext::Old)),
    }
}

fn closing(plan: &Plan, container: bool, drop_old: bool, ending: Ending, ctx: NewContext) -> (r: (Stage, Action))
    ensures
        r == close(*plan, container, drop_old, ending, ctx),
{
    if container {
        (Stage::Closing(drop_old, ending, ctx), Action::DeleteContainer)
    } else if drop_old && !plan.context_persist {
        (Stage::Closing(false, ending, ctx), Action::DeleteContext)
    } else {
        (Stage::Finished, Action::Finish(ending, ctx))
    }
}

fn cache_checked(plan: &Plan, cached: bool) -> (r: (Stage, Action))
    ensures
        r == after_cache(*plan, cached),
{
    if cached {
        if plan.has_outputs {
            (Stage::CreatingForOutputs, Action::CreateContainer(Image::Cached, false))
        } else {
            closing(plan, false, true, Ending::Success, NewContext::New(Image::Cached, true))
        }
    } else {
        (Stage::CheckingContext, Action::CheckImage(Image::Context))
    }
}

fn looked_up(plan: &Plan, cached: bool) -> (r: (Stage, Action))
    ensures
        r == after_lookup(*plan, cached),
{
    if !cached && plan.caching_enabled && plan.read_remote_cache {
        (Stage::Pulling, Action::PullImage(Image::Cached))
    } else {
        cache_checked(plan, cached)
    }
}

fn persisting(plan: &Plan, ending: &Ending) -> (b: bool)
    ensures
        b == persists(*plan, *ending),
{
    match ending {
        Ending::Success => plan.caching_enabled && plan.write_local_cache,
        _ => false,
    }
}

fn committed_image(plan: &Plan, ending: &Ending) -> (img: Image)
    ensures
        img == commit_image(*plan, *ending),
{
    if persisting(plan, ending) {
        Image::Cached
    } else {
        Image::Scratch
    }
}

fn commit(plan: &Plan, ending: Ending) -> (r: (Stage, Action))
    ensures
        r == (Stage::Committing(ending), Action::Commit(commit_image(*plan, ending))),
{
    let image = committed_image(plan, &ending);
    (Stage::Committing(ending), Action::Commit(image))
}

/// Takes one step of a run: given what happened to the last action, decides the next
/// stage and the next action.
pub fn step(plan: &Plan, stage: Stage, event: Event) -> (r: (Stage, Action))
    requires
        expects(stage, event),
    ensures
        r == next(*plan, stage, event),
        rank(r.0) < rank(stage),
        r.1 is DeleteContainer ==> container_live(stage, event),
        holds_container(r.0) <==> (container_live(stage, event) && !(r.1 is DeleteContainer)),
        r.1 is Finish ==> !container_live(stage, event),
        r.1 == Action::CheckImage(Image::Cached) ==> plan.caching_enabled && plan.read_local_cache,
        r.1 == Action::PullImage(Image::Cached) ==> plan.caching_enabled && plan.read_remote_cache,
        sound(stage) ==> sound(r.0),
        sound(stage) && r.1 == Action::Commit(Image::Cached) ==> plan.caching_enabled && plan.write_local_cache && event is Done,
        sound(stage) ==> finishes_soundly(r.1),
        r.1 is Push ==> plan.caching_enabled && plan.write_remote_cache && event is Done,
        r.1 is CopyOutOnFailure ==> plan.has_failure_outputs && event is Failed,
        r.1 is DeleteContext ==> !plan.context_persist,
        follows_lifecycle(*plan, stage, event, r.0, r.1),
{
    proof {
        lemma_lifecycle(*plan, stage, event);
        lemma_run_ends(*plan, stage, event);
        lemma_container_deleted(*plan, stage, event);
        lemma_outputs(*plan, stage, event);
        if sound(stage) {
            lemma_cache_use(*plan, stage, event);
            lemma_contexts(*plan, stage, event);
        }
    }
    match stage {
        Stage::Start => if plan.caching_enabled && plan.read_local_cache {
            (Stage::LookingUp, Action::CheckImage(Image::Cached))
        } else {
            looked_up(plan, false)
        },
        Stage::LookingUp => match event {
            Event::Exists(found) => looked_up(plan, found),
            Event::Failed(f, _) => closing(plan, false, false, Ending::Failed(f), NewContext::Old),
            _ => (Stage::Finished, Action::Finish(Ending::Success, NewContext::Old)),
        },
        Stage::Pulling => match event {
            Event::Failed(f, interrupted) => if interrupted {
                closing(plan, false, false, Ending::Failed(f), NewContext::Old)
            } else {
                cache_checked(plan, false)
            },
            _ => cache_checked(plan, true),
        },
        Stage::CreatingForOutputs => match event {
            Event::Failed(f, _) => closing(plan, false, false, Ending::Failed(f), NewContext::Old),
            _ => (Stage::CopyingCached, Action::CopyOut),
        },
        Stage::CopyingCached => match event {
            Event::Failed(f, _) => closing(plan, true, false, Ending::Failed(f), NewContext::Old),
            _ => closing(plan, true, true, Ending::Success, NewContext::New(Image::Cached, true)),
        },
        Stage::CheckingContext => match event {
            Event::Exists(found) => if found {
                (Stage::Creating, Action::CreateContainer(Image::Context, true))
            } else {
                (Stage::PullingContext, Action::PullImage(Image::Context))
            },
            Event::Failed(f, _) => closing(plan, false, false, Ending::Failed(f), NewContext::Old),
            _ => (Stage::Finished, Action::Finish(Ending::Success, NewContext::Old)),
        },
        Stage::PullingContext => match event {
            Event::Failed(f, _) => closing(plan, false, false, Ending::Failed(f), NewContext::Old),
            _ => (Stage::Creating, Action::CreateContainer(Image::Context, true)),
        },
        Stage::Creating => match event {
            Event::Failed(f, _) => closing(plan, false, false, Ending::Failed(f), NewContext::Old),
            _ => (Stage::CopyingIn, Action::CopyIn),
        },
        Stage::CopyingIn => match event {
            Event::Failed(f, _) => closing(plan, true, false, Ending::Failed(f), NewContext::Old),
            _ => (Stage::Running, Action::Start),
        },
        Stage::Running => match event {
            Event::Failed(f, _) => {
                let ending = match f {
                    Failure::Interrupted => Ending::Failed(Failure::Interrupted),
                    _ => Ending::CommandFailed,
                };
                if plan.has_failure_outputs {
                    (Stage::CopyingFailureOutputs(ending), Action::CopyOutOnFailure)
                } else {
                    commit(plan, ending)
                }
            },
            _ => if plan.has_outputs {
                (Stage::CopyingOut, Action::CopyOut)
            } else {
                commit(plan, Ending::Success)
            },
        },
        Stage::CopyingOut => match event {
            Event::Failed(f, _) => closing(plan, true, false, Ending::Failed(f), NewContext::Old),
            _ => commit(plan, Ending::Success),
        },
        Stage::CopyingFailureOutputs(ending) => match event {
            Event::Failed(f, _) => closing(plan, true, false, Ending::Failed(f), NewContext::Old),
            _ => commit(plan, ending),
        },
        Stage::Committing(ending) => match event {
            Event::Failed(f, _) => closing(plan, true, false, Ending::Failed(f), NewContext::Old),
            _ => {
                let image = committed_image(plan, &ending);
                let keep = persisting(plan, &ending);
                let success = match ending {
                    Ending::Success => true,
                    _ => false,
                };
                if success && plan.caching_enabled && plan.write_remote_cache {
                    (Stage::Pushing, Action::Push(image))
                } else {
                    closing(plan, true, true, ending, NewContext::New(image, keep))
                }
            },
        },
        Stage::Pushing => {
            let image = committed_image(plan, &Ending::Success);
            let keep = persisting(plan, &Ending::Success);
            match event {
                Event::Failed(f, _) => closing(plan, true, true, Ending::Failed(f), NewContext::New(image, keep)),
                _ => closing(plan, true, true, Ending::Success, NewContext::New(image, keep)),
            }
        },
        Stage::Closing(drop_old, ending, ctx) => closing(plan, false, drop_old, ending, ctx),
        Stage::Finished => (Stage::Finished, Action::Finish(Ending::Success, NewContext::Old)),
    }
}

/// What a finished run gives: the task's cache key if it succeeded, and otherwise the
/// failure; a failed command is reported as such.
pub fn result_of(ending: Ending, cache_key: String) -> (r: Result<String, Failure>)
    ensures
        ending is Success ==> r == Ok::<String, Failure>(cache_key),
        ending matches Ending::Failed(f) ==> r == Err::<String, Failure>(f),
        ending is CommandFailed ==> (r matches Err(Failure::User(m, None)) && m@ == "Command failed."@),
{
    match ending {
        Ending::Success => Ok(cache_key),
        Ending::Failed(f) => Err(f),
        Ending::CommandFailed => {
            proof { reveal_strlit("Command failed."); }
            Err(Failure::User(String::from_str("Command failed."), None))
        },
    }
}

/// The image a successful run is committed to: the one under the cache key when caching is
/// enabled and the local cache is written, and otherwise one under a fresh tag.
pub open spec fn success_image(plan: Plan) -> Image {
    if plan.caching_enabled && plan.write_local_cache {
        Image::Cached
    } else {
        Image::Scratch
    }
}

/// The step a run takes once the task's image is found in a cache: a container is made from
/// it to copy the outputs out if the task has any; otherwise the old context is deleted
/// unless it is kept, and the run succeeds with the cached image as its new context.
pub open spec fn cache_hit_step(plan: Plan) -> (Stage, Action) {
    let ctx = NewContext::New(Image::Cached, true);
    if plan.has_outputs {
        (Stage::CreatingForOutputs, Action::CreateContainer(Image::Cached, false))
    } else if !plan.context_persist {
        (Stage::Closing(false, Ending::Success, ctx), Action::DeleteContext)
    } else {
        (Stage::Finished, Action::Finish(Ending::Success, ctx))
    }
}

/// The step a run takes once the task's image is known to be missing from the local cache:
/// the remote cache is tried if it may be read, and otherwise the context's image is looked up.
pub open spec fn local_miss_step(plan: Plan) -> (Stage, Action) {
    if plan.caching_enabled && plan.read_remote_cache {
        (Stage::Pulling, Action::PullImage(Image::Cached))
    } else {
        (Stage::CheckingContext, Action::CheckImage(Image::Context))
    }
}

/// The failure an event reports, if it reports one.
pub open spec fn failure_of(event: Event) -> Failure {
    match event {
        Event::Failed(f, _) => f,
        _ => Failure::Interrupted,
    }
}

/// Whether a failed action comes with the user's request to stop the program.
pub open spec fn stop_asked(event: Event) -> bool {
    match event {
        Event::Failed(_, interrupted) => interrupted,
        _ => false,
    }
}

/// How one task runs, step by step: the cache is looked up locally, then pulled from the
/// remote cache, as the settings allow; on a hit, only the outputs are copied out. On a miss,
/// the context's image is pulled if it is missing, a container is created from it, the
/// inputs are copied in and the command is run. After the command succeeds, the output paths
/// (if any) are copied out, then the container is committed (under the cache key when
/// caching is enabled and the local cache is written) and, when caching is enabled and the
/// remote cache is written, the image is pushed. After the command fails, the paths to save
/// on failure (if any) are copied out and the container is committed under a fresh tag. A
/// step that fails before a container exists ends the run with that failure and the old
/// context; one that fails while a container exists has the container deleted first, and
/// keeps the old context. Once the container is deleted, the old context's image is deleted
/// if it was replaced and is not to be kept, and the run finishes.
#[verifier::opaque]
pub open spec fn follows_lifecycle(plan: Plan, stage: Stage, event: Event, after: Stage, action: Action) -> bool {
    let caching = plan.caching_enabled;
    let f = failure_of(event);
    let step = (after, action);
    let give_up = (Stage::Finished, Action::Finish(Ending::Failed(f), NewContext::Old));
    let clean_up = (Stage::Closing(false, Ending::Failed(f), NewContext::Old), Action::DeleteContainer);
    let success_context = NewContext::New(success_image(plan), caching && plan.write_local_cache);
    let command_failure = if f is Interrupted { Ending::Failed(Failure::Interrupted) } else { Ending::CommandFailed };
    &&& stage is Start ==> step == (if caching && plan.read_local_cache {
        (Stage::LookingUp, Action::CheckImage(Image::Cached))
    } else {
        local_miss_step(plan)
    })
    &&& stage is LookingUp && event == Event::Exists(true) ==> step == cache_hit_step(plan)
    &&& stage is LookingUp && event == Event::Exists(false) ==> step == local_miss_step(plan)
    &&& stage is Pulling && event is Done ==> step == cache_hit_step(plan)
    &&& stage is Pulling && event is Failed && !stop_asked(event)
        ==> step == (Stage::CheckingContext, Action::CheckImage(Image::Context))
    &&& stage is Pulling && event is Failed && stop_asked(event) ==> step == give_up
    &&& stage is CreatingForOutputs && event is Done ==> step == (Stage::CopyingCached, Action::CopyOut)
    &&& stage is CopyingCached && event is Done
        ==> step == (Stage::Closing(true, Ending::Success, NewContext::New(Image::Cached, true)), Action::DeleteContainer)
    &&& stage is CheckingContext && event == Event::Exists(true)
        ==> step == (Stage::Creating, Action::CreateContainer(Image::Context, true))
    &&& stage is CheckingContext && event == Event::Exists(false)
        ==> step == (Stage::PullingContext, Action::PullImage(Image::Context))
    &&& stage is PullingContext && event is Done ==> step == (Stage::Creating, Action::CreateContainer(Image::Context, true))
    &&& stage is Creating && event is Done ==> step == (Stage::CopyingIn, Action::CopyIn)
    &&& stage is CopyingIn && event is Done ==> step == (Stage::Running, Action::Start)
    &&& stage is Running && event is Done && plan.has_outputs ==> step == (Stage::CopyingOut, Action::CopyOut)
    &&& stage is Running && event is Done && !plan.has_outputs
        ==> step == (Stage::Committing(Ending::Success), Action::Commit(success_image(plan)))
    &&& stage is CopyingOut && event is Done
        ==> step == (Stage::Committing(Ending::Success), Action::Commit(success_image(plan)))
    &&& stage is Running && event is Failed && plan.has_failure_outputs
        ==> step == (Stage::CopyingFailureOutputs(command_failure), Action::CopyOutOnFailure)
    &&& stage is Running && event is Failed && !plan.has_failure_outputs
        ==> step == (Stage::Committing(command_failure), Action::Commit(Image::Scratch))
    &&& stage == Stage::CopyingFailureOutputs(Ending::Success) && event is Done
        ==> step == (Stage::Committing(Ending::Success), Action::Commit(success_image(plan)))
    &&& stage is CopyingFailureOutputs && stage != Stage::CopyingFailureOutputs(Ending::Success) && event is Done
        ==> step == (Stage::Committing(stage->CopyingFailureOutputs_0), Action::Commit(Image::Scratch))
    &&& stage == Stage::Committing(Ending::Success) && event is Done && caching && plan.write_remote_cache
        ==> step == (Stage::Pushing, Action::Push(success_image(plan)))
    &&& stage == Stage::Committing(Ending::Success) && event is Done && !(caching && plan.write_remote_cache)
        ==> step == (Stage::Closing(true, Ending::Success, success_context), Action::DeleteContainer)
    &&& stage is Committing && stage != Stage::Committing(Ending::Success) && event is Done
        ==> step == (
            Stage::Closing(true, stage->Committing_0, NewContext::New(Image::Scratch, false)),
            Action::DeleteContainer,
        )
    &&& stage is Pushing && event is Done ==> step == (Stage::Closing(true, Ending::Success, success_context), Action::DeleteContainer)
    &&& stage is Pushing && event is Failed
        ==> step == (Stage::Closing(true, Ending::Failed(f), success_context), Action::DeleteContainer)
    &&& event is Failed && !(stage is Running) && !(stage is Pushing) && holds_container(stage) ==> step == clean_up
    &&& event is Failed && (stage is LookingUp || stage is CheckingContext || stage is PullingContext || creating(stage))
        ==> step == give_up
    &&& stage is Closing && stage->Closing_0 && !plan.context_persist
        ==> step == (Stage::Closing(false, stage->Closing_1, stage->Closing_2), Action::DeleteContext)
    &&& stage is Closing && !(stage->Closing_0 && !plan.context_persist)
        ==> step == (Stage::Finished, Action::Finish(stage->Closing_1, stage->Closing_2))
}

/// The steps of a run follow the lifecycle of a task (see `follows_lifecycle`): in
/// particular, a task with output paths has them copied out after its command succeeds and
/// before its container is committed, and a successful run with caching enabled and remote
/// writes on pushes its image.
pub proof fn lemma_lifecycle(plan: Plan, stage: Stage, event: Event)
    requires
        expects(stage, event),
    ensures
        follows_lifecycle(plan, stage, event, next(plan, stage, event).0, next(plan, stage, event).1),
{
    reveal(follows_lifecycle);
}

/// The stages in which the run has a container.
pub open spec fn holds_container(stage: Stage) -> bool {
    ||| stage is CopyingCached
    ||| stage is CopyingIn
    ||| stage is Running
    ||| stage is CopyingOut
    ||| stage is CopyingFailureOutputs
    ||| stage is Committing
    ||| stage is Pushing
}

/// The stages that await the creation of a container.
pub open spec fn creating(stage: Stage) -> bool {
    stage is CreatingForOutputs || stage is Creating
}

/// A container exists when the step is taken: the run had one, or one has just been
/// created.
pub open spec fn container_live(stage: Stage, event: Event) -> bool {
    holds_container(stage) || (creating(stage) && event is Done)
}

/// Every container is deleted before the run finishes: a step deletes the container only
/// if there is one, keeps it exactly when it does not delete it, creates one only when
/// there is none, and finishes only when there is none.
pub proof fn lemma_container_deleted(plan: Plan, stage: Stage, event: Event)
    requires
        expects(stage, event),
    ensures
        ({
            let (after, action) = next(plan, stage, event);
            &&& action is DeleteContainer ==> container_live(stage, event)
            &&& holds_container(after) <==> (container_live(stage, event) && !(action is DeleteContainer))
            &&& action is CreateContainer ==> !container_live(stage, event)
            &&& action is Finish ==> !container_live(stage, event)
        }),
{
}

/// Caches are only used as the settings allow: the local cache is checked only when
/// caching is enabled and local reads are on, and the remote cache is pulled from only
/// when caching is enabled and remote reads are on; a container is committed under the
/// cache key only after its command succeeded, with caching enabled and local writes on;
/// and an image is pushed only after such a commit succeeded, with remote writes on.
pub proof fn lemma_cache_use(plan: Plan, stage: Stage, event: Event)
    requires
        expects(stage, event),
        sound(stage),
    ensures
        ({
            let (after, action) = next(plan, stage, event);
            &&& action == Action::CheckImage(Image::Cached) ==> plan.caching_enabled && plan.read_local_cache
            &&& action == Action::PullImage(Image::Cached) ==> plan.caching_enabled && plan.read_remote_cache
            &&& action == Action::Commit(Image::Cached) ==> plan.caching_enabled && plan.write_local_cache
                && event is Done && (stage is Running || stage is CopyingOut)
            &&& action is Push ==> plan.caching_enabled && plan.write_remote_cache && event is Done
                && stage == Stage::Committing(Ending::Success)
            &&& action is Start ==> stage is CopyingIn && event is Done
        }),
{
}

/// Outputs are copied out only as the task asks: its output paths after the command
/// succeeded, or from a cached image, and its paths to save on failure only after the
/// command failed.
pub proof fn lemma_outputs(plan: Plan, stage: Stage, event: Event)
    requires
        expects(stage, event),
    ensures
        ({
            let (after, action) = next(plan, stage, event);
            &&& action is CopyOut ==> event is Done && ((stage is Running && plan.has_outputs) || stage is CreatingForOutputs)
            &&& action == Action::CreateContainer(Image::Cached, false) ==> plan.has_outputs
            &&& action is CopyOutOnFailure ==> plan.has_failure_outputs && stage is Running && event is Failed
        }),
{
}

/// What a stage can carry: a context that is to be deleted is replaced by a new one, a
/// successful end comes with a new context, a failed command with a new, temporary one,
/// the old context comes back only with a failure, and the paths to save on failure are
/// copied only after a failure.
pub open spec fn sound(stage: Stage) -> bool {
    match stage {
        Stage::Closing(drop_old, ending, ctx) => {
            &&& drop_old ==> ctx is New
            &&& ending is Success ==> ctx is New
            &&& ending is CommandFailed ==> ctx == NewContext::New(Image::Scratch, false)
            &&& ctx is Old ==> ending is Failed
        },
        Stage::CopyingFailureOutputs(ending) => !(ending is Success),
        _ => true,
    }
}

/// The stage closes the run with a new context.
pub open spec fn replaces_context(stage: Stage) -> bool {
    match stage {
        Stage::Closing(_, _, ctx) => ctx is New,
        _ => false,
    }
}

/// If the action finishes the run, the context fits the ending: a success brings a new
/// context, a failed command a new, temporary one, and the old context comes back only
/// with a failure.
pub open spec fn finishes_soundly(action: Action) -> bool {
    match action {
        Action::Finish(ending, ctx) => {
            &&& ending is Success ==> ctx is New
            &&& ending is CommandFailed ==> ctx == NewContext::New(Image::Scratch, false)
            &&& ctx is Old ==> ending is Failed
        },
        _ => true,
    }
}

/// Steps keep stages sound, and the run ends accordingly: the old context's image is
/// deleted only when it is not to be kept and a new context replaces it; a success brings
/// a new context, the cached one if the image was found in a cache or committed under the
/// cache key; a failed command brings a new, temporary context; and the old context comes
/// back only with a failure.
pub proof fn lemma_contexts(plan: Plan, stage: Stage, event: Event)
    requires
        expects(stage, event),
        sound(stage),
    ensures
        ({
            let (after, action) = next(plan, stage, event);
            &&& sound(after)
            &&& action is DeleteContext ==> !plan.context_persist && replaces_context(after)
            &&& finishes_soundly(action)
        }),
{
}

/// How far a stage is from the end of the run.
pub open spec fn rank(stage: Stage) -> nat {
    match stage {
        Stage::Start => 20,
        Stage::LookingUp => 19,
        Stage::Pulling => 18,
        Stage::CreatingForOutputs => 17,
        Stage::CopyingCached => 16,
        Stage::CheckingContext => 15,
        Stage::PullingContext => 14,
        Stage::Creating => 13,
        Stage::CopyingIn => 12,
        Stage::Running => 11,
        Stage::CopyingOut => 10,
        Stage::CopyingFailureOutputs(_) => 10,
        Stage::Committing(_) => 9,
        Stage::Pushing => 8,
        Stage::Closing(drop_old, _, _) => if drop_old { 2 } else { 1 },
        Stage::Finished => 0,
    }
}

/// Every run ends: each step moves closer to the end, and a step finishes the run exactly
/// when it reaches the final stage, after which no event is expected.
pub proof fn lemma_run_ends(plan: Plan, stage: Stage, event: Event)
    requires
        expects(stage, event),
    ensures
        ({
            let (after, action) = next(plan, stage, event);
            &&& rank(after) < rank(stage)
            &&& (action is Finish <==> after is Finished)
            &&& (after is Finished ==> forall|e: Event| !expects(after, e))
        }),
{
}

} // verus!
