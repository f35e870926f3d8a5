//! Jobs: an ordered list of named tasks.
use crate::strmap::StringMap;
use vstd::prelude::*;

verus! {

/// The default location for commands and files.
pub const DEFAULT_LOCATION: &'static str = "/scratch";

/// A task of a job.
#[derive(Debug, PartialEq, Eq)]
pub struct Task {
    pub name: String,
    pub dependencies: Vec<String>,
    pub cache: bool,
    pub args: StringMap<Option<String>>,
    pub files: Vec<String>,
    pub location: String,
    pub command: Option<String>,
}

/// Whether a task is cached unless it says otherwise.
pub fn default_task_cache() -> (b: bool)
    ensures
        b,
{
    true
}

/// The location of a task that names none.
pub fn default_task_location() -> (s: String)
    ensures
        s@ == "/scratch"@,
{
    proof { reveal_strlit("/scratch"); }
    String::from_str("/scratch")
}

/// A job.
#[derive(Debug, PartialEq, Eq)]
pub struct Job {
    pub image: String,
    pub tasks: Vec<Task>,
}

/// The names of the tasks of a job, in order.
pub open spec fn task_names(job: Job) -> Seq<Seq<char>> {
    job.tasks@.map_values(|t: Task| t.name@)
}

/// Builds a map from task name to the task's position in the job. Fails on the first task
/// whose name an earlier task already has.
pub fn index(job: &Job) -> (r: Result<StringMap<usize>, String>)
    ensures
        r is Ok <==> task_names(*job).no_duplicates(),
        r matches Ok(m) ==> m@.dom() == task_names(*job).to_set() && forall|i: int| 0 <= i < job.tasks.len() ==> #[trigger] m@[task_names(*job)[i]] == i,
        r matches Err(msg) ==> exists|j: int| 0 <= j < job.tasks.len() && task_names(*job).subrange(0, j).contains(#[trigger] task_names(*job)[j])
            && (forall|k: int| 0 <= k < j ==> !task_names(*job).subrange(0, k).contains(#[trigger] task_names(*job)[k]))
            && msg@ == "Duplicate task name: `"@ + task_names(*job)[j] + "`."@,
{
    let ghost names = task_names(*job);
    let mut job_index: StringMap<usize> = StringMap::new();
    let mut i: usize = 0;
    while i < job.tasks.len()
        invariant
            names == task_names(*job),
            i <= job.tasks.len(),
            job_index@.dom() == names.subrange(0, i as int).to_set(),
            forall|k: int| 0 <= k < i ==> #[trigger] job_index@[names[k]] == k,
            names.subrange(0, i as int).no_duplicates(),
            forall|k: int| 0 <= k < i ==> !#[trigger] names.subrange(0, k).contains(names[k]),
        decreases job.tasks.len() - i,
    {
        let name = &job.tasks[i].name;
        assert(names[i as int] == name@);
        if job_index.contains_key(name.as_str()) {
            proof {
                reveal_strlit("Duplicate task name: `");
                reveal_strlit("`.");
                assert(names.subrange(0, i as int).to_set().contains(name@));
                assert(names.subrange(0, i as int).contains(names[i as int]));
            }
            let mut msg = String::from_str("Duplicate task name: `");
            msg.append(name.as_str());
            msg.append("`.");
            return Err(msg);
        }
        proof {
            assert(!names.subrange(0, i as int).contains(names[i as int])) by {
                if names.subrange(0, i as int).contains(names[i as int]) {
                    assert(names.subrange(0, i as int).to_set().contains(names[i as int]));
                }
            }
            assert(names.subrange(0, i + 1) =~= names.subrange(0, i as int).push(name@));
            names.subrange(0, i as int).lemma_push_to_set_commute(name@);
        }
        job_index.insert(name.clone(), i);
        proof {
            assert forall|k: int| 0 <= k < i + 1 implies #[trigger] job_index@[names[k]] == k by {
                if k < i {
                    assert(names.subrange(0, i as int)[k] == names[k]);
                    assert(names[k] != name@) by {
                        assert(names.subrange(0, i as int).contains(names[k]));
                    }
                }
            }
            assert(names.subrange(0, i + 1).no_duplicates()) by {
                let t = names.subrange(0, i + 1);
                assert forall|x: int, y: int| 0 <= x < t.len() && 0 <= y < t.len() && x != y implies t[x] != t[y] by {
                    if x < i && y < i {
                        assert(t[x] == names.subrange(0, i as int)[x]);
                        assert(t[y] == names.subrange(0, i as int)[y]);
                    } else if x < i {
                        assert(t[x] == names.subrange(0, i as int)[x]);
                        assert(names.subrange(0, i as int).contains(t[x]));
                    } else {
                        assert(t[y] == names.subrange(0, i as int)[y]);
                        assert(names.subrange(0, i as int).contains(t[y]));
                    }
                }
            }
        }
        i = i + 1;
    }
    assert(names.subrange(0, i as int) =~= names);
    Ok(job_index)
}

} // verus!
