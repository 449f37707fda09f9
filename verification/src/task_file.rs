//! The task list kept in a shared file: which task a worker takes, and what
//! becomes of a task that is finished or has failed. The file is read and
//! written elsewhere; here are the lists before and after.

use vstd::prelude::*;
use vstd::string::StringExecFns;

use crate::task_queue::{
    copy_text, is_same_work, same_work, task_views, TaskItem, TaskView, TaskWorker,
    WorkerView,
};
use crate::text::str_eq;

verus! {

/// The status of a task that a worker holds.
pub const STATUS_PROCESSING: &'static str = "processing";

/// The status of a task that is done.
pub const STATUS_FINISHED: &'static str = "finished";

/// The status of a task that has failed.
pub const STATUS_FAILED: &'static str = "failed";

/// The status of a task that needs no retry.
pub const STATUS_PROCESSED: &'static str = "processed";

/// Whether the lease record of a task says `status`.
pub open spec fn has_status(task: TaskView, status: Seq<char>) -> bool {
    task.worker matches Some(w) && w.status == Some(status)
}

/// Whether a worker may take the task. Unless tasks are retried, a task is
/// free when no worker has taken it or it has failed; when tasks are
/// retried, every task is free but those already processed.
pub open spec fn is_free(task: TaskView, retry_tasks: bool) -> bool {
    if retry_tasks {
        !has_status(task, STATUS_PROCESSED@)
    } else {
        task.worker is None || has_status(task, STATUS_FAILED@)
    }
}

/// The index of the first free task among the first `upto`, or `-1`.
pub open spec fn first_free(tasks: Seq<TaskView>, retry_tasks: bool, upto: int) -> int
    decreases upto,
{
    if upto <= 0 {
        -1
    } else {
        let before = first_free(tasks, retry_tasks, upto - 1);
        if before >= 0 {
            before
        } else if is_free(tasks[upto - 1], retry_tasks) {
            upto - 1
        } else {
            -1
        }
    }
}

/// Whether all of the first `upto` tasks are finished.
pub open spec fn all_done(tasks: Seq<TaskView>, upto: int) -> bool {
    forall|i: int| 0 <= i < upto ==> has_status(#[trigger] tasks[i], STATUS_FINISHED@)
}

/// The task with a fresh lease record for the worker.
pub open spec fn taken(task: TaskView, worker_key: Seq<char>, now: Seq<char>) -> TaskView {
    TaskView {
        worker: Some(
            WorkerView {
                key: Some(worker_key),
                status: Some(STATUS_PROCESSING@),
                process_time: Some(now),
                finish_time: None,
            },
        ),
        ..task
    }
}

/// The task with its lease record, if it has one, closed with `status`.
pub open spec fn closed(task: TaskView, status: Seq<char>, now: Seq<char>) -> TaskView {
    match task.worker {
        Some(w) => TaskView {
            worker: Some(WorkerView { status: Some(status), finish_time: Some(now), ..w }),
            ..task
        },
        None => task,
    }
}

/// The list with the lease record closed on every task that is the work
/// of `task`.
pub open spec fn closed_all(
    tasks: Seq<TaskView>,
    task: TaskView,
    status: Seq<char>,
    now: Seq<char>,
) -> Seq<TaskView> {
    tasks.map_values(
        |e: TaskView|
            if same_work(e, task) {
                closed(e, status, now)
            } else {
                e
            },
    )
}

/// The index of the last of the first `upto` tasks that is the work of
/// `task`, or `-1`.
pub open spec fn last_match(tasks: Seq<TaskView>, task: TaskView, upto: int) -> int
    decreases upto,
{
    if upto <= 0 {
        -1
    } else if same_work(tasks[upto - 1], task) {
        upto - 1
    } else {
        last_match(tasks, task, upto - 1)
    }
}

/// A copy of the task with a fresh lease record.
fn take_task(task: &TaskItem, worker_key: &str, now: &str) -> (r: TaskItem)
    ensures
        r@ == taken(task@, worker_key@, now@),
{
    let mut copy = task.duplicate();
    copy.worker = Some(
        TaskWorker {
            key: Some(String::from_str(worker_key)),
            status: Some(String::from_str(STATUS_PROCESSING)),
            process_time: Some(String::from_str(now)),
            finish_time: None,
        },
    );
    copy
}

/// A copy of the task with its lease record closed.
fn close_task(task: &TaskItem, status: &str, now: &str) -> (r: TaskItem)
    ensures
        r@ == closed(task@, status@, now@),
{
    let mut copy = task.duplicate();
    match &task.worker {
        Some(w) => {
            copy.worker = Some(
                TaskWorker {
                    key: copy_text(&w.key),
                    status: Some(String::from_str(status)),
                    process_time: copy_text(&w.process_time),
                    finish_time: Some(String::from_str(now)),
                },
            );
        },
        None => {},
    }
    copy
}

/// Whether the lease record of the task says `status`.
pub fn task_has_status(task: &TaskItem, status: &str) -> (b: bool)
    ensures
        b == has_status(task@, status@),
{
    match &task.worker {
        Some(w) => match &w.status {
            Some(s) => str_eq(s.as_str(), status),
            None => false,
        },
        None => false,
    }
}

/// Whether a worker may take the task.
pub fn task_is_free(task: &TaskItem, retry_tasks: bool) -> (b: bool)
    ensures
        b == is_free(task@, retry_tasks),
{
    if retry_tasks {
        !task_has_status(task, STATUS_PROCESSED)
    } else {
        task.worker.is_none() || task_has_status(task, STATUS_FAILED)
    }
}

/// Picks a task for a worker from the list: the first free one. The task
/// gets a lease record with the key of the worker, the status
/// `processing` and the time given; the task as it was before is returned.
/// Where no task is free, the list stays as it is, and the second result
/// says whether every task is finished; it is false where a task was
/// picked.
pub fn get_task_item(
    task_items: &mut Vec<TaskItem>,
    retry_tasks: bool,
    worker_key: &str,
    now: &str,
) -> (r: (Option<TaskItem>, bool))
    ensures
        ({
            let before = task_views(old(task_items)@);
            let at = first_free(before, retry_tasks, before.len() as int);
            &&& at < 0 ==> {
                &&& r.0 is None
                &&& r.1 == all_done(before, before.len() as int)
                &&& task_views(final(task_items)@) == before
            }
            &&& at >= 0 ==> {
                &&& r.0 matches Some(t) && t@ == before[at]
                &&& !r.1
                &&& task_views(final(task_items)@) == before.update(
                    at,
                    taken(before[at], worker_key@, now@),
                )
            }
        }),
{
    let ghost before = task_views(task_items@);
    let n: usize = task_items.len();
    let mut all_finished: bool = true;
    let mut i: usize = 0;
    while i < n
        invariant
            i <= n,
            n == task_items@.len(),
            task_items == old(task_items),
            before == task_views(task_items@),
            first_free(before, retry_tasks, i as int) < 0,
            all_finished == all_done(before, i as int),
        decreases n - i,
    {
        proof {
            assert(before[i as int] == task_items@[i as int]@);
        }
        if !task_has_status(&task_items[i], STATUS_FINISHED) {
            all_finished = false;
        }
        if task_is_free(&task_items[i], retry_tasks) {
            let assigned = task_items[i].duplicate();
            let renewed = take_task(&task_items[i], worker_key, now);
            task_items.set(i, renewed);
            proof {
                lemma_first_free_stays(before, retry_tasks, i + 1, n as int);
                assert(task_views(task_items@) =~= before.update(
                    i as int,
                    taken(before[i as int], worker_key@, now@),
                ));
            }
            return (Some(assigned), false);
        }
        i += 1;
    }
    (None, all_finished)
}

/// A free task found among the first tasks is the first free task of all.
pub proof fn lemma_first_free_stays(tasks: Seq<TaskView>, retry_tasks: bool, found: int, upto: int)
    requires
        0 < found <= upto <= tasks.len(),
        first_free(tasks, retry_tasks, found - 1) < 0,
        is_free(tasks[found - 1], retry_tasks),
    ensures
        first_free(tasks, retry_tasks, upto) == found - 1,
    decreases upto,
{
    if upto > found {
        lemma_first_free_stays(tasks, retry_tasks, found, upto - 1);
    }
}

/// Closes the lease record of every task of the list that is the work of
/// `task`, and returns the index of the last such task.
fn close_matching(task_items: &mut Vec<TaskItem>, task: &TaskItem, status: &str, now: &str) -> (at:
    Option<usize>)
    ensures
        task_views(final(task_items)@) == closed_all(
            task_views(old(task_items)@),
            task@,
            status@,
            now@,
        ),
        match at {
            Some(i) => i == last_match(
                task_views(old(task_items)@),
                task@,
                old(task_items)@.len() as int,
            ) && i < old(task_items)@.len(),
            None => last_match(task_views(old(task_items)@), task@, old(task_items)@.len() as int)
                < 0,
        },
{
    let ghost before = task_views(task_items@);
    let n: usize = task_items.len();
    let mut out: Vec<TaskItem> = Vec::new();
    let mut matched: Option<usize> = None;
    let mut i: usize = 0;
    while i < n
        invariant
            i <= n,
            n == task_items@.len(),
            task_items == old(task_items),
            before == task_views(task_items@),
            out@.len() == i,
            forall|j: int|
                0 <= j < i ==> (#[trigger] out@[j])@ == closed_all(before, task@, status@, now@)[j],
            match matched {
                Some(m) => m == last_match(before, task@, i as int) && m < i,
                None => last_match(before, task@, i as int) < 0,
            },
        decreases n - i,
    {
        proof {
            assert(before[i as int] == task_items@[i as int]@);
        }
        if is_same_work(&task_items[i], task) {
            out.push(close_task(&task_items[i], status, now));
            matched = Some(i);
        } else {
            out.push(task_items[i].duplicate());
        }
        i += 1;
    }
    *task_items = out;
    proof {
        assert(task_views(task_items@) =~= closed_all(before, task@, status@, now@));
    }
    matched
}

/// Marks a task of the list as finished. Every task that is the work of
/// `task` has its lease record closed with the status `finished` and the
/// time given; the last of them leaves the list and is returned, to be
/// kept with the finished tasks. Where no task is the work of `task`, the
/// list stays as it is.
pub fn mark_task_item_finished(task_items: &mut Vec<TaskItem>, task: &TaskItem, now: &str) -> (r:
    Option<TaskItem>)
    ensures
        ({
            let before = task_views(old(task_items)@);
            let marked = closed_all(before, task@, STATUS_FINISHED@, now@);
            let at = last_match(before, task@, before.len() as int);
            &&& at < 0 ==> r is None && task_views(final(task_items)@) == before
            &&& at >= 0 ==> {
                &&& r matches Some(t) && t@ == marked[at]
                &&& task_views(final(task_items)@) == marked.remove(at)
            }
        }),
{
    let ghost before = task_views(task_items@);
    match close_matching(task_items, task, STATUS_FINISHED, now) {
        Some(at) => {
            let ghost marked = task_views(task_items@);
            proof {
                assert(task_items@.len() == marked.len());
            }
            let done = task_items.remove(at);
            proof {
                assert(task_views(task_items@) =~= marked.remove(at as int));
                assert(marked[at as int] == done@);
            }
            Some(done)
        },
        None => {
            proof {
                lemma_no_match_unchanged(before, task@, STATUS_FINISHED@, now@, before.len() as int);
                assert(task_views(task_items@) =~= before);
            }
            None
        },
    }
}

/// Marks a task of the list as failed. Every task that is the work of
/// `task` has its lease record closed with the status `failed` and the
/// time given; the last of them moves to the end of the list, where it
/// waits to be taken again. Returns whether there was such a task.
pub fn mark_task_item_failed(task_items: &mut Vec<TaskItem>, task: &TaskItem, now: &str) -> (found:
    bool)
    ensures
        ({
            let before = task_views(old(task_items)@);
            let marked = closed_all(before, task@, STATUS_FAILED@, now@);
            let at = last_match(before, task@, before.len() as int);
            &&& found == (at >= 0)
            &&& at < 0 ==> task_views(final(task_items)@) == before
            &&& at >= 0 ==> task_views(final(task_items)@) == marked.remove(at).push(marked[at])
        }),
{
    let ghost before = task_views(task_items@);
    match close_matching(task_items, task, STATUS_FAILED, now) {
        Some(at) => {
            let ghost marked = task_views(task_items@);
            proof {
                assert(task_items@.len() == marked.len());
            }
            let failed = task_items.remove(at);
            task_items.push(failed);
            proof {
                assert(task_views(task_items@) =~= marked.remove(at as int).push(
                    marked[at as int],
                ));
            }
            true
        },
        None => {
            proof {
                lemma_no_match_unchanged(before, task@, STATUS_FAILED@, now@, before.len() as int);
                assert(task_views(task_items@) =~= before);
            }
            false
        },
    }
}

/// Where no task is the work of `task`, closing changes nothing.
pub proof fn lemma_no_match_unchanged(
    tasks: Seq<TaskView>,
    task: TaskView,
    status: Seq<char>,
    now: Seq<char>,
    upto: int,
)
    requires
        0 <= upto <= tasks.len(),
        last_match(tasks, task, upto) < 0,
    ensures
        forall|i: int|
            0 <= i < upto ==> #[trigger] closed_all(tasks, task, status, now)[i] == tasks[i],
    decreases upto,
{
    if upto > 0 {
        lemma_no_match_unchanged(tasks, task, status, now, upto - 1);
    }
}

} // verus!
