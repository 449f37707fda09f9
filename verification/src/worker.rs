//! What a worker decides between its tasks: which files a task stands for,
//! which files fall to a virtual shard, and whether to go on, wait or stop.

use rand::seq::SliceRandom;
use vstd::prelude::*;

use crate::task_queue::{names_files, copy_strings, TaskItem};
use crate::text::string_views;

verus! {

/// The range of files that `file_range` selects among `len` files: from
/// its first number up to its second, where `-1` stands for the number of
/// files. A range that ends beyond the files is cut at their end, and is
/// empty if it starts there too.
pub open spec fn selected_range(file_range: Seq<i32>, len: int) -> (int, int) {
    let start = file_range[0] as int;
    let end = file_range[1] as int;
    if end == -1 {
        (start, len)
    } else if 0 <= end <= len {
        (start, end)
    } else if start < len {
        (start, len)
    } else {
        (0, 0)
    }
}

/// The range starts at a file or at the end, and does not end before it
/// starts.
pub open spec fn range_fits(file_range: Seq<i32>, len: int) -> bool {
    &&& file_range.len() >= 2
    &&& 0 <= selected_range(file_range, len).0 <= selected_range(file_range, len).1 <= len
}

/// The files of a task: the files it names, or else the files of its
/// directory that its range selects.
pub fn select_task_files(task: &TaskItem, all_files: &Vec<String>) -> (files: Vec<String>)
    requires
        !names_files(task@) ==> range_fits(task@.file_range, all_files@.len() as int),
    ensures
        string_views(files@) == if names_files(task@) {
            task@.files->0
        } else {
            string_views(all_files@).subrange(
                selected_range(task@.file_range, all_files@.len() as int).0,
                selected_range(task@.file_range, all_files@.len() as int).1,
            )
        },
{
    match &task.files {
        Some(named) => {
            if named.len() > 0 {
                return copy_strings(named);
            }
        },
        None => {},
    }
    let len: usize = all_files.len();
    let first: i32 = task.file_range[0];
    let second: i32 = task.file_range[1];
    let start: usize = first as usize;
    let (from, to): (usize, usize) = if second == -1 {
        (start, len)
    } else if second >= 0 && second as usize <= len {
        (start, second as usize)
    } else if start < len {
        (start, len)
    } else {
        (0, 0)
    };
    let mut out: Vec<String> = Vec::new();
    let mut i: usize = from;
    while i < to
        invariant
            from <= i <= to <= all_files@.len(),
            out@.len() == i - from,
            forall|j: int| 0 <= j < out@.len() ==> (#[trigger] out@[j])@ == all_files@[from + j]@,
        decreases to - i,
    {
        out.push(all_files[i].clone());
        i += 1;
    }
    proof {
        assert(string_views(out@) =~= string_views(all_files@).subrange(from as int, to as int));
    }
    out
}

/// The files of a task, or nothing for a task that names no files and
/// whose range does not fit the files of its directory.
pub fn checked_task_files(task: &TaskItem, all_files: &Vec<String>) -> (files: Option<Vec<String>>)
    ensures
        files is Some <==> names_files(task@) || range_fits(
            task@.file_range,
            all_files@.len() as int,
        ),
        files matches Some(f) ==> string_views(f@) == if names_files(task@) {
            task@.files->0
        } else {
            string_views(all_files@).subrange(
                selected_range(task@.file_range, all_files@.len() as int).0,
                selected_range(task@.file_range, all_files@.len() as int).1,
            )
        },
{
    let named: bool = match &task.files {
        Some(files) => files.len() > 0,
        None => false,
    };
    if named {
        return Some(select_task_files(task, all_files));
    }
    let len: usize = all_files.len();
    if task.file_range.len() < 2 {
        return None;
    }
    let first: i32 = task.file_range[0];
    let second: i32 = task.file_range[1];
    if first < 0 {
        return None;
    }
    let start: usize = first as usize;
    let fits: bool = if second == -1 {
        start <= len
    } else if second >= 0 && second as usize <= len {
        start <= second as usize
    } else {
        true
    };
    if fits {
        Some(select_task_files(task, all_files))
    } else {
        None
    }
}

/// The number of files of a virtual shard: those at `shard_num`,
/// `shard_num + total_shards`, and so on, below `len`.
pub open spec fn shard_len(len: int, shard_num: int, total_shards: int) -> int {
    if shard_num >= len {
        0
    } else {
        (len - 1 - shard_num) / total_shards + 1
    }
}

/// The files of a virtual shard, in order.
pub open spec fn shard_of(all: Seq<Seq<char>>, shard_num: int, total_shards: int) -> Seq<Seq<char>> {
    Seq::new(
        shard_len(all.len() as int, shard_num, total_shards) as nat,
        |j: int| all[shard_num + j * total_shards],
    )
}

/// Law: for a shard number below the number of shards, a file falls to the
/// shard exactly if its index leaves the shard number when divided by the
/// number of shards.
pub proof fn law_shard_by_remainder(len: int, shard_num: int, total_shards: int, i: int)
    requires
        0 <= shard_num < total_shards,
        0 <= i < len,
    ensures
        i % total_shards == shard_num <==> exists|j: int|
            0 <= j < shard_len(len, shard_num, total_shards) && i == shard_num + #[trigger] (j
                * total_shards),
{
    let count = shard_len(len, shard_num, total_shards);
    if i % total_shards == shard_num {
        let j = i / total_shards;
        assert(i == j * total_shards + shard_num && 0 <= j) by (nonlinear_arith)
            requires
                i % total_shards == shard_num,
                j == i / total_shards,
                0 <= i,
                0 < total_shards,
        ;
        assert(j < count) by (nonlinear_arith)
            requires
                i == j * total_shards + shard_num,
                i < len,
                0 < total_shards,
                count == (len - 1 - shard_num) / total_shards + 1,
                0 <= shard_num,
        ;
        assert(i == shard_num + j * total_shards);
    }
    if exists|j: int| 0 <= j < count && i == shard_num + #[trigger] (j * total_shards) {
        let j = choose|j: int| 0 <= j < count && i == shard_num + #[trigger] (j * total_shards);
        assert(i % total_shards == shard_num) by (nonlinear_arith)
            requires
                i == shard_num + j * total_shards,
                0 <= shard_num < total_shards,
                0 <= j,
        ;
    }
}

/// The files that fall to a virtual shard: every `total_shards`-th file,
/// from the one at `shard_num` on.
pub fn virtual_shard(all_inputs: &Vec<String>, shard_num: usize, total_shards: usize) -> (shard:
    Vec<String>)
    requires
        total_shards >= 1,
    ensures
        string_views(shard@) == shard_of(
            string_views(all_inputs@),
            shard_num as int,
            total_shards as int,
        ),
{
    let len: usize = all_inputs.len();
    let ghost goal = shard_of(string_views(all_inputs@), shard_num as int, total_shards as int);
    let mut shard: Vec<String> = Vec::new();
    if shard_num >= len {
        proof {
            assert(string_views(shard@) =~= goal);
        }
        return shard;
    }
    let mut idx: usize = shard_num;
    let mut done: bool = false;
    while !done
        invariant
            total_shards >= 1,
            len == all_inputs@.len(),
            shard_num < len,
            !done ==> idx < len,
            !done ==> idx == shard_num + shard@.len() * total_shards,
            done ==> shard@.len() == shard_len(len as int, shard_num as int, total_shards as int),
            !done ==> shard@.len() < shard_len(len as int, shard_num as int, total_shards as int),
            forall|j: int|
                0 <= j < shard@.len() ==> (#[trigger] shard@[j])@ == all_inputs@[shard_num + j
                    * total_shards]@,
        decreases len - idx + if done { 0int } else { 1int },
    {
        let ghost count = shard@.len() as int;
        shard.push(all_inputs[idx].clone());
        proof {
            assert((count + 1) * total_shards == count * total_shards + total_shards)
                by (nonlinear_arith);
            lemma_shard_step(len as int, shard_num as int, total_shards as int, count);
            lemma_shard_step(len as int, shard_num as int, total_shards as int, count + 1);
        }
        if total_shards >= len - idx {
            done = true;
        } else {
            idx = idx + total_shards;
        }
    }
    proof {
        assert forall|j: int| 0 <= j < shard@.len() implies string_views(shard@)[j] == goal[j] by {
            lemma_shard_step(len as int, shard_num as int, total_shards as int, j);
            assert(0 <= j * total_shards) by (nonlinear_arith)
                requires
                    0 <= j,
                    1 <= total_shards,
            ;
        }
        assert(string_views(shard@) =~= goal);
    }
    shard
}

/// The shard holds a file at position `count` exactly if the index of that
/// file is below the number of files.
pub proof fn lemma_shard_step(len: int, shard_num: int, total_shards: int, count: int)
    requires
        0 <= shard_num < len,
        1 <= total_shards,
        0 <= count,
    ensures
        shard_num + count * total_shards < len <==> count < shard_len(len, shard_num, total_shards),
{
    let q = (len - 1 - shard_num) / total_shards;
    assert(q * total_shards <= len - 1 - shard_num < (q + 1) * total_shards) by (nonlinear_arith)
        requires
            q == (len - 1 - shard_num) / total_shards,
            0 <= len - 1 - shard_num,
            1 <= total_shards,
    ;
    if count <= q {
        assert(count * total_shards <= q * total_shards) by (nonlinear_arith)
            requires
                0 <= count <= q,
                1 <= total_shards,
        ;
    } else {
        assert(count * total_shards >= (q + 1) * total_shards) by (nonlinear_arith)
            requires
                count >= q + 1,
                1 <= total_shards,
        ;
    }
}

/// `rand::seq::SliceRandom::shuffle` with `rand::thread_rng`: the same
/// files in some order.
#[verifier::external_body]
fn shuffle(files: &mut Vec<String>)
    ensures
        final(files)@.to_multiset() == old(files)@.to_multiset(),
{
    files.shuffle(&mut rand::thread_rng());
}

/// The files of a worker's virtual shard, in random order.
pub fn shuffled_shard(all_inputs: &Vec<String>, shard_num: usize, total_shards: usize) -> (shard:
    Vec<String>)
    requires
        total_shards >= 1,
    ensures
        shard@.len() == shard_len(all_inputs@.len() as int, shard_num as int, total_shards as int),
        exists|ordered: Seq<String>| #[trigger]
            string_views(ordered) == shard_of(
                string_views(all_inputs@),
                shard_num as int,
                total_shards as int,
            ) && ordered.to_multiset() == shard@.to_multiset(),
{
    let mut shard = virtual_shard(all_inputs, shard_num, total_shards);
    let ghost ordered = shard@;
    shuffle(&mut shard);
    proof {
        ordered.to_multiset_ensures();
        shard@.to_multiset_ensures();
        assert(string_views(ordered).len() == ordered.len());
    }
    shard
}

/// What a worker does next.
#[derive(Clone, Copy, Debug, PartialEq, Eq, Structural)]
pub enum WorkerStep {
    /// Process the task it was given.
    Process,
    /// Wait, and ask for a task again.
    Wait,
    /// Stop: there is nothing more to do.
    Stop,
}

/// How a worker reports on a task.
#[derive(Clone, Copy, Debug, PartialEq, Eq, Structural)]
pub enum TaskReport {
    /// The task is complete.
    Finished,
    /// The task has failed and goes back to the queue.
    Failed,
}

/// The seconds a worker waits before it asks for a task again.
pub const WAIT_FOR_TASKS_SECONDS: u64 = 10;

/// The seconds a worker pauses between two tasks.
pub const PAUSE_BETWEEN_TASKS_SECONDS: u64 = 1;

/// What a worker does after it asked for a task: it processes the task
/// it got; without one it waits as long as tasks are unfinished and it has
/// not processed any itself, and stops otherwise.
pub fn next_step(has_task: bool, all_finished: bool, processed_any: bool) -> (step: WorkerStep)
    ensures
        step == if has_task {
            WorkerStep::Process
        } else if !all_finished && !processed_any {
            WorkerStep::Wait
        } else {
            WorkerStep::Stop
        },
{
    if has_task {
        WorkerStep::Process
    } else if !all_finished && !processed_any {
        WorkerStep::Wait
    } else {
        WorkerStep::Stop
    }
}

/// How a worker reports on a task that succeeded or failed.
pub fn report_for(succeeded: bool) -> (report: TaskReport)
    ensures
        report == if succeeded {
            TaskReport::Finished
        } else {
            TaskReport::Failed
        },
{
    if succeeded {
        TaskReport::Finished
    } else {
        TaskReport::Failed
    }
}

/// The number of n-grams to expect for a task: its own where it has one,
/// the configured one otherwise.
pub fn expected_ngram_count_for(task: &TaskItem, configured: usize) -> (n: usize)
    ensures
        n == match task.expected_ngram_count {
            Some(own) => own,
            None => configured,
        },
{
    match task.expected_ngram_count {
        Some(own) => own,
        None => configured,
    }
}

/// The number of threads of the pool: the number asked for, or what the
/// machine offers where none is asked for.
pub fn pool_size(threads: usize, available: usize) -> (n: usize)
    ensures
        n == if threads == 0 {
            available
        } else {
            threads
        },
{
    if threads == 0 {
        available
    } else {
        threads
    }
}

} // verus!
