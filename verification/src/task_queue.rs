//! Tasks and the queue that hands them to workers: three ordered lists
//! (pending, in flight, finished) and a lease per task in flight.

use vstd::multiset::Multiset;
use vstd::prelude::*;
use vstd::seq_lib::{lemma_multiset_commutative, to_multiset_build, to_multiset_remove};
use vstd::string::StringExecFns;

use crate::text::{str_eq, string_views};

verus! {

/// The lease record of a task: who holds it, in which state, since when.
#[derive(Clone, Debug)]
pub struct TaskWorker {
    pub key: Option<String>,
    pub status: Option<String>,
    pub process_time: Option<String>,
    pub finish_time: Option<String>,
}

/// A unit of work: a shard directory and the range of its files to process.
#[derive(Clone, Debug)]
pub struct TaskItem {
    /// The stable identifier of the task.
    pub id: String,
    /// The directory that holds the shard.
    pub shard_dir: String,
    /// `[start, end]` among the files of the directory; an `end` of `-1`
    /// leaves the range open.
    pub file_range: Vec<i32>,
    /// The lease record, once a worker has taken the task.
    pub worker: Option<TaskWorker>,
    pub is_temp: Option<bool>,
    /// The files to process, where the task names them itself.
    pub files: Option<Vec<String>>,
    pub original_shard_dir: Option<String>,
    /// The number of n-grams to expect, where it differs from the configured one.
    pub expected_ngram_count: Option<usize>,
}

/// What a lease record holds.
pub struct WorkerView {
    pub key: Option<Seq<char>>,
    pub status: Option<Seq<char>>,
    pub process_time: Option<Seq<char>>,
    pub finish_time: Option<Seq<char>>,
}

/// What a task holds.
pub struct TaskView {
    pub id: Seq<char>,
    pub shard_dir: Seq<char>,
    pub file_range: Seq<i32>,
    pub worker: Option<WorkerView>,
    pub is_temp: Option<bool>,
    pub files: Option<Seq<Seq<char>>>,
    pub original_shard_dir: Option<Seq<char>>,
    pub expected_ngram_count: Option<usize>,
}

/// The characters of a string that may be absent.
pub open spec fn text_of(s: Option<String>) -> Option<Seq<char>> {
    match s {
        Some(t) => Some(t@),
        None => None,
    }
}

impl View for TaskWorker {
    type V = WorkerView;

    open spec fn view(&self) -> WorkerView {
        WorkerView {
            key: text_of(self.key),
            status: text_of(self.status),
            process_time: text_of(self.process_time),
            finish_time: text_of(self.finish_time),
        }
    }
}

impl View for TaskItem {
    type V = TaskView;

    open spec fn view(&self) -> TaskView {
        TaskView {
            id: self.id@,
            shard_dir: self.shard_dir@,
            file_range: self.file_range@,
            worker: match self.worker {
                Some(w) => Some(w@),
                None => None,
            },
            is_temp: self.is_temp,
            files: match self.files {
                Some(f) => Some(string_views(f@)),
                None => None,
            },
            original_shard_dir: text_of(self.original_shard_dir),
            expected_ngram_count: self.expected_ngram_count,
        }
    }
}

/// What a list of tasks holds.
pub open spec fn task_views(tasks: Seq<TaskItem>) -> Seq<TaskView> {
    tasks.map_values(|t: TaskItem| t@)
}

/// A copy of a string that may be absent.
pub fn copy_text(s: &Option<String>) -> (r: Option<String>)
    ensures
        text_of(r) == text_of(*s),
{
    match s {
        Some(t) => Some(t.clone()),
        None => None,
    }
}

/// A copy of a list of strings.
pub fn copy_strings(items: &Vec<String>) -> (r: Vec<String>)
    ensures
        string_views(r@) == string_views(items@),
{
    let mut out: Vec<String> = Vec::new();
    let mut i: usize = 0;
    while i < items.len()
        invariant
            i <= items@.len(),
            out@.len() == i,
            forall|j: int| 0 <= j < i ==> (#[trigger] out@[j])@ == items@[j]@,
        decreases items@.len() - i,
    {
        out.push(items[i].clone());
        i += 1;
    }
    proof {
        assert(string_views(out@) =~= string_views(items@));
    }
    out
}

/// A copy of a list of numbers.
pub fn copy_range(items: &Vec<i32>) -> (r: Vec<i32>)
    ensures
        r@ == items@,
{
    let mut out: Vec<i32> = Vec::new();
    let mut i: usize = 0;
    while i < items.len()
        invariant
            i <= items@.len(),
            out@ == items@.take(i as int),
        decreases items@.len() - i,
    {
        out.push(items[i]);
        proof {
            assert(out@ =~= items@.take(i + 1));
        }
        i += 1;
    }
    proof {
        assert(items@.take(items@.len() as int) =~= items@);
    }
    out
}

impl TaskWorker {
    /// A copy of the lease record.
    pub fn duplicate(&self) -> (r: TaskWorker)
        ensures
            r@ == self@,
    {
        TaskWorker {
            key: copy_text(&self.key),
            status: copy_text(&self.status),
            process_time: copy_text(&self.process_time),
            finish_time: copy_text(&self.finish_time),
        }
    }
}

impl TaskItem {
    /// The identifier of the task.
    pub fn get_id(&self) -> (id: &str)
        ensures
            id@ == self.id@,
    {
        self.id.as_str()
    }

    /// A copy of the task.
    pub fn duplicate(&self) -> (r: TaskItem)
        ensures
            r@ == self@,
    {
        TaskItem {
            id: self.id.clone(),
            shard_dir: self.shard_dir.clone(),
            file_range: copy_range(&self.file_range),
            worker: match &self.worker {
                Some(w) => Some(w.duplicate()),
                None => None,
            },
            is_temp: self.is_temp,
            files: match &self.files {
                Some(f) => Some(copy_strings(f)),
                None => None,
            },
            original_shard_dir: copy_text(&self.original_shard_dir),
            expected_ngram_count: self.expected_ngram_count,
        }
    }
}

/// A task in flight and the key of the worker that holds its lease. The
/// lease is gone once its time has run out.
#[derive(Debug)]
pub struct InFlight {
    pub task: TaskItem,
    pub lease: Option<String>,
}

/// What an entry in flight holds.
pub struct FlightView {
    pub task: TaskView,
    pub lease: Option<Seq<char>>,
}

impl View for InFlight {
    type V = FlightView;

    open spec fn view(&self) -> FlightView {
        FlightView { task: self.task@, lease: text_of(self.lease) }
    }
}

/// What the entries in flight hold.
pub open spec fn flight_views(entries: Seq<InFlight>) -> Seq<FlightView> {
    entries.map_values(|e: InFlight| e@)
}

/// Whether the files of a task are named: the list is there and not empty.
pub open spec fn names_files(task: TaskView) -> bool {
    task.files matches Some(f) && f.len() > 0
}

/// Whether `entry` is the work that `task` describes: the same directory
/// and range, and the same files where `task` names any.
pub open spec fn same_work(entry: TaskView, task: TaskView) -> bool {
    &&& entry.shard_dir == task.shard_dir
    &&& entry.file_range == task.file_range
    &&& names_files(task) ==> entry.files == task.files
}

/// Whether `entry` is the task `task`: by identifier where `task` has one,
/// by the work it describes otherwise.
pub open spec fn same_task(entry: TaskView, task: TaskView) -> bool {
    if task.id.len() > 0 {
        entry.id == task.id
    } else {
        same_work(entry, task)
    }
}

/// The index of the first of the first `upto` entries in flight that is
/// `task`, or `-1`.
pub open spec fn first_match(entries: Seq<FlightView>, task: TaskView, upto: int) -> int
    decreases upto,
{
    if upto <= 0 {
        -1
    } else {
        let before = first_match(entries, task, upto - 1);
        if before >= 0 {
            before
        } else if same_task(entries[upto - 1].task, task) {
            upto - 1
        } else {
            -1
        }
    }
}

/// The entries whose lease is still there, in order.
pub open spec fn leased(entries: Seq<FlightView>) -> Seq<FlightView>
    decreases entries.len(),
{
    if entries.len() == 0 {
        Seq::empty()
    } else {
        let rest = leased(entries.drop_last());
        if entries.last().lease is Some {
            rest.push(entries.last())
        } else {
            rest
        }
    }
}

/// The tasks whose lease is gone, in order.
pub open spec fn lapsed(entries: Seq<FlightView>) -> Seq<TaskView>
    decreases entries.len(),
{
    if entries.len() == 0 {
        Seq::empty()
    } else {
        let rest = lapsed(entries.drop_last());
        if entries.last().lease is None {
            rest.push(entries.last().task)
        } else {
            rest
        }
    }
}

/// The state of a queue: the tasks that wait, the tasks that workers hold,
/// the tasks that are done, and the names under which the queue keeps
/// them. No operation changes the names.
pub struct QueueView {
    pub pending: Seq<TaskView>,
    pub in_flight: Seq<FlightView>,
    pub finished: Seq<TaskView>,
    /// The name of the list of waiting tasks.
    pub pending_name: Seq<char>,
    /// The name of the list of tasks in flight.
    pub processing_name: Seq<char>,
    /// The name of the list of finished tasks.
    pub finished_name: Seq<char>,
    /// What stands before a task's identifier in the key of its lease.
    pub lease_prefix: Seq<char>,
}

impl QueueView {
    /// The identifiers of the tasks that wait.
    pub open spec fn pending_ids(self) -> Seq<Seq<char>> {
        self.pending.map_values(|t: TaskView| t.id)
    }

    /// The identifiers of the tasks in flight.
    pub open spec fn flight_ids(self) -> Seq<Seq<char>> {
        self.in_flight.map_values(|e: FlightView| e.task.id)
    }

    /// The identifiers of the tasks that are done.
    pub open spec fn finished_ids(self) -> Seq<Seq<char>> {
        self.finished.map_values(|t: TaskView| t.id)
    }

    /// Whether some task of the queue has the identifier.
    pub open spec fn knows(self, id: Seq<char>) -> bool {
        self.pending_ids().contains(id) || self.flight_ids().contains(id)
            || self.finished_ids().contains(id)
    }

    /// Every identifier occurs once in the whole queue: no task waits and is
    /// in flight at once, and no finished task waits or is in flight.
    pub open spec fn wf(self) -> bool {
        (self.pending_ids() + self.flight_ids() + self.finished_ids()).no_duplicates()
    }

    /// Every task in flight has its lease.
    pub open spec fn fully_leased(self) -> bool {
        forall|i: int| 0 <= i < self.in_flight.len() ==> (#[trigger] self.in_flight[i]).lease is Some
    }

    /// A task is appended to the tasks that wait.
    pub open spec fn put(self, task: TaskView) -> QueueView {
        QueueView { pending: self.pending.push(task), ..self }
    }

    /// A task is placed before the tasks that wait.
    pub open spec fn put_first(self, task: TaskView) -> QueueView {
        QueueView { pending: seq![task] + self.pending, ..self }
    }

    /// The first task that waits goes behind the tasks in flight, with a
    /// lease for the worker. Nothing happens where no task waits.
    pub open spec fn acquire(self, worker: Seq<char>) -> QueueView {
        if self.pending.len() == 0 {
            self
        } else {
            QueueView {
                pending: self.pending.skip(1),
                in_flight: self.in_flight.push(
                    FlightView { task: self.pending[0], lease: Some(worker) },
                ),
                ..self
            }
        }
    }

    /// The first entry in flight that is `task` goes, lease and all, and its
    /// task is appended to the finished ones. Nothing happens where no entry
    /// is `task`.
    pub open spec fn complete(self, task: TaskView) -> QueueView {
        let at = first_match(self.in_flight, task, self.in_flight.len() as int);
        if at < 0 {
            self
        } else {
            QueueView {
                in_flight: self.in_flight.remove(at),
                finished: self.finished.push(self.in_flight[at].task),
                ..self
            }
        }
    }

    /// The first entry in flight that is `task` goes, lease and all, and its
    /// task is appended to the tasks that wait. Nothing happens where no
    /// entry is `task`.
    pub open spec fn requeue(self, task: TaskView) -> QueueView {
        let at = first_match(self.in_flight, task, self.in_flight.len() as int);
        if at < 0 {
            self
        } else {
            QueueView {
                pending: self.pending.push(self.in_flight[at].task),
                in_flight: self.in_flight.remove(at),
                ..self
            }
        }
    }

    /// The lease of every entry in flight with the identifier runs out.
    pub open spec fn expire(self, id: Seq<char>) -> QueueView {
        QueueView {
            in_flight: self.in_flight.map_values(
                |e: FlightView|
                    if e.task.id == id {
                        FlightView { lease: None, ..e }
                    } else {
                        e
                    },
            ),
            ..self
        }
    }

    /// Every task in flight whose lease is gone is appended to the tasks
    /// that wait.
    pub open spec fn sweep(self) -> QueueView {
        QueueView {
            pending: self.pending + lapsed(self.in_flight),
            in_flight: leased(self.in_flight),
            ..self
        }
    }

    /// Every task in flight is appended to the tasks that wait.
    pub open spec fn requeue_all(self) -> QueueView {
        QueueView {
            pending: self.pending + self.in_flight.map_values(|e: FlightView| e.task),
            in_flight: Seq::empty(),
            ..self
        }
    }
}

/// No identifier occurs in an empty list.
pub proof fn lemma_empty_bag()
    ensures
        Seq::<Seq<char>>::empty().to_multiset() == Multiset::<Seq<char>>::empty(),
{
    broadcast use vstd::multiset::group_multiset_axioms;

    let e = Seq::<Seq<char>>::empty();
    assert forall|x: Seq<char>| e.to_multiset().count(x) == 0 by {
        vstd::seq_lib::to_multiset_contains(e, x);
    }
    assert(e.to_multiset() =~= Multiset::<Seq<char>>::empty());
}

impl QueueView {
    /// The identifiers of all tasks of the queue.
    pub open spec fn all_ids(self) -> Seq<Seq<char>> {
        self.pending_ids() + self.flight_ids() + self.finished_ids()
    }

    /// The identifiers of all tasks of the queue, each as often as it
    /// occurs.
    pub open spec fn bag(self) -> Multiset<Seq<char>> {
        self.pending_ids().to_multiset().add(self.flight_ids().to_multiset()).add(
            self.finished_ids().to_multiset(),
        )
    }

    /// The bag of the queue is the bag of its identifiers.
    pub proof fn lemma_bag(self)
        ensures
            self.all_ids().to_multiset() == self.bag(),
    {
        lemma_multiset_commutative(self.pending_ids(), self.flight_ids());
        lemma_multiset_commutative(self.pending_ids() + self.flight_ids(), self.finished_ids());
    }

    /// A queue that holds the same identifiers as often as a well-formed
    /// one is well-formed.
    pub proof fn lemma_same_bag(self, other: QueueView)
        requires
            self.wf(),
            self.bag() == other.bag(),
        ensures
            other.wf(),
    {
        self.lemma_bag();
        other.lemma_bag();
        self.all_ids().lemma_multiset_has_no_duplicates();
        other.all_ids().lemma_multiset_has_no_duplicates_conv();
    }

    /// Law: in a well-formed queue no task waits and is in flight at once,
    /// and no finished task waits or is in flight.
    pub proof fn law_lists_apart(self)
        requires
            self.wf(),
        ensures
            forall|i: int, j: int|
                0 <= i < self.pending.len() && 0 <= j < self.in_flight.len() ==> (
                #[trigger] self.pending[i]).id != (#[trigger] self.in_flight[j]).task.id,
            forall|i: int, j: int|
                0 <= i < self.finished.len() && 0 <= j < self.pending.len() ==> (
                #[trigger] self.finished[i]).id != (#[trigger] self.pending[j]).id,
            forall|i: int, j: int|
                0 <= i < self.finished.len() && 0 <= j < self.in_flight.len() ==> (
                #[trigger] self.finished[i]).id != (#[trigger] self.in_flight[j]).task.id,
    {
        let all = self.all_ids();
        let p = self.pending.len() as int;
        let f = self.in_flight.len() as int;
        assert forall|i: int, j: int|
            0 <= i < self.pending.len() && 0 <= j < self.in_flight.len() implies (
        #[trigger] self.pending[i]).id != (#[trigger] self.in_flight[j]).task.id by {
            assert(all[i] == self.pending[i].id);
            assert(all[p + j] == self.in_flight[j].task.id);
        }
        assert forall|i: int, j: int|
            0 <= i < self.finished.len() && 0 <= j < self.pending.len() implies (
        #[trigger] self.finished[i]).id != (#[trigger] self.pending[j]).id by {
            assert(all[p + f + i] == self.finished[i].id);
            assert(all[j] == self.pending[j].id);
        }
        assert forall|i: int, j: int|
            0 <= i < self.finished.len() && 0 <= j < self.in_flight.len() implies (
        #[trigger] self.finished[i]).id != (#[trigger] self.in_flight[j]).task.id by {
            assert(all[p + f + i] == self.finished[i].id);
            assert(all[p + j] == self.in_flight[j].task.id);
        }
    }

    /// Law: a task with a new identifier keeps the queue well-formed.
    pub proof fn law_put_keeps_invariants(self, task: TaskView)
        requires
            self.wf(),
            !self.knows(task.id),
        ensures
            self.put(task).wf(),
            self.put_first(task).wf(),
            self.fully_leased() ==> self.put(task).fully_leased(),
    {
        broadcast use vstd::multiset::group_multiset_axioms;
        broadcast use vstd::seq_lib::to_multiset_contains;

        let ids = self.pending_ids();
        assert(self.put(task).pending_ids() =~= ids.push(task.id));
        assert(self.put_first(task).pending_ids() =~= seq![task.id] + ids);
        to_multiset_build(ids, task.id);
        lemma_multiset_commutative(seq![task.id], ids);
        to_multiset_build(Seq::<Seq<char>>::empty(), task.id);
        assert(Seq::<Seq<char>>::empty().push(task.id) =~= seq![task.id]);
        let grown = self.bag().insert(task.id);
        assert(self.put(task).bag() =~= grown);
        assert(self.put_first(task).bag() =~= grown);
        self.lemma_bag();
        self.all_ids().lemma_multiset_has_no_duplicates();
        assert(!self.bag().contains(task.id)) by {
            assert(!self.pending_ids().to_multiset().contains(task.id));
            assert(!self.flight_ids().to_multiset().contains(task.id));
            assert(!self.finished_ids().to_multiset().contains(task.id));
        }
        self.put(task).lemma_bag();
        self.put(task).all_ids().lemma_multiset_has_no_duplicates_conv();
        self.put_first(task).lemma_bag();
        self.put_first(task).all_ids().lemma_multiset_has_no_duplicates_conv();
    }

    /// Law: handing out a task keeps the queue well-formed and every task in
    /// flight leased, and takes nothing from the finished tasks.
    pub proof fn law_acquire_keeps_invariants(self, worker: Seq<char>)
        requires
            self.wf(),
        ensures
            self.acquire(worker).wf(),
            self.fully_leased() ==> self.acquire(worker).fully_leased(),
            self.acquire(worker).finished == self.finished,
    {
        broadcast use vstd::multiset::group_multiset_axioms;

        let next = self.acquire(worker);
        if self.pending.len() > 0 {
            let ids = self.pending_ids();
            assert(next.pending_ids() =~= ids.remove(0));
            assert(next.flight_ids() =~= self.flight_ids().push(ids[0]));
            to_multiset_remove(ids, 0);
            to_multiset_build(self.flight_ids(), ids[0]);
            assert(ids.to_multiset().count(ids[0]) > 0) by {
                broadcast use vstd::seq_lib::to_multiset_contains;

                assert(ids.contains(ids[0]));
            }
            assert(next.bag() =~= self.bag());
            self.lemma_same_bag(next);
        }
    }

    /// The first match is an entry in flight that is the task, or `-1`.
    pub proof fn lemma_first_match(entries: Seq<FlightView>, task: TaskView, upto: int)
        requires
            0 <= upto <= entries.len(),
        ensures
            -1 <= first_match(entries, task, upto) < upto,
            first_match(entries, task, upto) >= 0 ==> same_task(
                entries[first_match(entries, task, upto)].task,
                task,
            ),
            first_match(entries, task, upto) < 0 ==> forall|i: int|
                0 <= i < upto ==> !same_task((#[trigger] entries[i]).task, task),
        decreases upto,
    {
        if upto > 0 {
            Self::lemma_first_match(entries, task, upto - 1);
        }
    }

    /// Law: completing or requeueing a task keeps the queue well-formed and
    /// every task in flight leased; the finished tasks only grow.
    pub proof fn law_settle_keeps_invariants(self, task: TaskView)
        requires
            self.wf(),
        ensures
            self.complete(task).wf(),
            self.requeue(task).wf(),
            self.fully_leased() ==> self.complete(task).fully_leased() && self.requeue(
                task,
            ).fully_leased(),
            self.finished.is_prefix_of(self.complete(task).finished),
            self.requeue(task).finished == self.finished,
    {
        broadcast use vstd::multiset::group_multiset_axioms;

        let at = first_match(self.in_flight, task, self.in_flight.len() as int);
        Self::lemma_first_match(self.in_flight, task, self.in_flight.len() as int);
        if at >= 0 {
            let ids = self.flight_ids();
            let done = self.complete(task);
            let again = self.requeue(task);
            assert(done.flight_ids() =~= ids.remove(at));
            assert(again.flight_ids() =~= ids.remove(at));
            assert(done.finished_ids() =~= self.finished_ids().push(ids[at]));
            assert(again.pending_ids() =~= self.pending_ids().push(ids[at]));
            to_multiset_remove(ids, at);
            to_multiset_build(self.finished_ids(), ids[at]);
            to_multiset_build(self.pending_ids(), ids[at]);
            assert(ids.to_multiset().count(ids[at]) > 0) by {
                broadcast use vstd::seq_lib::to_multiset_contains;

                assert(ids.contains(ids[at]));
            }
            assert(done.bag() =~= self.bag());
            assert(again.bag() =~= self.bag());
            self.lemma_same_bag(done);
            self.lemma_same_bag(again);
            if self.fully_leased() {
                assert forall|i: int| 0 <= i < done.in_flight.len() implies (
                #[trigger] done.in_flight[i]).lease is Some by {
                    if i < at {
                        assert(done.in_flight[i] == self.in_flight[i]);
                    } else {
                        assert(done.in_flight[i] == self.in_flight[i + 1]);
                    }
                }
            }
        }
    }

    /// A lease that runs out leaves every task where it is.
    pub proof fn law_expire_keeps_invariants(self, id: Seq<char>)
        requires
            self.wf(),
        ensures
            self.expire(id).wf(),
            self.expire(id).finished == self.finished,
            self.expire(id).pending == self.pending,
    {
        assert(self.expire(id).flight_ids() =~= self.flight_ids());
    }

    /// The tasks whose lease is gone and the entries whose lease is there
    /// are, together, the entries in flight.
    pub proof fn lemma_sweep_bag(entries: Seq<FlightView>)
        ensures
            lapsed(entries).map_values(|t: TaskView| t.id).to_multiset().add(
                leased(entries).map_values(|e: FlightView| e.task.id).to_multiset(),
            ) == entries.map_values(|e: FlightView| e.task.id).to_multiset(),
            forall|i: int|
                0 <= i < leased(entries).len() ==> (#[trigger] leased(entries)[i]).lease is Some,
        decreases entries.len(),
    {
        broadcast use vstd::multiset::group_multiset_axioms;

        let ids = entries.map_values(|e: FlightView| e.task.id);
        let gone = lapsed(entries).map_values(|t: TaskView| t.id);
        let held = leased(entries).map_values(|e: FlightView| e.task.id);
        if entries.len() == 0 {
            assert(ids =~= Seq::empty());
            assert(gone =~= Seq::empty());
            assert(held =~= Seq::empty());
            lemma_empty_bag();
            assert(gone.to_multiset().add(held.to_multiset()) =~= ids.to_multiset());
        } else {
            let front = entries.drop_last();
            let last = entries.last();
            Self::lemma_sweep_bag(front);
            let front_ids = front.map_values(|e: FlightView| e.task.id);
            let front_gone = lapsed(front).map_values(|t: TaskView| t.id);
            let front_held = leased(front).map_values(|e: FlightView| e.task.id);
            assert(ids =~= front_ids.push(last.task.id));
            to_multiset_build(front_ids, last.task.id);
            if last.lease is Some {
                assert(held =~= front_held.push(last.task.id));
                assert(gone =~= front_gone);
                to_multiset_build(front_held, last.task.id);
            } else {
                assert(gone =~= front_gone.push(last.task.id));
                assert(held =~= front_held);
                to_multiset_build(front_gone, last.task.id);
            }
            assert(gone.to_multiset().add(held.to_multiset()) =~= ids.to_multiset());
            assert forall|i: int| 0 <= i < leased(entries).len() implies (#[trigger] leased(
                entries,
            )[i]).lease is Some by {
                if i < leased(front).len() {
                    assert(leased(entries)[i] == leased(front)[i]);
                }
            }
        }
    }

    /// Law: a sweep keeps the queue well-formed, leaves every task in flight
    /// with its lease, and takes nothing from the finished tasks. So does
    /// the return of all tasks in flight.
    pub proof fn law_sweep_keeps_invariants(self)
        requires
            self.wf(),
        ensures
            self.sweep().wf(),
            self.sweep().fully_leased(),
            self.sweep().finished == self.finished,
            self.requeue_all().wf(),
            self.requeue_all().fully_leased(),
            self.requeue_all().finished == self.finished,
    {
        broadcast use vstd::multiset::group_multiset_axioms;

        Self::lemma_sweep_bag(self.in_flight);
        let swept = self.sweep();
        let gone = lapsed(self.in_flight).map_values(|t: TaskView| t.id);
        assert(swept.pending_ids() =~= self.pending_ids() + gone);
        lemma_multiset_commutative(self.pending_ids(), gone);
        assert(swept.bag() =~= self.bag());
        self.lemma_same_bag(swept);
        let all = self.requeue_all();
        assert(all.pending_ids() =~= self.pending_ids() + self.flight_ids());
        lemma_multiset_commutative(self.pending_ids(), self.flight_ids());
        assert(all.flight_ids() =~= Seq::empty());
        lemma_empty_bag();
        assert(all.bag() =~= self.bag());
        self.lemma_same_bag(all);
    }
}

/// Whether two lists of strings hold the same strings.
pub fn strings_equal(a: &Vec<String>, b: &Vec<String>) -> (same: bool)
    ensures
        same == (string_views(a@) == string_views(b@)),
{
    if a.len() != b.len() {
        proof {
            assert(string_views(a@).len() != string_views(b@).len());
        }
        return false;
    }
    let mut i: usize = 0;
    while i < a.len()
        invariant
            i <= a@.len(),
            a@.len() == b@.len(),
            forall|j: int| 0 <= j < i ==> (#[trigger] a@[j])@ == b@[j]@,
        decreases a@.len() - i,
    {
        if !str_eq(a[i].as_str(), b[i].as_str()) {
            proof {
                assert(string_views(a@)[i as int] != string_views(b@)[i as int]);
            }
            return false;
        }
        i += 1;
    }
    proof {
        assert(string_views(a@) =~= string_views(b@));
    }
    true
}

/// Whether two lists of numbers hold the same numbers.
pub fn ranges_equal(a: &Vec<i32>, b: &Vec<i32>) -> (same: bool)
    ensures
        same == (a@ == b@),
{
    if a.len() != b.len() {
        return false;
    }
    let mut i: usize = 0;
    while i < a.len()
        invariant
            i <= a@.len(),
            a@.len() == b@.len(),
            forall|j: int| 0 <= j < i ==> a@[j] == b@[j],
        decreases a@.len() - i,
    {
        if a[i] != b[i] {
            return false;
        }
        i += 1;
    }
    proof {
        assert(a@ =~= b@);
    }
    true
}

/// Whether `entry` is the work that `task` describes.
pub fn is_same_work(entry: &TaskItem, task: &TaskItem) -> (same: bool)
    ensures
        same == same_work(entry@, task@),
{
    if !str_eq(entry.shard_dir.as_str(), task.shard_dir.as_str()) {
        return false;
    }
    if !ranges_equal(&entry.file_range, &task.file_range) {
        return false;
    }
    match &task.files {
        Some(wanted) => {
            if wanted.len() == 0 {
                true
            } else {
                match &entry.files {
                    Some(found) => strings_equal(found, wanted),
                    None => false,
                }
            }
        },
        None => true,
    }
}

/// Whether `entry` is the task `task`.
pub fn is_same_task(entry: &TaskItem, task: &TaskItem) -> (same: bool)
    ensures
        same == same_task(entry@, task@),
{
    if !task.id.as_str().is_empty() {
        str_eq(entry.id.as_str(), task.id.as_str())
    } else {
        is_same_work(entry, task)
    }
}

/// The index of the first of the entries in flight that is `task`: by
/// identifier where `task` has one, by the work it describes otherwise.
/// This is the entry that completing the task, or giving it back, takes
/// out of the entries in flight.
pub fn find_entry(entries: &Vec<InFlight>, task: &TaskItem) -> (at: Option<usize>)
    ensures
        match at {
            Some(i) => i == first_match(flight_views(entries@), task@, entries@.len() as int),
            None => first_match(flight_views(entries@), task@, entries@.len() as int) < 0,
        },
        at matches Some(i) ==> i < entries@.len(),
{
    let ghost views = flight_views(entries@);
    let mut i: usize = 0;
    while i < entries.len()
        invariant
            i <= entries@.len(),
            views == flight_views(entries@),
            first_match(views, task@, i as int) < 0,
        decreases entries@.len() - i,
    {
        proof {
            assert(views[i as int].task == entries@[i as int].task@);
        }
        if is_same_task(&entries[i].task, task) {
            proof {
                QueueView::lemma_first_match_stays(views, task@, i + 1, views.len() as int);
            }
            return Some(i);
        }
        i += 1;
    }
    None
}

/// The tasks at the given places among the entries in flight.
pub open spec fn tasks_at(entries: Seq<FlightView>, places: Seq<usize>) -> Seq<TaskView> {
    Seq::new(places.len(), |k: int| entries[places[k] as int].task)
}

/// The places of the entries in flight whose lease is gone, in order:
/// the entries that a sweep gives back to the waiting tasks.
pub fn lapsed_entries(entries: &Vec<InFlight>) -> (places: Vec<usize>)
    ensures
        tasks_at(flight_views(entries@), places@) == lapsed(flight_views(entries@)),
        forall|k: int|
            0 <= k < places@.len() ==> (#[trigger] places@[k]) < entries@.len()
                && entries@[places@[k] as int].lease is None,
        forall|j: int, k: int| 0 <= j < k < places@.len() ==> places@[j] < places@[k],
        forall|i: int|
            0 <= i < entries@.len() && entries@[i].lease is None ==> places@.contains(i as usize),
{
    let ghost views = flight_views(entries@);
    let mut places: Vec<usize> = Vec::new();
    let mut i: usize = 0;
    while i < entries.len()
        invariant
            i <= entries@.len(),
            views == flight_views(entries@),
            tasks_at(views, places@) == lapsed(views.take(i as int)),
            forall|k: int|
                0 <= k < places@.len() ==> (#[trigger] places@[k]) < i
                    && entries@[places@[k] as int].lease is None,
            forall|j: int, k: int| 0 <= j < k < places@.len() ==> places@[j] < places@[k],
            forall|j: int|
                0 <= j < i && entries@[j].lease is None ==> places@.contains(j as usize),
        decreases entries@.len() - i,
    {
        proof {
            assert(views.take(i + 1).drop_last() =~= views.take(i as int));
            assert(views[i as int].lease == text_of(entries@[i as int].lease));
        }
        if entries[i].lease.is_none() {
            let ghost before = places@;
            places.push(i);
            proof {
                assert(tasks_at(views, places@) =~= tasks_at(views, before).push(
                    views[i as int].task,
                ));
                assert forall|j: int|
                    0 <= j < i + 1 && entries@[j].lease is None implies places@.contains(
                    j as usize,
                ) by {
                    if j < i {
                        let k = choose|k: int| 0 <= k < before.len() && before[k] == j as usize;
                        assert(places@[k] == j as usize);
                    } else {
                        assert(places@[before.len() as int] == i);
                    }
                }
            }
        }
        i += 1;
    }
    proof {
        assert(views.take(views.len() as int) =~= views);
    }
    places
}

/// A queue of tasks for many workers. Tasks wait in the order they were
/// put; a worker takes the first one and holds it under a lease until it
/// completes it or gives it back; a task whose lease has run out goes back
/// to the end of the waiting tasks with the next sweep.
#[derive(Debug)]
pub struct TaskQueue {
    queue_name: String,
    processing_queue: String,
    finished_queue: String,
    processing_prefix: String,
    pending: Vec<TaskItem>,
    in_flight: Vec<InFlight>,
    finished: Vec<TaskItem>,
}

impl View for TaskQueue {
    type V = QueueView;

    closed spec fn view(&self) -> QueueView {
        QueueView {
            pending: task_views(self.pending@),
            in_flight: flight_views(self.in_flight@),
            finished: task_views(self.finished@),
            pending_name: self.queue_name@,
            processing_name: self.processing_queue@,
            finished_name: self.finished_queue@,
            lease_prefix: self.processing_prefix@,
        }
    }
}

impl TaskQueue {
    /// The name of the list of waiting tasks.
    pub open spec fn pending_name(&self) -> Seq<char> {
        self@.pending_name
    }

    /// The name of the list of tasks in flight.
    pub open spec fn processing_name(&self) -> Seq<char> {
        self@.processing_name
    }

    /// The name of the list of finished tasks.
    pub open spec fn finished_name(&self) -> Seq<char> {
        self@.finished_name
    }

    /// What stands before a task's identifier in the key of its lease.
    pub open spec fn lease_prefix(&self) -> Seq<char> {
        self@.lease_prefix
    }

    /// An empty queue whose lists and leases are named after `queue_id`.
    pub fn new(queue_id: &str) -> (queue: TaskQueue)
        ensures
            queue@ == (QueueView {
                pending: Seq::empty(),
                in_flight: Seq::empty(),
                finished: Seq::empty(),
                pending_name: queue_id@ + "_task_queue"@,
                processing_name: queue_id@ + "_processing_queue"@,
                finished_name: queue_id@ + "_finished_queue"@,
                lease_prefix: queue_id@ + "_processing:"@,
            }),
    {
        let mut queue_name = String::from_str(queue_id);
        queue_name.append("_task_queue");
        let mut processing_queue = String::from_str(queue_id);
        processing_queue.append("_processing_queue");
        let mut finished_queue = String::from_str(queue_id);
        finished_queue.append("_finished_queue");
        let mut processing_prefix = String::from_str(queue_id);
        processing_prefix.append("_processing:");
        let queue = TaskQueue {
            queue_name,
            processing_queue,
            finished_queue,
            processing_prefix,
            pending: Vec::new(),
            in_flight: Vec::new(),
            finished: Vec::new(),
        };
        proof {
            assert(queue@.pending =~= Seq::empty());
            assert(queue@.in_flight =~= Seq::empty());
            assert(queue@.finished =~= Seq::empty());
        }
        queue
    }

    /// The name of the list of waiting tasks.
    pub fn pending_queue(&self) -> (name: &str)
        ensures
            name@ == self.pending_name(),
    {
        self.queue_name.as_str()
    }

    /// The name of the list of tasks in flight.
    pub fn processing_queue(&self) -> (name: &str)
        ensures
            name@ == self.processing_name(),
    {
        self.processing_queue.as_str()
    }

    /// The name of the list of finished tasks.
    pub fn finished_queue(&self) -> (name: &str)
        ensures
            name@ == self.finished_name(),
    {
        self.finished_queue.as_str()
    }

    /// The key under which the lease of a task is kept.
    pub fn get_processing_task_key(&self, task_id: &str) -> (key: String)
        ensures
            key@ == self.lease_prefix() + task_id@,
    {
        let mut key = self.processing_prefix.clone();
        key.append(task_id);
        key
    }

    /// Appends a task to the waiting tasks.
    pub fn put_task(&mut self, task: &TaskItem)
        ensures
            final(self)@ == old(self)@.put(task@),
            old(self)@.wf() && !old(self)@.knows(task@.id) ==> final(self)@.wf(),
    {
        self.pending.push(task.duplicate());
        proof {
            assert(self@.pending =~= old(self)@.pending.push(task@));
            if old(self)@.wf() && !old(self)@.knows(task@.id) {
                old(self)@.law_put_keeps_invariants(task@);
            }
        }
    }

    /// Places a task before the waiting tasks, so that it is handed out
    /// next.
    pub fn put_task_to_head(&mut self, task: &TaskItem)
        ensures
            final(self)@ == old(self)@.put_first(task@),
            old(self)@.wf() && !old(self)@.knows(task@.id) ==> final(self)@.wf(),
    {
        self.pending.insert(0, task.duplicate());
        proof {
            assert(self@.pending =~= seq![task@] + old(self)@.pending);
            if old(self)@.wf() && !old(self)@.knows(task@.id) {
                old(self)@.law_put_keeps_invariants(task@);
            }
        }
    }

    /// Hands the first waiting task to a worker: the task goes behind the
    /// tasks in flight, under a lease with the key of the worker (empty
    /// where the worker gives none). Returns a copy of the task, or nothing
    /// where no task waits.
    pub fn acquire_task(&mut self, worker: Option<&str>) -> (task: Option<TaskItem>)
        ensures
            final(self)@ == old(self)@.acquire(
                match worker {
                    Some(w) => w@,
                    None => Seq::empty(),
                },
            ),
            task is Some <==> old(self)@.pending.len() > 0,
            task matches Some(t) ==> t@ == old(self)@.pending[0],
            old(self)@.wf() ==> final(self)@.wf(),
            old(self)@.fully_leased() ==> final(self)@.fully_leased(),
    {
        let ghost key = match worker {
            Some(w) => w@,
            None => Seq::<char>::empty(),
        };
        proof {
            if old(self)@.wf() {
                old(self)@.law_acquire_keeps_invariants(key);
            }
        }
        if self.pending.len() == 0 {
            return None;
        }
        let task = self.pending.remove(0);
        let copy = task.duplicate();
        let lease = match worker {
            Some(w) => String::from_str(w),
            None => String::new(),
        };
        self.in_flight.push(InFlight { task, lease: Some(lease) });
        proof {
            assert(self@.pending =~= old(self)@.pending.skip(1));
            assert(self@.in_flight =~= old(self)@.in_flight.push(
                FlightView { task: old(self)@.pending[0], lease: Some(key) },
            ));
            if old(self)@.fully_leased() {
                assert forall|i: int| 0 <= i < self@.in_flight.len() implies (
                #[trigger] self@.in_flight[i]).lease is Some by {
                    if i < old(self)@.in_flight.len() {
                        assert(self@.in_flight[i] == old(self)@.in_flight[i]);
                    }
                }
            }
        }
        Some(copy)
    }

    /// The index of the first entry in flight that is `task`.
    fn find_in_flight(&self, task: &TaskItem) -> (at: Option<usize>)
        ensures
            match at {
                Some(i) => i == first_match(self@.in_flight, task@, self@.in_flight.len() as int),
                None => first_match(self@.in_flight, task@, self@.in_flight.len() as int) < 0,
            },
            at matches Some(i) ==> i < self.in_flight@.len(),
    {
        find_entry(&self.in_flight, task)
    }

    /// Completes a task: the first entry in flight that is `task` (by
    /// identifier, or by the work it describes where `task` has no
    /// identifier) goes with its lease, and its task is appended to the
    /// finished ones. Returns whether there was such an entry.
    pub fn complete_task(&mut self, task: &TaskItem) -> (found: bool)
        ensures
            final(self)@ == old(self)@.complete(task@),
            found == (first_match(old(self)@.in_flight, task@, old(self)@.in_flight.len() as int)
                >= 0),
            old(self)@.wf() ==> final(self)@.wf(),
            old(self)@.fully_leased() ==> final(self)@.fully_leased(),
    {
        proof {
            if old(self)@.wf() {
                old(self)@.law_settle_keeps_invariants(task@);
            }
        }
        match self.find_in_flight(task) {
            Some(at) => {
                let entry = self.in_flight.remove(at);
                self.finished.push(entry.task);
                proof {
                    assert(self@.in_flight =~= old(self)@.in_flight.remove(at as int));
                    assert(self@.finished =~= old(self)@.finished.push(
                        old(self)@.in_flight[at as int].task,
                    ));
                    if old(self)@.fully_leased() {
                        assert forall|i: int| 0 <= i < self@.in_flight.len() implies (
                        #[trigger] self@.in_flight[i]).lease is Some by {
                            if i < at {
                                assert(self@.in_flight[i] == old(self)@.in_flight[i]);
                            } else {
                                assert(self@.in_flight[i] == old(self)@.in_flight[i + 1]);
                            }
                        }
                    }
                }
                true
            },
            None => false,
        }
    }

    /// Gives a task back: the first entry in flight that is `task` goes
    /// with its lease, and its task is appended to the waiting ones.
    /// Returns whether there was such an entry.
    pub fn requeue_task(&mut self, task: &TaskItem) -> (found: bool)
        ensures
            final(self)@ == old(self)@.requeue(task@),
            found == (first_match(old(self)@.in_flight, task@, old(self)@.in_flight.len() as int)
                >= 0),
            old(self)@.wf() ==> final(self)@.wf(),
            old(self)@.fully_leased() ==> final(self)@.fully_leased(),
    {
        proof {
            if old(self)@.wf() {
                old(self)@.law_settle_keeps_invariants(task@);
            }
        }
        match self.find_in_flight(task) {
            Some(at) => {
                let entry = self.in_flight.remove(at);
                self.pending.push(entry.task);
                proof {
                    assert(self@.in_flight =~= old(self)@.in_flight.remove(at as int));
                    assert(self@.pending =~= old(self)@.pending.push(
                        old(self)@.in_flight[at as int].task,
                    ));
                    if old(self)@.fully_leased() {
                        assert forall|i: int| 0 <= i < self@.in_flight.len() implies (
                        #[trigger] self@.in_flight[i]).lease is Some by {
                            if i < at {
                                assert(self@.in_flight[i] == old(self)@.in_flight[i]);
                            } else {
                                assert(self@.in_flight[i] == old(self)@.in_flight[i + 1]);
                            }
                        }
                    }
                }
                true
            },
            None => false,
        }
    }

    /// Whether no task is in flight.
    pub fn all_finished(&self) -> (done: bool)
        ensures
            done == (self@.in_flight.len() == 0),
    {
        self.in_flight.len() == 0
    }

    /// Lets the lease of the task with the identifier run out.
    pub fn expire_lease(&mut self, task_id: &str)
        ensures
            final(self)@ == old(self)@.expire(task_id@),
            old(self)@.wf() ==> final(self)@.wf(),
    {
        proof {
            if old(self)@.wf() {
                old(self)@.law_expire_keeps_invariants(task_id@);
            }
        }
        let mut kept: Vec<InFlight> = Vec::new();
        let mut i: usize = 0;
        while i < self.in_flight.len()
            invariant
                i <= self.in_flight@.len(),
                self.in_flight == old(self).in_flight,
                self.pending == old(self).pending,
                self.finished == old(self).finished,
                self.queue_name == old(self).queue_name,
                self.processing_queue == old(self).processing_queue,
                self.finished_queue == old(self).finished_queue,
                self.processing_prefix == old(self).processing_prefix,
                kept@.len() == i,
                forall|j: int|
                    0 <= j < i ==> (#[trigger] kept@[j])@ == old(self)@.expire(
                        task_id@,
                    ).in_flight[j],
            decreases self.in_flight@.len() - i,
        {
            let entry = &self.in_flight[i];
            proof {
                assert(old(self)@.in_flight[i as int] == entry@);
            }
            let lease = if str_eq(entry.task.id.as_str(), task_id) {
                None
            } else {
                copy_text(&entry.lease)
            };
            kept.push(InFlight { task: entry.task.duplicate(), lease });
            i += 1;
        }
        self.in_flight = kept;
        proof {
            assert(self@.in_flight =~= old(self)@.expire(task_id@).in_flight);
        }
    }

    /// Sweeps the tasks in flight: every task whose lease is gone is
    /// appended to the waiting tasks.
    pub fn requeue_expired_tasks(&mut self)
        ensures
            final(self)@ == old(self)@.sweep(),
            old(self)@.wf() ==> final(self)@.wf() && final(self)@.fully_leased(),
    {
        proof {
            if old(self)@.wf() {
                old(self)@.law_sweep_keeps_invariants();
            }
        }
        let ghost entries = self@.in_flight;
        let mut kept: Vec<InFlight> = Vec::new();
        let mut i: usize = 0;
        while i < self.in_flight.len()
            invariant
                i <= self.in_flight@.len(),
                self.in_flight == old(self).in_flight,
                self.finished == old(self).finished,
                self.queue_name == old(self).queue_name,
                self.processing_queue == old(self).processing_queue,
                self.finished_queue == old(self).finished_queue,
                self.processing_prefix == old(self).processing_prefix,
                entries == old(self)@.in_flight,
                flight_views(kept@) == leased(entries.take(i as int)),
                task_views(self.pending@) == old(self)@.pending + lapsed(entries.take(i as int)),
            decreases self.in_flight@.len() - i,
        {
            let entry = &self.in_flight[i];
            proof {
                assert(entries[i as int] == entry@);
                assert(entries.take(i + 1).drop_last() =~= entries.take(i as int));
            }
            let ghost waiting = task_views(self.pending@);
            let ghost held = flight_views(kept@);
            match &entry.lease {
                Some(lease) => {
                    kept.push(InFlight { task: entry.task.duplicate(), lease: Some(lease.clone()) });
                    proof {
                        assert(flight_views(kept@) =~= held.push(entry@));
                    }
                },
                None => {
                    self.pending.push(entry.task.duplicate());
                    proof {
                        assert(task_views(self.pending@) =~= waiting.push(entry@.task));
                    }
                },
            }
            i += 1;
        }
        proof {
            assert(entries.take(entries.len() as int) =~= entries);
        }
        self.in_flight = kept;
    }

    /// Appends every task in flight to the waiting tasks.
    pub fn requeue_tasks(&mut self)
        ensures
            final(self)@ == old(self)@.requeue_all(),
            old(self)@.wf() ==> final(self)@.wf(),
    {
        proof {
            if old(self)@.wf() {
                old(self)@.law_sweep_keeps_invariants();
            }
        }
        let ghost entries = self@.in_flight;
        let mut i: usize = 0;
        while i < self.in_flight.len()
            invariant
                i <= self.in_flight@.len(),
                self.in_flight == old(self).in_flight,
                self.finished == old(self).finished,
                self.queue_name == old(self).queue_name,
                self.processing_queue == old(self).processing_queue,
                self.finished_queue == old(self).finished_queue,
                self.processing_prefix == old(self).processing_prefix,
                entries == old(self)@.in_flight,
                task_views(self.pending@) == old(self)@.pending + entries.take(
                    i as int,
                ).map_values(|e: FlightView| e.task),
            decreases self.in_flight@.len() - i,
        {
            let ghost waiting = task_views(self.pending@);
            proof {
                assert(entries[i as int] == self.in_flight@[i as int]@);
            }
            self.pending.push(self.in_flight[i].task.duplicate());
            proof {
                assert(task_views(self.pending@) =~= waiting.push(entries[i as int].task));
                assert(old(self)@.pending + entries.take(i + 1).map_values(
                    |e: FlightView| e.task,
                ) =~= waiting.push(entries[i as int].task));
            }
            i += 1;
        }
        proof {
            assert(entries.take(entries.len() as int) =~= entries);
        }
        self.in_flight = Vec::new();
        proof {
            assert(self@.in_flight =~= Seq::empty());
        }
    }

    /// Empties the three lists. The names stay.
    pub fn clear(&mut self)
        ensures
            final(self)@ == (QueueView {
                pending: Seq::empty(),
                in_flight: Seq::empty(),
                finished: Seq::empty(),
                ..old(self)@
            }),
    {
        self.pending = Vec::new();
        self.in_flight = Vec::new();
        self.finished = Vec::new();
        proof {
            assert(self@.pending =~= Seq::empty());
            assert(self@.in_flight =~= Seq::empty());
            assert(self@.finished =~= Seq::empty());
        }
    }

    /// The length of the list with the given name; zero for any other name.
    pub fn sizeof(&self, queue: &str) -> (n: usize)
        ensures
            n == if queue@ == self.pending_name() {
                self@.pending.len()
            } else if queue@ == self.processing_name() {
                self@.in_flight.len()
            } else if queue@ == self.finished_name() {
                self@.finished.len()
            } else {
                0
            },
    {
        if str_eq(queue, self.queue_name.as_str()) {
            self.pending.len()
        } else if str_eq(queue, self.processing_queue.as_str()) {
            self.in_flight.len()
        } else if str_eq(queue, self.finished_queue.as_str()) {
            self.finished.len()
        } else {
            0
        }
    }

    /// Copies of the tasks of the list with the given name, in order; none
    /// for any other name.
    pub fn iterator(&self, queue: &str) -> (tasks: Vec<TaskItem>)
        ensures
            task_views(tasks@) == if queue@ == self.pending_name() {
                self@.pending
            } else if queue@ == self.processing_name() {
                self@.in_flight.map_values(|e: FlightView| e.task)
            } else if queue@ == self.finished_name() {
                self@.finished
            } else {
                Seq::empty()
            },
    {
        let mut out: Vec<TaskItem> = Vec::new();
        if str_eq(queue, self.queue_name.as_str()) {
            let mut i: usize = 0;
            while i < self.pending.len()
                invariant
                    i <= self.pending@.len(),
                    out@.len() == i,
                    forall|j: int| 0 <= j < i ==> (#[trigger] out@[j])@ == self.pending@[j]@,
                decreases self.pending@.len() - i,
            {
                out.push(self.pending[i].duplicate());
                i += 1;
            }
            proof {
                assert(task_views(out@) =~= self@.pending);
            }
        } else if str_eq(queue, self.processing_queue.as_str()) {
            let mut i: usize = 0;
            while i < self.in_flight.len()
                invariant
                    i <= self.in_flight@.len(),
                    out@.len() == i,
                    forall|j: int| 0 <= j < i ==> (#[trigger] out@[j])@ == self.in_flight@[j].task@,
                decreases self.in_flight@.len() - i,
            {
                out.push(self.in_flight[i].task.duplicate());
                i += 1;
            }
            proof {
                assert(task_views(out@) =~= self@.in_flight.map_values(|e: FlightView| e.task));
            }
        } else if str_eq(queue, self.finished_queue.as_str()) {
            let mut i: usize = 0;
            while i < self.finished.len()
                invariant
                    i <= self.finished@.len(),
                    out@.len() == i,
                    forall|j: int| 0 <= j < i ==> (#[trigger] out@[j])@ == self.finished@[j]@,
                decreases self.finished@.len() - i,
            {
                out.push(self.finished[i].duplicate());
                i += 1;
            }
            proof {
                assert(task_views(out@) =~= self@.finished);
            }
        } else {
            proof {
                assert(task_views(out@) =~= Seq::empty());
            }
        }
        out
    }
}

impl QueueView {
    /// A match found among the first entries is the first match among all.
    pub proof fn lemma_first_match_stays(
        entries: Seq<FlightView>,
        task: TaskView,
        found: int,
        upto: int,
    )
        requires
            0 < found <= upto <= entries.len(),
            first_match(entries, task, found - 1) < 0,
            same_task(entries[found - 1].task, task),
        ensures
            first_match(entries, task, upto) == found - 1,
        decreases upto,
    {
        if upto > found {
            Self::lemma_first_match_stays(entries, task, found, upto - 1);
        }
    }
}

} // verus!
