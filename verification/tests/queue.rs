use bff::task_file::{get_task_item, mark_task_item_failed, mark_task_item_finished};
use bff::task_queue::{find_entry, lapsed_entries, InFlight, TaskItem, TaskQueue, TaskWorker};

fn task(id: &str, dir: &str, range: [i32; 2]) -> TaskItem {
    TaskItem {
        id: id.to_string(),
        shard_dir: dir.to_string(),
        file_range: range.to_vec(),
        worker: None,
        is_temp: None,
        files: None,
        original_shard_dir: None,
        expected_ngram_count: None,
    }
}

fn ids(q: &TaskQueue, list: &str) -> Vec<String> {
    q.iterator(list).into_iter().map(|t| t.id).collect()
}

fn pending(q: &TaskQueue) -> Vec<String> {
    ids(q, q.pending_queue())
}

fn in_flight(q: &TaskQueue) -> Vec<String> {
    ids(q, q.processing_queue())
}

fn finished(q: &TaskQueue) -> Vec<String> {
    ids(q, q.finished_queue())
}

#[test]
fn queue_names_follow_the_queue_id() {
    let q = TaskQueue::new("dedup");
    assert_eq!(q.pending_queue(), "dedup_task_queue");
    assert_eq!(q.processing_queue(), "dedup_processing_queue");
    assert_eq!(q.finished_queue(), "dedup_finished_queue");
    assert_eq!(q.get_processing_task_key("t1"), "dedup_processing:t1");
}

#[test]
fn tasks_are_handed_out_in_order() {
    let mut q = TaskQueue::new("q");
    q.put_task(&task("a", "d", [0, 1]));
    q.put_task(&task("b", "d", [1, 2]));
    q.put_task_to_head(&task("c", "d", [2, 3]));
    assert_eq!(pending(&q), vec!["c", "a", "b"]);
    assert_eq!(q.acquire_task(Some("w1")).unwrap().id, "c");
    assert_eq!(q.acquire_task(None).unwrap().id, "a");
    assert_eq!(pending(&q), vec!["b"]);
    assert_eq!(in_flight(&q), vec!["c", "a"]);
    assert!(!q.all_finished());
    assert_eq!(q.sizeof("q_processing_queue"), 2);
    assert_eq!(q.sizeof("other"), 0);
}

#[test]
fn acquire_on_an_empty_queue_gives_nothing() {
    let mut q = TaskQueue::new("q");
    assert!(q.acquire_task(Some("w")).is_none());
    assert!(q.all_finished());
}

#[test]
fn complete_moves_a_task_to_finished() {
    let mut q = TaskQueue::new("q");
    let t = task("a", "d", [0, 1]);
    q.put_task(&t);
    assert!(!q.complete_task(&t));
    q.acquire_task(Some("w"));
    assert!(q.complete_task(&t));
    assert!(pending(&q).is_empty() && in_flight(&q).is_empty());
    assert_eq!(finished(&q), vec!["a"]);
    assert!(!q.complete_task(&t));
    assert!(q.all_finished());
}

#[test]
fn requeue_moves_a_task_back_to_pending() {
    let mut q = TaskQueue::new("q");
    q.put_task(&task("a", "d", [0, 1]));
    q.put_task(&task("b", "d", [1, 2]));
    let a = q.acquire_task(Some("w")).unwrap();
    assert!(q.requeue_task(&a));
    assert_eq!(pending(&q), vec!["b", "a"]);
    assert!(in_flight(&q).is_empty());
}

#[test]
fn a_task_without_id_is_matched_by_its_work() {
    let mut q = TaskQueue::new("q");
    q.put_task(&task("", "dir1", [0, 5]));
    q.put_task(&task("x", "dir2", [0, 5]));
    q.acquire_task(Some("w"));
    q.acquire_task(Some("w"));
    let mut probe = task("", "dir2", [0, 5]);
    assert!(q.complete_task(&probe));
    assert_eq!(finished(&q), vec!["x"]);
    probe.shard_dir = "dir1".to_string();
    probe.files = Some(vec!["f".to_string()]);
    assert!(!q.complete_task(&probe));
    probe.files = Some(Vec::new());
    assert!(q.complete_task(&probe));
}

#[test]
fn queue_lease_expiry() {
    let mut q = TaskQueue::new("q");
    let t = task("T", "d", [0, -1]);
    q.put_task(&t);
    // worker A takes the task and crashes
    assert_eq!(q.acquire_task(Some("A")).unwrap().id, "T");
    q.requeue_expired_tasks();
    assert_eq!(in_flight(&q), vec!["T"]);
    assert!(pending(&q).is_empty());
    // the lease runs out
    q.expire_lease("T");
    q.requeue_expired_tasks();
    assert_eq!(pending(&q), vec!["T"]);
    assert!(in_flight(&q).is_empty());
    // worker B takes it and completes it
    let again = q.acquire_task(Some("B")).unwrap();
    assert!(q.complete_task(&again));
    assert_eq!(finished(&q), vec!["T"]);
    assert!(in_flight(&q).is_empty());
    assert!(pending(&q).is_empty());
}

#[test]
fn sweep_keeps_leased_tasks_in_order() {
    let mut q = TaskQueue::new("q");
    for id in ["a", "b", "c", "d"] {
        q.put_task(&task(id, "dir", [0, 1]));
        q.acquire_task(Some("w"));
    }
    q.expire_lease("b");
    q.expire_lease("d");
    q.requeue_expired_tasks();
    assert_eq!(in_flight(&q), vec!["a", "c"]);
    assert_eq!(pending(&q), vec!["b", "d"]);
    q.requeue_tasks();
    assert_eq!(pending(&q), vec!["b", "d", "a", "c"]);
    assert!(q.all_finished());
    q.clear();
    assert!(pending(&q).is_empty());
}

#[test]
fn task_file_hands_out_the_first_free_task() {
    let mut items = vec![task("a", "d", [0, 1]), task("b", "d", [1, 2])];
    items[0].worker = Some(TaskWorker {
        key: Some("w0".to_string()),
        status: Some("processing".to_string()),
        process_time: None,
        finish_time: None,
    });
    let (got, all_finished) = get_task_item(&mut items, false, "w1", "2024-01-01 00:00:00");
    let got = got.unwrap();
    assert_eq!(got.id, "b");
    assert!(got.worker.is_none());
    assert!(!all_finished);
    let record = items[1].worker.as_ref().unwrap();
    assert_eq!(record.key.as_deref(), Some("w1"));
    assert_eq!(record.status.as_deref(), Some("processing"));
    assert_eq!(record.process_time.as_deref(), Some("2024-01-01 00:00:00"));
    assert!(record.finish_time.is_none());
    let (none, all_finished) = get_task_item(&mut items, false, "w2", "now");
    assert!(none.is_none());
    assert!(!all_finished);
}

#[test]
fn task_file_retakes_failed_tasks_and_reports_all_finished() {
    let mut items = vec![task("a", "d", [0, 1])];
    items[0].worker = Some(TaskWorker {
        key: None,
        status: Some("finished".to_string()),
        process_time: None,
        finish_time: None,
    });
    let (none, all_finished) = get_task_item(&mut items, false, "w", "now");
    assert!(none.is_none());
    assert!(all_finished);
    items[0].worker.as_mut().unwrap().status = Some("failed".to_string());
    let (got, _) = get_task_item(&mut items, false, "w", "now");
    assert_eq!(got.unwrap().id, "a");
    // with retries, everything but processed tasks is free
    items[0].worker.as_mut().unwrap().status = Some("processed".to_string());
    assert!(get_task_item(&mut items, true, "w", "now").0.is_none());
    items[0].worker.as_mut().unwrap().status = Some("finished".to_string());
    assert!(get_task_item(&mut items, true, "w", "now").0.is_some());
}

#[test]
fn task_file_marks_finished_and_removes() {
    let mut items = vec![task("a", "d1", [0, 1]), task("b", "d2", [0, 1]), task("c", "d3", [0, 1])];
    get_task_item(&mut items, false, "w", "t0");
    get_task_item(&mut items, false, "w", "t0");
    let done = mark_task_item_finished(&mut items, &task("", "d2", [0, 1]), "t1").unwrap();
    assert_eq!(done.id, "b");
    let record = done.worker.unwrap();
    assert_eq!(record.status.as_deref(), Some("finished"));
    assert_eq!(record.finish_time.as_deref(), Some("t1"));
    assert_eq!(record.key.as_deref(), Some("w"));
    assert_eq!(items.iter().map(|t| t.id.as_str()).collect::<Vec<_>>(), vec!["a", "c"]);
    assert!(mark_task_item_finished(&mut items, &task("", "d2", [0, 1]), "t2").is_none());
    assert_eq!(items.len(), 2);
}

#[test]
fn task_file_matches_files_when_the_task_names_them() {
    let mut named = task("a", "d", [0, 1]);
    named.files = Some(vec!["x".to_string(), "y".to_string()]);
    let mut items = vec![task("plain", "d", [0, 1]), named.duplicate()];
    let mut probe = task("", "d", [0, 1]);
    probe.files = Some(vec!["x".to_string(), "y".to_string()]);
    assert_eq!(mark_task_item_finished(&mut items, &probe, "t").unwrap().id, "a");
    assert_eq!(items.len(), 1);
    probe.files = Some(vec!["x".to_string()]);
    assert!(mark_task_item_finished(&mut items, &probe, "t").is_none());
    probe.files = None;
    assert_eq!(mark_task_item_finished(&mut items, &probe, "t").unwrap().id, "plain");
}

#[test]
fn task_file_moves_a_failed_task_to_the_end() {
    let mut items = vec![task("a", "d1", [0, 1]), task("b", "d2", [0, 1])];
    get_task_item(&mut items, false, "w", "t0");
    assert!(mark_task_item_failed(&mut items, &task("", "d1", [0, 1]), "t1"));
    assert_eq!(items.iter().map(|t| t.id.as_str()).collect::<Vec<_>>(), vec!["b", "a"]);
    assert_eq!(items[1].worker.as_ref().unwrap().status.as_deref(), Some("failed"));
    assert!(!mark_task_item_failed(&mut items, &task("", "nowhere", [0, 1]), "t1"));
    // the failed task is free again once the others are taken
    get_task_item(&mut items, false, "w", "t2");
    let (again, _) = get_task_item(&mut items, false, "w2", "t3");
    assert_eq!(again.unwrap().id, "a");
}

#[test]
fn no_task_is_in_two_lists_at_once() {
    let mut q = TaskQueue::new("q");
    let names = ["a", "b", "c", "d", "e"];
    for id in names {
        q.put_task(&task(id, "dir", [0, 1]));
    }
    let check = |q: &TaskQueue| {
        let p = pending(q);
        let f = in_flight(q);
        let d = finished(q);
        for id in names {
            let places = p.iter().filter(|x| *x == id).count()
                + f.iter().filter(|x| *x == id).count()
                + d.iter().filter(|x| *x == id).count();
            assert_eq!(places, 1);
        }
    };
    check(&q);
    let a = q.acquire_task(Some("w1")).unwrap();
    let b = q.acquire_task(Some("w2")).unwrap();
    check(&q);
    q.complete_task(&a);
    check(&q);
    q.requeue_task(&b);
    check(&q);
    q.acquire_task(Some("w3"));
    q.expire_lease("c");
    q.requeue_expired_tasks();
    check(&q);
    q.requeue_tasks();
    check(&q);
    assert_eq!(finished(&q), vec!["a"]);
    assert!(!pending(&q).contains(&"a".to_string()));
}

fn held(id: &str, dir: &str, range: [i32; 2], lease: Option<&str>) -> InFlight {
    InFlight { task: task(id, dir, range), lease: lease.map(str::to_string) }
}

#[test]
fn an_entry_is_found_by_identifier_or_by_its_work() {
    let entries = vec![
        held("a", "d1", [0, 5], Some("w1")),
        held("b", "d2", [5, 9], None),
        held("b", "d3", [0, -1], Some("w2")),
    ];
    assert_eq!(find_entry(&entries, &task("b", "other", [7, 7])), Some(1));
    assert_eq!(find_entry(&entries, &task("c", "d1", [0, 5])), None);
    assert_eq!(find_entry(&entries, &task("", "d3", [0, -1])), Some(2));
    assert_eq!(find_entry(&entries, &task("", "d3", [0, 1])), None);
    let mut named = task("", "d2", [5, 9]);
    named.files = Some(vec!["x.gz".to_string()]);
    assert_eq!(find_entry(&entries, &named), None);
    named.files = Some(Vec::new());
    assert_eq!(find_entry(&entries, &named), Some(1));
    assert_eq!(find_entry(&Vec::new(), &task("a", "d1", [0, 5])), None);
}

#[test]
fn the_entries_without_lease_are_the_ones_to_sweep() {
    let entries = vec![
        held("a", "d", [0, 1], None),
        held("b", "d", [1, 2], Some("w1")),
        held("c", "d", [2, 3], None),
        held("d", "d", [3, 4], Some("")),
    ];
    assert_eq!(lapsed_entries(&entries), vec![0, 2]);
    assert_eq!(lapsed_entries(&vec![held("b", "d", [1, 2], Some("w"))]), Vec::<usize>::new());
    assert_eq!(lapsed_entries(&Vec::new()), Vec::<usize>::new());
}

#[test]
fn the_names_of_a_queue_stay_through_every_operation() {
    let mut q = TaskQueue::new("jobs");
    q.put_task(&task("a", "d", [0, 1]));
    q.put_task_to_head(&task("b", "d", [1, 2]));
    let got = q.acquire_task(Some("w")).unwrap();
    q.expire_lease(&got.id);
    q.requeue_expired_tasks();
    let got = q.acquire_task(None).unwrap();
    q.complete_task(&got);
    let got = q.acquire_task(None).unwrap();
    q.requeue_task(&got);
    q.requeue_tasks();
    q.clear();
    assert_eq!(q.pending_queue(), "jobs_task_queue");
    assert_eq!(q.processing_queue(), "jobs_processing_queue");
    assert_eq!(q.finished_queue(), "jobs_finished_queue");
    assert_eq!(q.get_processing_task_key("a"), "jobs_processing:a");
}
