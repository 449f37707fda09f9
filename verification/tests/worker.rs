use bff::lock::{
    acquire_or_block, after_failed_attempt, get_worker_key, lock_value, may_release, Patience,
};
use bff::paths::{
    compression_for, extract_subject_from_path, get_task_output_directory, is_oss, is_s3,
    is_shard_file, join_path, split_behind_scheme, split_file_path, split_oss_path, split_s3_path,
    Compression, OssUrlError,
};
use bff::retry::{backoff_millis, next_attempt, retry_delay_millis, should_retry};
use bff::sizing::{aligned_size, size_in_bits, SizeSearch};
use bff::task_queue::TaskItem;
use bff::worker::{
    expected_ngram_count_for, next_step, pool_size, report_for, select_task_files, shuffled_shard,
    virtual_shard, TaskReport, WorkerStep,
};

fn names(items: &[&str]) -> Vec<String> {
    items.iter().map(|s| s.to_string()).collect()
}

fn task(range: [i32; 2], files: Option<Vec<String>>) -> TaskItem {
    TaskItem {
        id: "t".to_string(),
        shard_dir: "oss://bucket/data/subject=math/part1".to_string(),
        file_range: range.to_vec(),
        worker: None,
        is_temp: None,
        files,
        original_shard_dir: None,
        expected_ngram_count: None,
    }
}

#[test]
fn task_files_follow_the_range() {
    let all = names(&["a", "b", "c", "d"]);
    assert_eq!(select_task_files(&task([1, 3], None), &all), names(&["b", "c"]));
    assert_eq!(select_task_files(&task([1, -1], None), &all), names(&["b", "c", "d"]));
    assert_eq!(select_task_files(&task([2, 9], None), &all), names(&["c", "d"]));
    assert_eq!(select_task_files(&task([4, 9], None), &all), Vec::<String>::new());
    assert_eq!(select_task_files(&task([7, 9], None), &all), Vec::<String>::new());
    assert_eq!(select_task_files(&task([0, 0], Some(Vec::new())), &all), Vec::<String>::new());
}

#[test]
fn named_files_win_over_the_range() {
    let all = names(&["a", "b"]);
    let t = task([0, 1], Some(names(&["x", "y"])));
    assert_eq!(select_task_files(&t, &all), names(&["x", "y"]));
}

#[test]
fn virtual_shard_takes_every_nth_file() {
    let all = names(&["f0", "f1", "f2", "f3", "f4", "f5", "f6"]);
    assert_eq!(virtual_shard(&all, 0, 1), all);
    assert_eq!(virtual_shard(&all, 1, 3), names(&["f1", "f4"]));
    assert_eq!(virtual_shard(&all, 0, 3), names(&["f0", "f3", "f6"]));
    assert_eq!(virtual_shard(&all, 2, 3), names(&["f2", "f5"]));
    assert_eq!(virtual_shard(&all, 7, 3), Vec::<String>::new());
    assert_eq!(virtual_shard(&all, 6, usize::MAX), names(&["f6"]));
}

#[test]
fn shuffled_shard_holds_the_same_files() {
    let all: Vec<String> = (0..50).map(|i| format!("f{}", i)).collect();
    let mut shard = shuffled_shard(&all, 1, 2);
    shard.sort();
    let mut expected = virtual_shard(&all, 1, 2);
    expected.sort();
    assert_eq!(shard, expected);
    assert_eq!(shard.len(), 25);
}

#[test]
fn worker_steps() {
    assert_eq!(next_step(true, false, false), WorkerStep::Process);
    assert_eq!(next_step(true, true, true), WorkerStep::Process);
    assert_eq!(next_step(false, false, false), WorkerStep::Wait);
    assert_eq!(next_step(false, true, false), WorkerStep::Stop);
    assert_eq!(next_step(false, false, true), WorkerStep::Stop);
    assert_eq!(report_for(true), TaskReport::Finished);
    assert_eq!(report_for(false), TaskReport::Failed);
    assert_eq!(pool_size(0, 8), 8);
    assert_eq!(pool_size(3, 8), 3);
    let mut t = task([0, 1], None);
    assert_eq!(expected_ngram_count_for(&t, 100), 100);
    t.expected_ngram_count = Some(7);
    assert_eq!(expected_ngram_count_for(&t, 100), 7);
}

#[test]
fn backoff_doubles_up_to_the_cap() {
    assert_eq!(backoff_millis(0), 100);
    assert_eq!(backoff_millis(1), 200);
    assert_eq!(backoff_millis(2), 400);
    assert_eq!(backoff_millis(3), 800);
    assert_eq!(backoff_millis(4), 1600);
    assert_eq!(backoff_millis(5), 2000);
    assert_eq!(backoff_millis(64), 2000);
    assert_eq!(backoff_millis(usize::MAX), 2000);
    assert_eq!(retry_delay_millis(2, 999), 1399);
}

#[test]
fn retries_stop_when_used_up() {
    assert!(should_retry(4, 5));
    assert!(!should_retry(5, 5));
    assert!(next_attempt(5, 5).is_none());
    for _ in 0..50 {
        let d = next_attempt(1, 5).unwrap();
        assert!((200..1200).contains(&d));
    }
}

#[test]
fn lock_values_and_patience() {
    assert_eq!(get_worker_key("10.0.0.7", "4242"), "10.0.0.7_4242");
    assert_eq!(lock_value("10.0.0.7_4242"), "locked_10.0.0.7_4242");
    assert!(may_release("locked_a_1", "locked_a_1"));
    assert!(!may_release("locked_b_2", "locked_a_1"));
    assert_eq!(acquire_or_block(-1), Patience::Forever);
    assert_eq!(acquire_or_block(0), Patience::Spent);
    assert_eq!(acquire_or_block(-5), Patience::Spent);
    assert_eq!(acquire_or_block(2), Patience::Attempts(2));
    assert_eq!(after_failed_attempt(Patience::Attempts(2)), Patience::Attempts(1));
    assert_eq!(after_failed_attempt(Patience::Attempts(1)), Patience::Spent);
    assert_eq!(after_failed_attempt(Patience::Forever), Patience::Forever);
    assert_eq!(after_failed_attempt(Patience::Spent), Patience::Spent);
}

#[test]
fn path_schemes() {
    assert!(is_s3("s3://bucket/key"));
    assert!(!is_s3("oss://bucket/key"));
    assert!(!is_s3("s3:/"));
    assert!(is_oss("oss://bucket/key"));
    assert!(!is_oss("/local/oss://x"));
    assert_eq!(
        split_s3_path("s3://bucket/some/key.jsonl"),
        ("bucket".to_string(), "some/key.jsonl".to_string())
    );
    assert_eq!(split_oss_path("oss://b/"), ("b".to_string(), String::new()));
    assert_eq!(
        split_behind_scheme("oss://büçket/kéy/ü", "oss://"),
        Some(("büçket".to_string(), "kéy/ü".to_string()))
    );
    assert_eq!(split_behind_scheme("oss://bucket", "oss://"), None);
    assert_eq!(split_behind_scheme("s3://bucket/k", "oss://"), None);
}

#[test]
fn lock_addresses() {
    assert_eq!(
        split_file_path("oss://bucket/dir/lockfile"),
        Ok(("bucket".to_string(), "dir/lockfile".to_string()))
    );
    assert_eq!(split_file_path("http://bucket/x"), Err(OssUrlError::InvalidUrl));
    assert_eq!(split_file_path("oss://bucket"), Err(OssUrlError::MissingPath));
}

#[test]
fn subjects_and_output_directories() {
    assert_eq!(
        extract_subject_from_path("oss://b/data/subject=math/part1"),
        Some("subject=math".to_string())
    );
    assert_eq!(extract_subject_from_path("dir/subject=art"), Some("subject=art".to_string()));
    assert_eq!(extract_subject_from_path("dir/topic=art/x"), None);
    assert_eq!(get_task_output_directory(&task([0, 1], None), "out"), "out/subject=math");
    assert_eq!(get_task_output_directory(&task([0, 1], None), "out/"), "out/subject=math");
    let mut plain = task([0, 1], None);
    plain.shard_dir = "local/dir".to_string();
    assert_eq!(get_task_output_directory(&plain, "out"), "out");
    assert_eq!(join_path("", "x"), "x");
    assert_eq!(join_path("a", ""), "a/");
}

#[test]
fn compression_goes_by_the_ending() {
    assert_eq!(compression_for("a/b.jsonl.gz"), Compression::Gzip);
    assert_eq!(compression_for("a/b.jsonl.zst"), Compression::Zstd);
    assert_eq!(compression_for("a/b.jsonl.zstd"), Compression::Zstd);
    assert_eq!(compression_for("a/b.jsonl"), Compression::Raw);
    assert_eq!(compression_for("gz"), Compression::Raw);
    assert!(is_shard_file("x.jsonl"));
    assert!(is_shard_file("x.jsonl.gz"));
    assert!(is_shard_file("x.jsonl.zst"));
    assert!(is_shard_file("x.jsonl.zstd"));
    assert!(!is_shard_file("x.json"));
    assert!(!is_shard_file("x.tsv"));
    assert!(!is_shard_file("x.jsonl.bz2"));
}

#[test]
fn size_search_bisects() {
    let mut search = SizeSearch::new(100);
    assert_eq!(search.probe(), Some(50));
    search.narrow(true);
    assert_eq!(search, SizeSearch { lo: 51, hi: 100 });
    assert_eq!(search.probe(), Some(75));
    search.narrow(false);
    assert_eq!(search, SizeSearch { lo: 51, hi: 75 });
    assert_eq!(SizeSearch::new(0).probe(), None);
    assert_eq!(SizeSearch::new(1).probe(), None);
    assert_eq!(SizeSearch::new(2).probe(), Some(1));
}

#[test]
fn size_search_settles_on_the_least_sufficient_size() {
    for least in 1..=40usize {
        let mut search = SizeSearch::new(40);
        let mut probes = 0;
        while let Some(mid) = search.probe() {
            search.narrow(mid < least);
            probes += 1;
        }
        assert_eq!(search.result(), least);
        assert!(probes <= 6);
    }
    let mut search = SizeSearch::new(usize::MAX);
    while let Some(mid) = search.probe() {
        search.narrow(mid < usize::MAX - 1);
    }
    assert_eq!(search.result(), usize::MAX - 1);
}

#[test]
fn sizes_are_whole_words() {
    assert_eq!(aligned_size(0), 0);
    assert_eq!(aligned_size(7), 4);
    assert_eq!(aligned_size(8), 8);
    assert_eq!(size_in_bits(usize::MAX), (usize::MAX as u128) * 8);
}

#[test]
fn listings_go_on_behind_the_last_key() {
    use_next_marker();
}

fn use_next_marker() {
    let page = names(&["a", "b"]);
    assert_eq!(bff::paths::next_marker(true, &page), Some("b".to_string()));
    assert_eq!(bff::paths::next_marker(false, &page), None);
    assert_eq!(bff::paths::next_marker(true, &Vec::new()), None);
}

#[test]
fn output_names_keep_the_last_components() {
    use_output_names();
}

fn use_output_names() {
    let name = bff::paths::get_output_filename;
    assert_eq!(name("a/b/c.jsonl", "out", 1), "out/c.jsonl");
    assert_eq!(name("a/b/c.jsonl", "out", 2), "out/b/c.jsonl");
    assert_eq!(name("a/b/c.jsonl", "out/", 3), "out/c.jsonl");
    assert_eq!(name("c.jsonl", "out", 1), "out/c.jsonl");
    assert_eq!(name("oss://bucket/x/y.jsonl.gz", "oss://o/p", 2), "oss://o/p/x/y.jsonl.gz");
    assert_eq!(name("a/b", "out", 0), "out/");
    assert_eq!(bff::paths::kept_suffix("dir/é/ü.jsonl", 2), "é/ü.jsonl");
}

#[test]
fn task_files_are_refused_for_a_range_that_does_not_fit() {
    let all = names(&["a", "b", "c", "d"]);
    let checked = bff::worker::checked_task_files;
    assert_eq!(checked(&task([1, 3], None), &all), Some(names(&["b", "c"])));
    assert_eq!(checked(&task([3, 1], None), &all), None);
    assert_eq!(checked(&task([-1, 2], None), &all), None);
    assert_eq!(checked(&task([5, -1], None), &all), None);
    assert_eq!(checked(&task([5, 9], None), &all), Some(Vec::new()));
    assert_eq!(checked(&task([3, 1], Some(names(&["x"]))), &all), Some(names(&["x"])));
    let mut short = task([0, 1], None);
    short.file_range = vec![0];
    assert_eq!(checked(&short, &all), None);
}
