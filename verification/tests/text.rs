use bff::bloom::BloomFilter;
use bff::paragraph::{judge_unit, render_units, unit_pass};
use bff::ratio::Threshold;
use bff::shingle::{count_contained, hash_shingles, insert_all};
use bff::substring::{
    find_contained_runs, insert_kept_windows, join_fuzzy, join_slices, plan_substring,
    to_byte_intervals, widen_runs,
};
use bff::text::{
    bytes_eq, bytes_occur_at, ends_with, find_bytes, is_whitespace, starts_with, str_eq, str_len,
    str_slice,
};
use bff::tokenize::not_whitespace;
use bff::units::unit_boundaries;

fn filter() -> BloomFilter {
    BloomFilter::with_seeds(1 << 12, vec![[1, 2, 3, 4], [5, 6, 7, 8]])
}

#[test]
fn white_space_follows_unicode() {
    for c in ['\t', '\n', '\u{b}', '\u{c}', '\r', ' ', '\u{85}', '\u{a0}', '\u{1680}', '\u{2000}',
        '\u{200a}', '\u{2028}', '\u{2029}', '\u{202f}', '\u{205f}', '\u{3000}']
    {
        assert!(is_whitespace(c));
        assert!(c.is_whitespace());
    }
    for c in ['a', '0', '\u{200b}', '\u{feff}', '\u{8}', '\u{e}', '\u{1f}', '\u{2060}'] {
        assert!(!is_whitespace(c));
        assert!(!c.is_whitespace());
    }
    for code in 0..0x3100u32 {
        if let Some(c) = char::from_u32(code) {
            assert_eq!(is_whitespace(c), c.is_whitespace());
        }
    }
    assert!(not_whitespace(" \u{a0}x "));
    assert!(!not_whitespace(" \u{a0}\n"));
    assert!(!not_whitespace(""));
}

#[test]
fn strings_compare_and_slice_by_bytes() {
    assert!(str_eq("héllo", "héllo"));
    assert!(!str_eq("héllo", "hello"));
    assert!(bytes_eq(b"", b""));
    assert!(!bytes_eq(b"a", b"ab"));
    assert_eq!(str_len("héllo"), 6);
    assert_eq!(str_slice("héllo wörld", 0, 6), "héllo");
    assert_eq!(str_slice("héllo wörld", 7, 13), "wörld");
    assert_eq!(str_slice("abc", 3, 3), "");
}

#[test]
fn bytes_are_found_where_they_stand() {
    assert!(starts_with("s3://b/k", "s3://"));
    assert!(!starts_with("s3:/", "s3://"));
    assert!(starts_with("x", ""));
    assert!(ends_with("a.jsonl.gz", ".gz"));
    assert!(!ends_with("gz", ".gz"));
    assert!(bytes_occur_at(b"abcabc", b"bc", 4));
    assert!(!bytes_occur_at(b"abcabc", b"bc", 5));
    assert!(!bytes_occur_at(b"abc", b"c", usize::MAX));
    assert_eq!(find_bytes(b"abcabc", b"bc", 0), Some(1));
    assert_eq!(find_bytes(b"abcabc", b"bc", 2), Some(4));
    assert_eq!(find_bytes(b"abcabc", b"bc", 5), None);
    assert_eq!(find_bytes(b"abc", b"", 3), Some(3));
    assert_eq!(find_bytes(b"abc", b"abcd", 0), None);
}

#[test]
fn units_are_cut_at_line_feeds() {
    assert_eq!(unit_boundaries("A B C\nA B C\n", false), vec![0, 5, 11, 12]);
    assert_eq!(unit_boundaries("A B C\nA B C\n", true), vec![0, 12]);
    assert_eq!(unit_boundaries("", false), vec![0, 0]);
    assert_eq!(unit_boundaries("\n", false), vec![0, 0, 1]);
    assert_eq!(unit_boundaries("é\nü", false), vec![0, 2, 5]);
}

#[test]
fn shingles_are_windows_or_one_short_unit() {
    let f = filter();
    let tokens = vec!["a", "b", "c", "d"];
    let h = hash_shingles(&f, &tokens, 2, 3);
    assert_eq!(h, vec![f.hashes(&["a", "b", "c"]), f.hashes(&["b", "c", "d"])]);
    assert_eq!(hash_shingles(&f, &tokens, 2, 5), vec![f.hashes(&tokens)]);
    assert!(hash_shingles(&f, &tokens, 5, 6).is_empty());
    assert_eq!(hash_shingles(&f, &tokens, 0, 0).len(), 4);
    assert_eq!(hash_shingles(&f, &Vec::new(), 0, 3), vec![f.hashes(&[])]);
    assert!(hash_shingles(&f, &Vec::new(), 1, 3).is_empty());
}

#[test]
fn units_are_judged_by_their_share() {
    let mut f = filter();
    let known = vec![vec![1u64, 2], vec![3, 4]];
    insert_all(&mut f, &known);
    assert_eq!(count_contained(&f, &known), 2);
    let half = Threshold::new(1, 2).unwrap();
    let unit = vec![vec![1u64, 2], vec![900, 901]];
    // one of two is not above a half
    assert_eq!(judge_unit(&mut f, &unit, &half, true), (false, 1));
    // now both are known
    assert_eq!(judge_unit(&mut f, &unit, &half, true), (true, 2));
    let empty: Vec<Vec<u64>> = Vec::new();
    assert_eq!(judge_unit(&mut f, &empty, &half, true), (false, 0));
    let other = vec![vec![7000u64]];
    assert_eq!(judge_unit(&mut f, &other, &half, false), (false, 0));
    assert_eq!(count_contained(&f, &other), 0);
}

#[test]
fn a_pass_reports_every_count() {
    let mut f = filter();
    let out = unit_pass("a b c\na b c\nx", &mut f, 3, 3, false, Threshold::from_percent(80), true);
    assert_eq!(out.spans, vec![(5, 11)]);
    assert_eq!(out.kept, "a b c\nx");
    assert_eq!((out.removed_bytes, out.total_bytes, out.total_units), (6, 13, 3));
    assert_eq!((out.contained, out.shingles), (1, 2));
    let (spans, kept, removed) = render_units("ab\ncd\nef", &vec![0, 2, 5, 8], &vec![true, false, true]);
    assert_eq!(spans, vec![(0, 2), (5, 8)]);
    assert_eq!(kept, "\ncd");
    assert_eq!(removed, 5);
}

#[test]
fn substring_plan_step_by_step() {
    let mut f = filter();
    let hashes: Vec<Vec<u64>> = (0..8u64).map(|i| vec![i * 1000 + 1, i * 1000 + 2]).collect();
    for i in [0usize, 1, 4, 6] {
        f.insert_hashes(&hashes[i]);
    }
    let (runs, count) = find_contained_runs(&f, &hashes);
    assert_eq!(runs, vec![(0, 2), (4, 5), (6, 7)]);
    assert_eq!(count, 4);
    let spans = widen_runs(&runs, 3, hashes.len());
    assert_eq!(spans, vec![(0, 4), (4, 7), (6, 9)]);
    let one = Threshold::new(1, 1).unwrap();
    assert_eq!(join_fuzzy(vec![(0, 3), (5, 9)], one, 10), vec![(0, 3), (5, 9)]);
    let half = Threshold::new(1, 2).unwrap();
    assert_eq!(join_fuzzy(vec![(0, 3), (5, 9)], half, 10), vec![(0, 9)]);
    // eight shingles of three tokens are ten tokens
    let (duplicate, kept, count) = plan_substring(&f, &hashes, 10, 3, 5, one);
    assert_eq!(duplicate, vec![(0, 9)]);
    assert_eq!(kept, vec![(9, 10)]);
    assert_eq!(count, 4);
    let (duplicate, kept, _) = plan_substring(&f, &hashes, 10, 3, 10, one);
    assert!(duplicate.is_empty());
    assert_eq!(kept, vec![(0, 10)]);
    let mut g = filter();
    insert_kept_windows(&mut g, &hashes, &vec![(0, 4), (6, 10)], 3);
    let (runs, _) = find_contained_runs(&g, &hashes);
    assert_eq!(runs, vec![(0, 2), (6, 8)]);
    assert_eq!(to_byte_intervals(&vec![(0, 2), (2, 3)], &vec![0, 4, 9, 12]), vec![(0, 9), (9, 12)]);
    assert_eq!(join_slices("héllo wörld", &vec![(0, 3), (7, 13)]), ("héwörld".to_string(), 9));
}
