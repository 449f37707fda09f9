use bff::filter::{CacheTokenFilter, UncacheTokenFilter};
use bff::quality::{
    clean_words, find_all_duplicate, find_all_duplicate_fast, find_duplicates, find_top_duplicate,
    get_n_grams, is_counter, split_lines, split_paragraphs, split_words,
};
use bff::task_queue::TaskItem;

fn words(items: &[&str]) -> Vec<String> {
    items.iter().map(|w| w.to_string()).collect()
}

#[test]
fn counts_repeated_items_and_their_bytes() {
    assert_eq!(find_duplicates(&["aa", "b", "aa", "ccc", "b", "aa"]), (3, 5));
    assert_eq!(find_duplicates(&[]), (0, 0));
    assert_eq!(find_duplicates(&["é", "é"]), (1, 2));
}

#[test]
fn top_duplicate_is_length_times_count() {
    assert_eq!(find_top_duplicate(&words(&["aa", "b", "aa", "ccc", "b", "aa"])), 6);
    assert_eq!(find_top_duplicate(&words(&[])), 0);
    assert_eq!(find_top_duplicate(&words(&["abcdefg", "x", "x"])), 7);
}

#[test]
fn n_grams_are_all_windows() {
    let w = words(&["one", "two", "three", "four"]);
    assert_eq!(
        get_n_grams(&w, 2),
        vec![vec!["one", "two"], vec!["two", "three"], vec!["three", "four"]]
    );
    assert_eq!(get_n_grams(&w, 4), vec![vec!["one", "two", "three", "four"]]);
    assert!(get_n_grams(&w, 5).is_empty());
    assert_eq!(get_n_grams(&w, 1).len(), 4);
}

#[test]
fn lines_split_at_every_line_feed() {
    assert_eq!(split_lines("a\nb\n\nc"), vec!["a", "b", "", "c"]);
    assert_eq!(split_lines(""), vec![""]);
    assert_eq!(split_lines("x\n"), vec!["x", ""]);
}

#[test]
fn paragraphs_split_at_blank_lines_and_are_trimmed() {
    assert_eq!(split_paragraphs("a\nb\n\n c \n\n\nd"), vec!["a\nb", "c", "d"]);
    assert_eq!(split_paragraphs("\n\nx"), vec!["", "x"]);
}

#[test]
fn counters_are_recognised() {
    assert!(is_counter("1.2K views"));
    assert!(is_counter("  12 Likes!"));
    assert!(is_counter("3,400 followers"));
    assert!(!is_counter("views 12"));
    assert!(!is_counter("12 apples"));
    assert!(!is_counter("he has 12 likes today"));
}

#[test]
fn task_id_is_returned() {
    let task = TaskItem {
        id: "t-17".to_string(),
        shard_dir: "dir".to_string(),
        file_range: vec![0, -1],
        worker: None,
        is_temp: None,
        files: None,
        original_shard_dir: None,
        expected_ngram_count: None,
    };
    assert_eq!(task.get_id(), "t-17");
}

#[test]
fn repeated_n_grams_count_their_bytes() {
    let w = words(&["a", "bb", "a", "bb", "c", "a", "bb"]);
    // (a,bb) is seen again at 2 and at 5
    assert_eq!(find_all_duplicate(&w, 2), 6);
    assert_eq!(find_all_duplicate_fast(&w, 2), 6);
    assert_eq!(find_all_duplicate(&w, 1), 2 + 1 + 1 + 2);
    assert_eq!(find_all_duplicate_fast(&w, 1), 6);
    assert_eq!(find_all_duplicate(&w, 8), 0);
    assert_eq!(find_all_duplicate_fast(&w, 8), 0);
    assert_eq!(find_all_duplicate_fast(&w, 0), 0);
    assert_eq!(find_all_duplicate(&words(&[]), 3), 0);
}

#[test]
fn joined_n_grams_are_compared_as_text() {
    // ("ab","c") and ("a","bc") join to the same text
    let w = words(&["ab", "c", "x", "a", "bc"]);
    assert_eq!(find_all_duplicate(&w, 2), 3);
}

#[test]
fn words_are_split_cleaned_and_cached() {
    let tokens = split_words("Hello, world! 42", None, "en", false, false).unwrap();
    assert_eq!(tokens, vec!["Hello", ",", "world", "!", "42"]);
    let tokens = split_words("Hello, world! 42", None, "en", true, true).unwrap();
    assert_eq!(tokens, vec!["Hello", "world", "42"]);
    let cached = words(&[" a ", "!", "b"]);
    let tokens = split_words("ignored", Some(&cached), "en", true, true).unwrap();
    assert_eq!(tokens, vec!["a", "b"]);
    let tokens = split_words("x y", Some(&Vec::new()), "en", false, true).unwrap();
    assert_eq!(tokens, vec!["x", "y"]);
    assert_eq!(clean_words(&words(&[" a", "\t", "!"]), true, false), vec![" a", "\t"]);
    assert_eq!(clean_words(&words(&[" a", "\t", "!"]), true, true), vec!["a"]);
    assert_eq!(clean_words(&words(&[" a ", "!"]), false, true), vec!["a", "!"]);
}

#[test]
fn filters_have_names() {
    assert_eq!(CacheTokenFilter { lang: "en".to_string() }.name(), "CacheTokenFilter");
    assert_eq!(UncacheTokenFilter.name(), "UncacheTokenFilter");
}

#[test]
fn lines_about_javascript_and_cookies_are_recognised() {
    assert!(bff::filter::check_javascript("please enable javascript to go on"));
    assert!(bff::filter::check_javascript("javascript is required by this browser"));
    assert!(!bff::filter::check_javascript("javascript is a language"));
    assert!(!bff::filter::check_javascript("enable the browser"));
    assert!(bff::filter::check_cookie("this site uses cookies"));
    assert!(bff::filter::check_cookie("see our privacy policy"));
    assert!(!bff::filter::check_cookie("i like cookies"));
    assert!(bff::filter::contains("abc", ""));
    assert!(!bff::filter::contains("abc", "abcd"));
}

#[test]
fn token_cache_keeps_the_words_of_a_text() {
    let f = CacheTokenFilter { lang: "en".to_string() };
    let out = f.filter(Some("  Hello, world  "), None);
    assert!(out.keep);
    assert_eq!(out.words, Some(words(&["Hello", ",", "world"])));
    let held = words(&[" kept ", "words"]);
    let out = f.filter(Some("anything"), Some(&held));
    assert_eq!(out.words, Some(words(&["kept", "words"])));
    let out = f.filter(Some(" \n "), None);
    assert!(!out.keep && out.words.is_none());
    let out = f.filter(None, Some(&held));
    assert!(!out.keep && out.words.is_none());
    assert!(UncacheTokenFilter.filter());
}

#[test]
fn contractions_are_split_where_the_tokenizer_can() {
    let tokens = split_words("I don't, we can’t", None, "en", false, false).unwrap();
    assert_eq!(tokens, vec!["I", "do", "n't", ",", "we", "ca", "n’t"]);
    let tokens = split_words("l'avion", None, "fr", false, false).unwrap();
    assert_eq!(tokens, vec!["l'", "avion"]);
}

#[test]
fn a_contraction_behind_a_wide_character_is_refused() {
    use_refusal();
}

fn use_refusal() {
    let refused = Err(bff::quality::SplitError::Contraction);
    assert_eq!(split_words("café'n't", None, "en", false, false), refused);
    assert_eq!(split_words("x é’n’t y", None, "en", true, true), refused);
    assert!(split_words("café'n't", None, "fr", false, false).is_ok());
    assert!(split_words("café'n't", None, "de", false, false).is_ok());
    assert!(split_words("café's", None, "en", false, false).is_ok());
    assert!(bff::quality::segment_splits("don't"));
    assert!(bff::quality::segment_splits("a'n't"));
    assert!(!bff::quality::segment_splits("é'n't"));
    assert!(!bff::quality::segment_splits("'n't"));
    assert!(bff::quality::segment_splits("é'nt"));
    assert!(bff::quality::segment_splits("é’n't"));
    assert!(!bff::quality::text_can_be_tokenized("so café'n't", "en"));
    assert!(bff::quality::text_can_be_tokenized("so café'n't", "any"));
    let held = words(&["kept"]);
    assert_eq!(split_words("café'n't", Some(&held), "en", false, false), Ok(words(&["kept"])));
    let f = CacheTokenFilter { lang: "en".to_string() };
    let out = f.filter(Some("café'n't"), None);
    assert!(!out.keep && out.words.is_none());
}
