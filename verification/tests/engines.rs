use bff::bloom::BloomFilter;
use bff::both::process_line_both;
use bff::document::RemoveType;
use bff::exact::process_line_exact;
use bff::paragraph::{process_line, process_line_oldboth};
use bff::processor::{process_document, DedupConfig, FileTally};
use bff::ratio::Threshold;
use bff::substring::process_line_substring;
use bff::tokenize::{tokenize, tokenize_indices};

fn filter() -> BloomFilter {
    BloomFilter::with_seeds(1 << 16, vec![[11, 12, 13, 14], [21, 22, 23, 24], [31, 32, 33, 34]])
}

fn words_of(f: &BloomFilter) -> Vec<u32> {
    (0..f.num_words()).map(|i| f.word(i)).collect()
}

fn eighty() -> Threshold {
    Threshold::from_percent(80)
}

#[test]
fn tokens_are_word_segments_without_white_space() {
    assert_eq!(tokenize("The quick (\"brown\")  fox"), vec!["The", "quick", "(", "\"", "brown", "\"", ")", "fox"]);
    assert_eq!(tokenize(" \n\t "), Vec::<&str>::new());
    assert_eq!(tokenize(""), Vec::<&str>::new());
}

#[test]
fn tokens_come_with_byte_offsets() {
    assert_eq!(
        tokenize_indices("Brr, it's 29.3°F!"),
        vec![(0, "Brr"), (3, ","), (5, "it's"), (10, "29.3"), (14, "°"), (16, "F"), (17, "!")]
    );
}

#[test]
fn tokenization_is_repeatable() {
    let text = "naïve café – déjà vu\nline two";
    assert_eq!(tokenize_indices(text), tokenize_indices(text));
}

#[test]
fn paragraph_removal_threshold_080() {
    let mut f = filter();
    let (edit, removed, total) =
        process_line("A B C\nA B C\n", &mut f, 3, 3, RemoveType::Paragraph, eighty(), false, false);
    assert_eq!(edit.text.as_deref(), Some("A B C\n"));
    assert!(edit.duplicate_spans.is_none());
    assert_eq!((removed, total), (6, 12));
    assert!(f.contains(&["A", "B", "C"]));
    assert!(!f.contains(&["B", "C", "A"]));
}

#[test]
fn paragraph_annotation_keeps_text_and_records_spans() {
    let mut f = filter();
    let (edit, removed, total) =
        process_line("A B C\nA B C\n", &mut f, 3, 3, RemoveType::Paragraph, eighty(), false, true);
    assert!(edit.text.is_none());
    assert_eq!(edit.duplicate_spans, Some(vec![(5, 11)]));
    assert_eq!(edit.contained_ngram_count, Some(1));
    assert_eq!((removed, total), (6, 12));
}

#[test]
fn paragraph_mode_twice_without_update_gives_the_same() {
    let mut f = filter();
    f.insert(&["A", "B", "C"]);
    let before = words_of(&f);
    let first = process_line("A B C\nx y z\n", &mut f, 3, 3, RemoveType::Paragraph, eighty(), true, false);
    assert_eq!(words_of(&f), before);
    let second = process_line("A B C\nx y z\n", &mut f, 3, 3, RemoveType::Paragraph, eighty(), true, false);
    assert_eq!(first.0.text, second.0.text);
    assert_eq!(first.0.text.as_deref(), Some("\nx y z\n"));
    assert_eq!((first.1, first.2), (second.1, second.2));
    assert!(!f.contains(&["x", "y", "z"]));
}

#[test]
fn short_units_are_kept_and_never_inserted() {
    let mut f = filter();
    let (edit, removed, _) =
        process_line("a b\na b\n", &mut f, 3, 5, RemoveType::Paragraph, eighty(), false, false);
    assert_eq!(edit.text.as_deref(), Some("a b\na b\n"));
    assert_eq!(removed, 0);
    assert_eq!(f.count_set_bits(), 0);
}

#[test]
fn short_unit_of_enough_tokens_is_one_shingle() {
    let mut f = filter();
    let (edit, _, _) =
        process_line("a b c\na b c", &mut f, 2, 5, RemoveType::Paragraph, eighty(), false, false);
    assert_eq!(edit.text.as_deref(), Some("a b c"));
    assert!(f.contains(&["a", "b", "c"]));
}

#[test]
fn document_mode_threshold_080() {
    let mut f = filter();
    let text = "A B C\nA B C\n";
    let (edit, removed, total) =
        process_line(text, &mut f, 3, 3, RemoveType::Document, eighty(), false, false);
    assert_eq!(edit.text.as_deref(), Some(text));
    assert_eq!((removed, total), (0, 12));
    assert!(f.contains(&["B", "C", "A"]));
    let (edit, removed, total) =
        process_line(text, &mut f, 3, 3, RemoveType::Document, eighty(), false, false);
    assert_eq!(edit.text.as_deref(), Some(""));
    assert_eq!((removed, total), (12, 12));
}

#[test]
fn ratio_at_the_threshold_does_not_remove_a_paragraph() {
    let mut f = filter();
    for g in [["a", "b"], ["b", "c"], ["c", "d"], ["d", "e"]] {
        f.insert(&g);
    }
    // five shingles, four contained: 4/5 is not above 0.8
    let (edit, removed, _) =
        process_line("a b c d e f", &mut f, 2, 2, RemoveType::Paragraph, eighty(), true, false);
    assert_eq!(edit.text.as_deref(), Some("a b c d e f"));
    assert_eq!(removed, 0);
}

#[test]
fn exact_mode() {
    let mut f = filter();
    let (edit, removed, total) = process_line_exact("same body", &mut f, false, false);
    assert!(edit.text.is_none() && !edit.exact_duplicate);
    assert_eq!((removed, total), (0, 9));
    let (edit, removed, total) = process_line_exact("same body", &mut f, false, false);
    assert_eq!(edit.text.as_deref(), Some(""));
    assert!(edit.contained_ngram_count.is_none());
    assert_eq!((removed, total), (9, 9));
    let (edit, _, _) = process_line_exact("same body", &mut f, false, true);
    assert!(edit.text.is_none());
    assert!(edit.exact_duplicate);
    assert!(edit.contained_ngram_count.is_none() && edit.duplicate_spans.is_none());
}

#[test]
fn exact_mode_without_update_never_learns() {
    let mut f = filter();
    process_line_exact("body", &mut f, true, false);
    let (edit, removed, _) = process_line_exact("body", &mut f, true, false);
    assert!(edit.text.is_none());
    assert_eq!(removed, 0);
}

#[test]
fn substring_mode() {
    let mut f = filter();
    f.insert(&["x", "y", "z"]);
    let text = "x y z a b c d e f g x y z h i j";
    let one = Threshold::new(1, 1).unwrap();
    let (edit, removed, total) = process_line_substring(text, &mut f, 3, false, false, 3, one);
    assert_eq!(edit.text.as_deref(), Some("a b c d e f g h i j"));
    assert_eq!((removed, total), (12, 31));
    assert!(f.contains(&["a", "b", "c"]));
    assert!(f.contains(&["h", "i", "j"]));
    assert!(!f.contains(&["z", "a", "b"]));
    assert!(!f.contains(&["g", "x", "y"]));
}

#[test]
fn substring_annotation_reports_byte_intervals() {
    let mut f = filter();
    f.insert(&["x", "y", "z"]);
    let text = "x y z a b c d e f g x y z h i j";
    let one = Threshold::new(1, 1).unwrap();
    let (edit, _, _) = process_line_substring(text, &mut f, 3, true, true, 3, one);
    assert!(edit.text.is_none());
    assert_eq!(edit.duplicate_spans, Some(vec![(0, 6), (20, 26)]));
    assert_eq!(edit.contained_ngram_count, Some(2));
}

#[test]
fn substring_shorter_than_seqlen_stays() {
    let mut f = filter();
    f.insert(&["x", "y", "z"]);
    let one = Threshold::new(1, 1).unwrap();
    let (edit, removed, total) =
        process_line_substring("x y z a b c", &mut f, 3, true, false, 4, one);
    assert_eq!(edit.text.as_deref(), Some("x y z a b c"));
    assert_eq!((removed, total), (0, 11));
}

#[test]
fn substring_text_too_short_is_left_alone() {
    let mut f = filter();
    let one = Threshold::new(1, 1).unwrap();
    let (edit, removed, total) = process_line_substring("x y", &mut f, 3, false, false, 3, one);
    assert!(edit.text.is_none() && edit.duplicate_spans.is_none());
    assert_eq!((removed, total), (0, 3));
}

#[test]
fn substring_fuzzy_threshold_bridges_a_gap() {
    let mut f = filter();
    for g in [["a", "b"], ["b", "c"], ["c", "d"], ["e", "f"], ["f", "g"], ["g", "h"]] {
        f.insert(&g);
    }
    // contained tokens [0,4) and [4,8) but for the shingle (d,e): the runs widen to touch
    let half = Threshold::new(1, 2).unwrap();
    let (edit, _, _) = process_line_substring("a b c d e f g h i", &mut f, 2, true, true, 2, half);
    assert_eq!(edit.duplicate_spans, Some(vec![(0, 16)]));
}

#[test]
fn both_mode_document_level_trigger() {
    let mut f = filter();
    f.insert(&["a", "b"]);
    f.insert(&["d", "e"]);
    let before = words_of(&f);
    let text = "a b c\nd e f";
    let forty = Threshold::from_percent(40);
    let (edit, removed, total) = process_line_both(text, &mut f, 2, 2, forty, false, true);
    assert_eq!(edit.duplicate_spans, Some(vec![(0, 11)]));
    assert_eq!(edit.contained_ngram_count, Some(2));
    assert!(edit.text.is_none());
    assert_eq!((removed, total), (11, 11));
    assert_eq!(words_of(&f), before);
    let (edit, _, _) = process_line_both(text, &mut f, 2, 2, forty, false, false);
    assert_eq!(edit.text.as_deref(), Some(""));
    assert_eq!(words_of(&f), before);
}

#[test]
fn both_mode_removes_a_paragraph_and_drops_crossing_shingles() {
    let mut f = filter();
    f.insert(&["d", "e"]);
    f.insert(&["e", "f"]);
    let text = "a b c\nd e f\ng h i";
    let (edit, removed, total) = process_line_both(text, &mut f, 2, 2, eighty(), false, false);
    assert_eq!(edit.text.as_deref(), Some("a b c\ng h i"));
    assert_eq!((removed, total), (6, 17));
    assert!(f.contains(&["a", "b"]));
    assert!(f.contains(&["g", "h"]));
    // (c,d) ended before the removed paragraph started? No: its last token lies in it.
    assert!(!f.contains(&["c", "d"]));
    assert!(!f.contains(&["f", "g"]));
}

#[test]
fn both_mode_keeps_crossing_shingles_of_kept_paragraphs() {
    let mut f = filter();
    let text = "a b c\nd e f";
    let (edit, removed, _) = process_line_both(text, &mut f, 2, 2, eighty(), false, false);
    assert_eq!(edit.text.as_deref(), Some(text));
    assert_eq!(removed, 0);
    assert!(f.contains(&["c", "d"]));
    assert!(f.contains(&["e", "f"]));
}

#[test]
fn both_mode_short_text_is_one_shingle() {
    let mut f = filter();
    let (edit, _, _) = process_line_both("a b\nc", &mut f, 2, 5, eighty(), false, false);
    assert_eq!(edit.text.as_deref(), Some("a b\nc"));
    assert!(f.contains(&["a", "b", "c"]));
    let (edit, removed, total) = process_line_both("a b\nc", &mut f, 2, 5, eighty(), false, false);
    assert_eq!(edit.text.as_deref(), Some(""));
    assert_eq!((removed, total), (5, 5));
}

#[test]
fn both_mode_text_without_shingles_is_left_alone() {
    let mut f = filter();
    let (edit, removed, total) = process_line_both("a", &mut f, 2, 5, eighty(), false, false);
    assert!(edit.text.is_none());
    assert_eq!((removed, total), (0, 1));
}

#[test]
fn old_both_reports_counts_of_paragraphs() {
    let mut f = filter();
    let (edit, removed, total) =
        process_line_oldboth("A B C\nA B C\n", &mut f, 3, 3, eighty(), false, false);
    assert_eq!(edit.text.as_deref(), Some("A B C\n"));
    assert_eq!(edit.contained_ngram_count_before_dedupe, Some(1));
    assert_eq!((removed, total), (1, 3));
}

#[test]
fn old_both_clears_a_text_of_known_paragraphs() {
    let mut f = filter();
    f.insert(&["A", "B", "C"]);
    f.insert(&["x", "y", "z"]);
    let (edit, removed, total) =
        process_line_oldboth("A B C\nx y z", &mut f, 3, 3, eighty(), false, false);
    assert_eq!(edit.text.as_deref(), Some(""));
    assert_eq!((removed, total), (2, 2));
}

#[test]
fn naive_both_runs_the_document_rule_first() {
    let cfg = DedupConfig {
        min_ngram_size: 3,
        max_ngram_size: 3,
        substr_seqlen: 50,
        filtering_threshold: eighty(),
        remove_type: RemoveType::NaiveBoth,
        no_update_bloom_filter: false,
        annotate: false,
    };
    let mut f = filter();
    let text = "A B C\nA B C\n";
    let (edit, removed, _) = process_document(text, &mut f, &cfg);
    // the document rule keeps the text and inserts its shingles; the paragraph rule then
    // finds both paragraphs known
    assert_eq!(removed, 11);
    assert_eq!(edit.text.as_deref(), Some("\n"));
}

#[test]
fn annotation_never_changes_the_text() {
    for remove_type in [
        RemoveType::Paragraph,
        RemoveType::Document,
        RemoveType::Both,
        RemoveType::NaiveBoth,
        RemoveType::OldBoth,
        RemoveType::Substring,
        RemoveType::Exact,
    ] {
        let cfg = DedupConfig {
            min_ngram_size: 2,
            max_ngram_size: 2,
            substr_seqlen: 2,
            filtering_threshold: Threshold::from_percent(50),
            remove_type,
            no_update_bloom_filter: false,
            annotate: true,
        };
        let mut f = filter();
        for _ in 0..2 {
            let (edit, _, _) = process_document("a b c\na b c", &mut f, &cfg);
            assert!(edit.text.is_none());
        }
    }
}

#[test]
fn tally_skips_blank_documents() {
    let mut f = filter();
    let mut tally = FileTally::new();
    assert!(!tally.has_output());
    let (edit, removed, total) = process_line_exact("x", &mut f, false, false);
    assert!(tally.record("x", &edit, removed, total));
    let (edit, removed, total) = process_line_exact("x", &mut f, false, false);
    assert!(!tally.record("x", &edit, removed, total));
    let (edit, removed, total) = process_line_exact("  \n", &mut f, false, false);
    assert!(!tally.record("  \n", &edit, removed, total));
    assert_eq!(
        tally,
        FileTally { count: 3, fully_skipped: 2, removed_text_bytes: 1, total_text_bytes: 5 }
    );
    assert!(tally.has_output());
}

#[test]
fn substring_duplicates_hold_at_least_seqlen_tokens() {
    let mut f = filter();
    for g in [["a", "b"], ["b", "c"], ["e", "f"], ["h", "i"], ["i", "j"], ["j", "k"]] {
        f.insert(&g);
    }
    let text = "a b c d e f g h i j k l";
    let one = Threshold::new(1, 1).unwrap();
    let located = tokenize_indices(text);
    for seqlen in 0..6 {
        let (edit, _, _) = process_line_substring(text, &mut f, 2, true, true, seqlen, one);
        for (start, end) in edit.duplicate_spans.unwrap() {
            let tokens = located.iter().filter(|(at, _)| start <= *at && *at < end).count();
            assert!(tokens >= seqlen);
        }
    }
    let (edit, _, _) = process_line_substring(text, &mut f, 2, true, true, 3, one);
    assert_eq!(edit.duplicate_spans, Some(vec![(0, 6), (14, 22)]));
}

#[test]
fn both_mode_trims_white_space_at_the_end() {
    let mut f = filter();
    f.insert(&["d", "e"]);
    f.insert(&["e", "f"]);
    let (edit, removed, total) =
        process_line_both("a b c \n\nd e f", &mut f, 2, 2, eighty(), false, false);
    assert_eq!(edit.text.as_deref(), Some("a b c"));
    assert_eq!((removed, total), (6, 13));
}

#[test]
fn substring_mode_trims_white_space_at_the_end() {
    let mut f = filter();
    f.insert(&["x", "y"]);
    let one = Threshold::new(1, 1).unwrap();
    let (edit, removed, total) = process_line_substring("a b x y", &mut f, 2, true, false, 2, one);
    assert_eq!(edit.text.as_deref(), Some("a b"));
    assert_eq!((removed, total), (3, 7));
}

#[test]
fn an_engine_does_not_run_on_a_filter_without_words() {
    let cfg = DedupConfig {
        min_ngram_size: 2,
        max_ngram_size: 0,
        substr_seqlen: 2,
        filtering_threshold: eighty(),
        remove_type: RemoveType::Substring,
        no_update_bloom_filter: false,
        annotate: false,
    };
    let mut f = filter();
    assert!(bff::processor::try_process_document("a b", &mut f, &cfg).is_some());
    let paragraphs = DedupConfig { remove_type: RemoveType::Paragraph, ..cfg };
    assert!(bff::processor::try_process_document("a b", &mut f, &paragraphs).is_some());
    let mut none = BloomFilter::with_seeds(3, Vec::new());
    assert!(bff::processor::try_process_document("a b", &mut none, &paragraphs).is_none());
    assert!(bff::processor::try_process_document("a b", &mut none, &cfg).is_none());
}

#[test]
fn substring_window_of_no_tokens_is_a_window_of_one() {
    let one = Threshold::new(1, 1).unwrap();
    let mut f = filter();
    let (edit, removed, total) = process_line_substring("a b a", &mut f, 0, false, false, 1, one);
    assert_eq!(edit.text.as_deref(), Some("a b a"));
    assert_eq!((removed, total), (0, 5));
    assert!(f.contains(&["a"]) && f.contains(&["b"]));
    let mut g = filter();
    let same = process_line_substring("a b a", &mut g, 1, false, false, 1, one);
    assert_eq!(same.0.text.as_deref(), Some("a b a"));
    assert_eq!(words_of(&f), words_of(&g));
    let (edit, removed, total) = process_line_substring("b c", &mut f, 0, true, true, 1, one);
    assert_eq!(edit.duplicate_spans, Some(vec![(0, 2)]));
    assert_eq!(edit.contained_ngram_count, Some(1));
    assert_eq!((removed, total), (2, 3));
    let (edit, removed, total) = process_line_substring("", &mut f, 0, false, false, 1, one);
    assert!(edit.text.is_none());
    assert_eq!((removed, total), (0, 0));
}

#[test]
fn both_as_a_unit_rule_takes_the_whole_text_above_the_threshold() {
    let third = Threshold::new(3, 10).unwrap();
    let text = "A B C\nA B C\n";
    let mut f = filter();
    let (edit, removed, total) = process_line(text, &mut f, 3, 3, RemoveType::Both, third, false, true);
    assert!(edit.text.is_none());
    assert_eq!(edit.duplicate_spans, Some(vec![(0, 12)]));
    assert_eq!(edit.contained_ngram_count, Some(1));
    assert_eq!((removed, total), (6, 12));
    let mut f = filter();
    let (edit, removed, total) = process_line(text, &mut f, 3, 3, RemoveType::Both, third, false, false);
    assert_eq!(edit.text.as_deref(), Some(""));
    assert_eq!((removed, total), (6, 12));
    assert!(f.contains(&["A", "B", "C"]));
    let mut f = filter();
    let (edit, _, _) = process_line(text, &mut f, 3, 3, RemoveType::Paragraph, third, false, false);
    assert_eq!(edit.text.as_deref(), Some("A B C\n"));
    // one of two shingles is known: not above eight tenths
    let mut f = filter();
    let (edit, _, _) = process_line(text, &mut f, 3, 3, RemoveType::Both, eighty(), false, true);
    assert_eq!(edit.duplicate_spans, Some(vec![(5, 11)]));
}
