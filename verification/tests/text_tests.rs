use caserank::opts::{resolve_rank_opts, ResolvedRankOpts};
use caserank::model::{CaseItem, RankOpts, RankWeights};
use caserank::paper::wrap_every;
use caserank::text::{
    is_kept_token, is_space, is_word_char, norm, str_lt, text_similarity_stats, tokenize,
    u128_to_dec, u64_to_dec, within_range, contains_str,
};

fn empty_case() -> CaseItem {
    CaseItem {
        id: "c".to_string(),
        title: "t".to_string(),
        query: String::new(),
        time_from: String::new(),
        time_to: String::new(),
        max_results: None,
        actors: Vec::new(),
    }
}

#[test]
fn norm_lowercases_and_collapses_whitespace() {
    assert_eq!(norm("  HeLLo \t WORLD  "), "hello world");
    assert_eq!(norm(""), "");
    assert_eq!(norm(" \t\n "), "");
}

#[test]
fn norm_strips_zero_width_marks() {
    assert_eq!(norm("Ki\u{200B}m\u{200C}\u{200D}\u{FEFF}"), "kim");
    // A zero-width mark between words glues them together.
    assert_eq!(norm("a\u{200B}b"), "ab");
}

#[test]
fn tokenize_splits_on_non_word_characters() {
    assert_eq!(tokenize("Hello, world! Meeting-notes"), vec!["hello", "world", "meeting", "notes"]);
}

#[test]
fn tokenize_drops_short_ascii_but_keeps_single_hangul() {
    // One ASCII letter is one byte: dropped.  One Hangul syllable is three
    // bytes: kept.
    assert_eq!(tokenize("a 회의 b 김"), vec!["회의", "김"]);
}

#[test]
fn tokenize_empty_and_whitespace() {
    assert_eq!(tokenize(""), Vec::<String>::new());
    assert_eq!(tokenize("   .,;  "), Vec::<String>::new());
}

#[test]
fn word_chars_cover_ascii_and_hangul() {
    assert!(is_word_char('a' as u32));
    assert!(is_word_char('Z' as u32));
    assert!(is_word_char('7' as u32));
    assert!(is_word_char('가' as u32));
    assert!(is_word_char('ㄱ' as u32));
    assert!(is_word_char('ㅏ' as u32));
    assert!(!is_word_char(' ' as u32));
    assert!(!is_word_char('-' as u32));
    assert!(!is_word_char('é' as u32));
}

#[test]
fn space_detection_matches_unicode_whitespace() {
    for c in ['\t', '\n', '\r', ' ', '\u{00A0}', '\u{2003}', '\u{3000}'] {
        assert!(is_space(c), "{:?}", c);
        assert!(c.is_whitespace(), "{:?}", c);
    }
    for c in ['a', '_', '\u{200B}'] {
        assert!(!is_space(c), "{:?}", c);
        assert!(!c.is_whitespace(), "{:?}", c);
    }
}

#[test]
fn kept_token_is_two_utf8_bytes() {
    assert!(is_kept_token("ab"));
    assert!(is_kept_token("김"));
    assert!(is_kept_token("é"));
    assert!(!is_kept_token("a"));
    assert!(!is_kept_token(""));
}

#[test]
fn str_lt_is_lexicographic() {
    assert!(str_lt("2024-01-01", "2024-01-02"));
    assert!(!str_lt("2024-01-02", "2024-01-01"));
    assert!(!str_lt("abc", "abc"));
    assert!(str_lt("ab", "abc"));
    assert!(str_lt("", "a"));
}

#[test]
fn contains_str_finds_substrings() {
    assert!(contains_str("team meetings weekly", "meeting"));
    assert!(contains_str("abc", ""));
    assert!(!contains_str("abc", "abcd"));
    assert!(!contains_str("", "a"));
    assert!(contains_str("회의록 정리", "회의"));
}

#[test]
fn within_range_inclusive_bounds() {
    assert!(within_range("2024-01-05", "2024-01-05", "2024-01-05"));
    assert!(within_range("2024-01-05", "", ""));
    assert!(!within_range("2024-01-04", "2024-01-05", ""));
    assert!(!within_range("2024-01-06", "", "2024-01-05"));
    assert!(within_range("2024-01-06", "2024-01-05", ""));
}

#[test]
fn similarity_counts_token_coverage() {
    let tokens = tokenize("budget meeting notes");
    let (hit, total) = text_similarity_stats(&tokens, "Annual Budget MEETING minutes");
    assert_eq!((hit, total), (2, 3));
    let none: Vec<String> = Vec::new();
    assert_eq!(text_similarity_stats(&none, "anything"), (0, 0));
}

#[test]
fn decimal_formatting() {
    assert_eq!(u64_to_dec(0), "0");
    assert_eq!(u64_to_dec(7), "7");
    assert_eq!(u64_to_dec(12345), "12345");
    assert_eq!(u64_to_dec(u64::MAX), u64::MAX.to_string());
    assert_eq!(u128_to_dec(340282366920938463463374607431768211455), u128::MAX.to_string());
}

#[test]
fn wrap_every_inserts_spaces() {
    assert_eq!(wrap_every("abcdef", 2), "ab cd ef");
    assert_eq!(wrap_every("abcde", 2), "ab cd e");
    assert_eq!(wrap_every("abc", 0), "abc");
    assert_eq!(wrap_every("", 3), "");
}

#[test]
fn options_resolve_to_documented_defaults() {
    let case = empty_case();
    let r = resolve_rank_opts(&case, &None);
    assert_eq!(
        r,
        ResolvedRankOpts {
            k: 80,
            w_actor: 250,
            w_related: 100,
            w_text: 200,
            min_score: 80,
            min_text_sim: 34,
        }
    );
}

#[test]
fn max_results_clamped_to_bounds() {
    let case = empty_case();
    let big = Some(RankOpts {
        max_results: Some(1000),
        weights: None,
        min_score: None,
        min_text_sim: None,
    });
    assert_eq!(resolve_rank_opts(&case, &big).k, 400);
    let zero = Some(RankOpts {
        max_results: Some(0),
        weights: None,
        min_score: None,
        min_text_sim: None,
    });
    assert_eq!(resolve_rank_opts(&case, &zero).k, 1);
}

#[test]
fn weights_fall_back_individually() {
    let case = empty_case();
    let opts = Some(RankOpts {
        max_results: None,
        weights: Some(RankWeights { actor: Some(500), related: None, text: Some(0) }),
        min_score: Some(10),
        min_text_sim: None,
    });
    let r = resolve_rank_opts(&case, &opts);
    assert_eq!(r.w_actor, 500);
    assert_eq!(r.w_related, 100);
    assert_eq!(r.w_text, 0);
    assert_eq!(r.min_score, 10);
    assert_eq!(r.min_text_sim, 34);
}
