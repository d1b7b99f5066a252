use caserank::model::{ActorRef, CaseItem, RankOpts, RankWeights, RecordItem};
use caserank::rank::rank_records_for_case;

fn actor(kind: &str, name: &str) -> ActorRef {
    ActorRef { kind: kind.to_string(), name: name.to_string() }
}

fn record(id: &str, ts: &str, actor_name: &str, related: Vec<&str>, summary: &str) -> RecordItem {
    RecordItem {
        id: id.to_string(),
        ts: ts.to_string(),
        store_type: "note".to_string(),
        store_other: String::new(),
        lv: "normal".to_string(),
        actor: actor("person", actor_name),
        related: related.into_iter().map(|n| actor("person", n)).collect(),
        place: "office".to_string(),
        place_other: String::new(),
        summary: summary.to_string(),
    }
}

fn case_with(query: &str, from: &str, to: &str, actors: Vec<&str>) -> CaseItem {
    CaseItem {
        id: "case-1".to_string(),
        title: "case".to_string(),
        query: query.to_string(),
        time_from: from.to_string(),
        time_to: to.to_string(),
        max_results: None,
        actors: actors.into_iter().map(|n| actor("person", n)).collect(),
    }
}

fn opts_max(k: u32) -> Option<RankOpts> {
    Some(RankOpts { max_results: Some(k), weights: None, min_score: None, min_text_sim: None })
}

#[test]
fn main_actor_included_despite_low_score() {
    // One record of the main actor, empty summary, actor weight forced to
    // zero so the score is far below the minimum: still included.
    let records = vec![record("r1", "2024-01-01T00:00:00", "Kim", vec![], "")];
    let case = case_with("", "", "", vec!["Kim"]);
    let opts = Some(RankOpts {
        max_results: None,
        weights: Some(RankWeights { actor: Some(0), related: None, text: None }),
        min_score: None,
        min_text_sim: None,
    });
    let out = rank_records_for_case(&records, &case, opts);
    assert_eq!(out.len(), 1);
    assert_eq!(out[0].id, "r1");
    assert_eq!(out[0].rank, 1);
    assert!(out[0].components.is_main_actor);
    assert_eq!(out[0].score.whole, 0);
    assert!(out[0].reasons.contains(&"main actor (always included)".to_string()));
}

#[test]
fn no_matches_gives_empty_output() {
    let mut records = Vec::new();
    for i in 0..100 {
        records.push(record(
            &format!("r{}", i),
            "2024-01-01T00:00:00",
            "Nobody",
            vec![],
            "unrelated text",
        ));
    }
    let case = case_with("", "", "", vec!["Kim"]);
    let out = rank_records_for_case(&records, &case, None);
    assert!(out.is_empty());
}

#[test]
fn equal_score_and_time_break_ties_by_id() {
    // Both records match the second case actor, same score, same
    // timestamp; the smaller id ranks first.
    let records = vec![
        record("b", "2024-01-01T00:00:00", "Kim", vec![], ""),
        record("a", "2024-01-01T00:00:00", "Kim", vec![], ""),
    ];
    let case = case_with("", "", "", vec!["Boss", "Kim"]);
    let out = rank_records_for_case(&records, &case, None);
    assert_eq!(out.len(), 2);
    assert_eq!(out[0].id, "a");
    assert_eq!(out[1].id, "b");
}

#[test]
fn query_token_hits_as_substring() {
    // "meeting" occurs inside "meetings": the inflected form still counts.
    let records = vec![record("r1", "2024-01-01T00:00:00", "Lee", vec![], "team meetings weekly")];
    let case = case_with("meeting", "", "", vec![]);
    let out = rank_records_for_case(&records, &case, None);
    assert_eq!(out.len(), 1);
    assert_eq!(out[0].components.q_hit, 1);
    assert_eq!(out[0].components.q_total, 1);
    // score = 2.0 * 1/1 = 2.00, denominator 1
    assert_eq!(out[0].score.whole, 200);
    assert_eq!(out[0].score.frac_num, 0);
    assert_eq!(out[0].score.frac_den, 1);
    assert!(out[0].reasons.contains(&"keyword 1/1".to_string()));
}

#[test]
fn cap_of_one_keeps_most_recent_main_hit() {
    let records = vec![
        record("old", "2024-01-01T00:00:00", "Kim", vec![], ""),
        record("new", "2024-02-01T00:00:00", "Kim", vec![], ""),
    ];
    let case = case_with("", "", "", vec!["Kim"]);
    let out = rank_records_for_case(&records, &case, opts_max(1));
    assert_eq!(out.len(), 1);
    assert_eq!(out[0].id, "new");
}

#[test]
fn main_hits_sorted_most_recent_first() {
    let records = vec![
        record("old", "2024-01-01T00:00:00", "Kim", vec![], ""),
        record("new", "2024-03-01T00:00:00", "Kim", vec![], ""),
        record("mid", "2024-02-01T00:00:00", "Kim", vec![], ""),
    ];
    let case = case_with("", "", "", vec!["Kim"]);
    let out = rank_records_for_case(&records, &case, None);
    let ids: Vec<&str> = out.iter().map(|h| h.id.as_str()).collect();
    assert_eq!(ids, vec!["new", "mid", "old"]);
    let ranks: Vec<u32> = out.iter().map(|h| h.rank).collect();
    assert_eq!(ranks, vec![1, 2, 3]);
}

#[test]
fn time_window_excludes_even_main_actor_records() {
    let records = vec![
        record("early", "2020-05-01T00:00:00", "Kim", vec![], ""),
        record("late", "2022-05-01T00:00:00", "Kim", vec![], ""),
    ];
    let case = case_with("", "2021-01-01", "", vec!["Kim"]);
    let out = rank_records_for_case(&records, &case, None);
    assert_eq!(out.len(), 1);
    assert_eq!(out[0].id, "late");
    assert_eq!(out[0].components.in_range, Some(true));
    assert!(out[0].reasons.contains(&"in range".to_string()));
}

#[test]
fn related_duplicates_each_count() {
    let records = vec![record(
        "r1",
        "2024-01-01T00:00:00",
        "X",
        vec!["Kim", "Kim", "Kim"],
        "",
    )];
    let case = case_with("", "", "", vec!["Boss", "Kim"]);
    let out = rank_records_for_case(&records, &case, None);
    assert_eq!(out.len(), 1);
    assert_eq!(out[0].components.related_hits, 3);
    // score = 3 * 1.0 = 3.00
    assert_eq!(out[0].score.whole, 300);
    assert!(out[0].reasons.contains(&"related match 3".to_string()));
}

#[test]
fn empty_query_admits_only_actor_or_related() {
    // With an empty query, a record matching on text alone is dropped.
    let records = vec![
        record("text-only", "2024-01-01T00:00:00", "X", vec![], "important meeting"),
        record("actor-hit", "2024-01-01T00:00:00", "Kim", vec![], ""),
    ];
    let case = case_with("", "", "", vec!["Boss", "Kim"]);
    let out = rank_records_for_case(&records, &case, None);
    assert_eq!(out.len(), 1);
    assert_eq!(out[0].id, "actor-hit");
}

#[test]
fn output_never_exceeds_cap() {
    let mut records = Vec::new();
    for i in 0..5 {
        records.push(record(&format!("r{}", i), "2024-01-01T00:00:00", "Kim", vec![], ""));
    }
    let case = case_with("", "", "", vec!["Boss", "Kim"]);
    let out = rank_records_for_case(&records, &case, opts_max(2));
    assert_eq!(out.len(), 2);
}

#[test]
fn no_id_appears_twice() {
    let records = vec![
        record("a", "2024-01-01T00:00:00", "Kim", vec![], ""),
        record("b", "2024-01-02T00:00:00", "Lee", vec!["Kim"], ""),
        record("c", "2024-01-03T00:00:00", "Kim", vec![], ""),
    ];
    let case = case_with("", "", "", vec!["Kim"]);
    let out = rank_records_for_case(&records, &case, None);
    for i in 0..out.len() {
        for j in (i + 1)..out.len() {
            assert_ne!(out[i].id, out[j].id);
        }
    }
    assert_eq!(out.len(), 3);
}

#[test]
fn candidates_ranked_by_score_then_time_then_id() {
    // r1 scores 3.5 (actor + related), r2 scores 2.5 (actor only); then two
    // equal-score records ordered by timestamp descending.
    let records = vec![
        record("low-old", "2024-01-01T00:00:00", "Kim", vec![], ""),
        record("high", "2024-01-01T00:00:00", "Kim", vec!["Boss"], ""),
        record("low-new", "2024-01-05T00:00:00", "Kim", vec![], ""),
    ];
    let case = case_with("", "", "", vec!["Boss", "Kim"]);
    let out = rank_records_for_case(&records, &case, None);
    let ids: Vec<&str> = out.iter().map(|h| h.id.as_str()).collect();
    assert_eq!(ids, vec!["high", "low-new", "low-old"]);
}

#[test]
fn same_inputs_give_identical_output() {
    let records = vec![
        record("a", "2024-01-01T00:00:00", "Kim", vec!["Boss"], "quarterly meeting notes"),
        record("b", "2024-01-02T00:00:00", "Lee", vec!["Kim", "Kim"], "sales report"),
        record("c", "2024-01-03T00:00:00", "Boss", vec![], "meeting after meeting"),
    ];
    let case = case_with("meeting report", "2023-12-31", "2025-01-01", vec!["Kim", "Boss"]);
    let out1 = rank_records_for_case(&records, &case, opts_max(10));
    let out2 = rank_records_for_case(&records, &case, opts_max(10));
    assert_eq!(out1.len(), out2.len());
    for (h1, h2) in out1.iter().zip(out2.iter()) {
        assert_eq!(h1.id, h2.id);
        assert_eq!(h1.rank, h2.rank);
        assert_eq!(h1.score, h2.score);
        assert_eq!(h1.reasons, h2.reasons);
        assert_eq!(h1.components, h2.components);
    }
}

#[test]
fn min_score_threshold_drops_weak_candidates() {
    // Text-only hit: 1 of 2 tokens found, ratio 0.5, score = 2.0 * 0.5 =
    // 1.0; a minimum score of 1.01 drops it, 1.00 keeps it.
    let records = vec![record("r1", "2024-01-01T00:00:00", "X", vec![], "budget plans")];
    let case = case_with("budget meeting", "", "", vec![]);
    let keep = Some(RankOpts {
        max_results: None,
        weights: None,
        min_score: Some(100),
        min_text_sim: None,
    });
    let drop = Some(RankOpts {
        max_results: None,
        weights: None,
        min_score: Some(101),
        min_text_sim: None,
    });
    let kept = rank_records_for_case(&records, &case, keep);
    assert_eq!(kept.len(), 1);
    // score = 2.0 * 1/2 = 1.00: whole part 100, fraction 0/2
    assert_eq!(kept[0].score.whole, 100);
    assert_eq!(kept[0].score.frac_num, 0);
    assert_eq!(kept[0].score.frac_den, 2);
    assert!(kept[0].reasons.contains(&"keyword 1/2".to_string()));
    let dropped = rank_records_for_case(&records, &case, drop);
    assert!(dropped.is_empty());
}

#[test]
fn min_text_sim_gates_text_only_candidates() {
    // 1 of 3 tokens found: ratio 1/3 < 0.34 and the score 2/3 < 0.8, so
    // the record is dropped; lowering both thresholds keeps it.
    let records = vec![record("r1", "2024-01-01T00:00:00", "X", vec![], "annual budget")];
    let case = case_with("budget meeting notes", "", "", vec![]);
    let out = rank_records_for_case(&records, &case, None);
    assert!(out.is_empty());
    let lenient = Some(RankOpts {
        max_results: None,
        weights: None,
        min_score: Some(0),
        min_text_sim: Some(33),
    });
    let kept = rank_records_for_case(&records, &case, lenient);
    assert_eq!(kept.len(), 1);
    // score = 2.0 * 1/3: whole 66, remainder 2/3 of a hundredth
    assert_eq!(kept[0].score.whole, 66);
    assert_eq!(kept[0].score.frac_num, 2);
    assert_eq!(kept[0].score.frac_den, 3);
}

#[test]
fn case_max_results_used_when_options_absent() {
    let mut records = Vec::new();
    for i in 0..4 {
        records.push(record(&format!("r{}", i), "2024-01-01T00:00:00", "Kim", vec![], ""));
    }
    let mut case = case_with("", "", "", vec!["Kim"]);
    case.max_results = Some(3);
    let out = rank_records_for_case(&records, &case, None);
    assert_eq!(out.len(), 3);
}

#[test]
fn actor_names_match_normalized_not_raw() {
    // Case folding and zero-width stripping make the names equal.
    let records = vec![record("r1", "2024-01-01T00:00:00", "KIM\u{200B} jun", vec![], "")];
    let case = case_with("", "", "", vec!["kim JUN"]);
    let out = rank_records_for_case(&records, &case, None);
    assert_eq!(out.len(), 1);
    assert!(out[0].components.is_main_actor);
}

#[test]
fn empty_actor_names_never_match() {
    let records = vec![record("r1", "2024-01-01T00:00:00", "  \u{200B} ", vec![], "")];
    let case = case_with("", "", "", vec![" \u{FEFF}  "]);
    let out = rank_records_for_case(&records, &case, None);
    assert!(out.is_empty());
}

#[test]
fn candidates_fill_after_main_hits() {
    let records = vec![
        record("cand", "2024-05-01T00:00:00", "Lee", vec![], ""),
        record("main", "2024-01-01T00:00:00", "Kim", vec![], ""),
    ];
    let case = case_with("", "", "", vec!["Kim", "Lee"]);
    let out = rank_records_for_case(&records, &case, None);
    // The main hit comes first although the candidate is more recent.
    assert_eq!(out.len(), 2);
    assert_eq!(out[0].id, "main");
    assert_eq!(out[1].id, "cand");
    assert!(out[1].reasons.contains(&"actor match".to_string()));
}

#[test]
fn default_cap_is_eighty() {
    let mut records = Vec::new();
    for i in 0..100 {
        records.push(record(&format!("r{:03}", i), "2024-01-01T00:00:00", "Kim", vec![], ""));
    }
    let case = case_with("", "", "", vec!["Boss", "Kim"]);
    let out = rank_records_for_case(&records, &case, None);
    assert_eq!(out.len(), 80);
}

#[test]
fn duplicate_id_candidate_is_skipped_but_uses_a_slot() {
    // Two records share the id "x": one is a main hit, the other a
    // candidate.  The candidate is skipped by deduplication, and the slot
    // it consumed is not refilled.
    let records = vec![
        record("x", "2024-01-01T00:00:00", "Kim", vec![], ""),
        record("x", "2024-01-02T00:00:00", "Lee", vec![], ""),
        record("y", "2024-01-01T00:00:00", "Lee", vec![], ""),
    ];
    let case = case_with("", "", "", vec!["Kim", "Lee"]);
    let out = rank_records_for_case(&records, &case, opts_max(2));
    // Slot one: the main hit "x".  Slot two went to the more recent
    // candidate "x", which was dropped as a duplicate; "y" does not move up.
    assert_eq!(out.len(), 1);
    assert_eq!(out[0].id, "x");
    assert!(out[0].components.is_main_actor);
}

#[test]
fn empty_inputs_yield_empty_output() {
    let case = case_with("", "", "", vec![]);
    let out = rank_records_for_case(&[], &case, None);
    assert!(out.is_empty());
    let records = vec![record("r1", "2024-01-01T00:00:00", "Kim", vec![], "notes")];
    let out2 = rank_records_for_case(&records, &case, None);
    assert!(out2.is_empty());
}
