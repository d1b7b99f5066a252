use caserank::advise::{chrono_like_now_iso, generate_advisors_for_case, uid, uid_from};
use caserank::model::CaseItem;

fn empty_case() -> CaseItem {
    CaseItem {
        id: "c".to_string(),
        title: "t".to_string(),
        query: String::new(),
        time_from: String::new(),
        time_to: String::new(),
        max_results: None,
        actors: Vec::new(),
    }
}

#[test]
fn uid_from_formats_prefix_and_millis() {
    assert_eq!(uid_from("ADV", 0), "ADV_0");
    assert_eq!(uid_from("ADV", 1700000000123), "ADV_1700000000123");
}

#[test]
fn uid_carries_the_prefix() {
    let id = uid("ADV");
    assert!(id.starts_with("ADV_"));
    assert!(id["ADV_".len()..].chars().all(|c| c.is_ascii_digit()));
}

#[test]
fn fixed_timestamp_shape() {
    assert_eq!(chrono_like_now_iso(), "1970-01-01T00:00:00Z");
}

#[test]
fn advisors_are_three_fixed_entries() {
    let case = empty_case();
    let out = generate_advisors_for_case(&case, &[]);
    assert_eq!(out.len(), 3);

    assert_eq!(out[0].title, "증빙 정리");
    assert_eq!(out[0].level, "info");
    assert_eq!(out[0].tags, vec!["정리".to_string()]);
    assert_eq!(out[0].rule_id.as_deref(), Some("proto:pack"));

    assert_eq!(out[1].title, "상대에게 전달");
    assert_eq!(out[1].level, "warn");
    assert_eq!(out[1].tags, vec!["대화".to_string()]);
    assert_eq!(out[1].rule_id.as_deref(), Some("proto:talk"));

    assert_eq!(out[2].title, "후속 조치");
    assert_eq!(out[2].level, "info");
    assert_eq!(out[2].tags, vec!["후속".to_string()]);
    assert_eq!(out[2].rule_id.as_deref(), Some("proto:follow"));

    for a in &out {
        assert_eq!(a.ts, "1970-01-01T00:00:00Z");
        assert_eq!(a.state, "active");
        assert!(a.id.starts_with("ADV_"));
        assert!(!a.body.is_empty());
    }
}
