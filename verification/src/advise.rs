//! Static advisory-text generation.
//!
//! Each invocation produces a fixed small set of canned guidance entries
//! for a case.  Entry ids carry the clock reading at creation, so they are
//! the one place where the output is not a function of the inputs.

use vstd::prelude::*;
use vstd::string::StringExecFns;
use crate::model::CaseItem;
use crate::model::RecordItem;
use crate::text::{dec_str, u128_to_dec};

verus! {

/// One canned guidance entry.
#[derive(Debug, Clone)]
pub struct AdvisorItem {
    /// Entry identifier: a prefix and the clock reading at creation.
    pub id: String,
    /// Creation timestamp.
    pub ts: String,
    /// Short title.
    pub title: String,
    /// Guidance text.
    pub body: String,
    /// Severity label.
    pub level: String,
    /// Topic tags.
    pub tags: Vec<String>,
    /// Lifecycle state.
    pub state: String,
    /// The rule that produced the entry.
    pub rule_id: Option<String>,
}

/// An identifier built from a prefix and a clock reading: the prefix, an
/// underscore and the reading in decimal.
pub open spec fn uid_str(prefix: Seq<char>, m: nat) -> Seq<char> {
    prefix + "_"@ + dec_str(m)
}

/// Relies on `SystemTime::now` and `SystemTime::duration_since`: reads the
/// clock as milliseconds since the Unix epoch.  Nothing is promised of the
/// value.  Panics only when the system clock is before the epoch.
#[verifier::external_body]
fn now_unix_millis() -> u128 {
    std::time::SystemTime::now()
        .duration_since(std::time::UNIX_EPOCH)
        .expect("Time went backwards")
        .as_millis()
}

/// Writes the identifier for `prefix` and the clock reading `millis`.
pub fn uid_from(prefix: &str, millis: u128) -> (r: String)
    ensures
        r@ == uid_str(prefix@, millis as nat),
{
    let mut s = prefix.to_owned();
    s.append("_");
    let num = u128_to_dec(millis);
    s.append(num.as_str());
    s
}

/// A fresh identifier: the prefix and the clock reading now.
pub fn uid(prefix: &str) -> (r: String)
    ensures
        exists|m: nat| r@ == uid_str(prefix@, m),
{
    let millis = now_unix_millis();
    let r = uid_from(prefix, millis);
    proof {
        assert(r@ == uid_str(prefix@, millis as nat));
    }
    r
}

/// The fixed timestamp written on advisory entries.
pub fn chrono_like_now_iso() -> (r: String)
    ensures
        r@ == "1970-01-01T00:00:00Z"@,
{
    "1970-01-01T00:00:00Z".to_owned()
}

/// Whether an advisory entry carries the given fixed texts and a
/// `uid_str`-shaped id.
pub open spec fn advisor_entry_ok(
    a: AdvisorItem,
    title: Seq<char>,
    body: Seq<char>,
    level: Seq<char>,
    tag: Seq<char>,
    rule: Seq<char>,
) -> bool {
    &&& (exists|m: nat| a.id@ == uid_str("ADV"@, m))
    &&& a.ts@ == "1970-01-01T00:00:00Z"@
    &&& a.title@ == title
    &&& a.body@ == body
    &&& a.level@ == level
    &&& a.tags.deep_view() == seq![tag]
    &&& a.state@ == "active"@
    &&& a.rule_id is Some
    &&& a.rule_id->0@ == rule
}

/// Produces the fixed guidance entries for a case: three entries with set
/// titles, bodies, levels, tags and rule ids, each with a fresh id and the
/// fixed timestamp.  The records do not influence the entries.
pub fn generate_advisors_for_case(case_item: &CaseItem, _records: &[RecordItem]) -> (out: Vec<
    AdvisorItem,
>)
    ensures
        out@.len() == 3,
        advisor_entry_ok(
            out@[0],
            "증빙 정리"@,
            "시간순으로 사실만 정리하고, 원본 증빙(녹취/문서/메신저)을 함께 묶어두세요."@,
            "info"@,
            "정리"@,
            "proto:pack"@,
        ),
        advisor_entry_ok(
            out@[1],
            "상대에게 전달"@,
            "감정 표현 대신 사실과 조치만 전달하고, 필요하면 외부 전문기관/관리자 경로를 안내하세요."@,
            "warn"@,
            "대화"@,
            "proto:talk"@,
        ),
        advisor_entry_ok(
            out@[2],
            "후속 조치"@,
            "내부 보고/기록 보관/재발 방지 계획을 남겨두면 추후 방어에 도움이 됩니다."@,
            "info"@,
            "후속"@,
            "proto:follow"@,
        ),
{
    let ts = chrono_like_now_iso();
    let mut out: Vec<AdvisorItem> = Vec::new();

    let mut tags1: Vec<String> = Vec::new();
    tags1.push("정리".to_owned());
    proof {
        assert(tags1.deep_view() =~= seq!["정리"@]);
    }
    out.push(
        AdvisorItem {
            id: uid("ADV"),
            ts: ts.clone(),
            title: "증빙 정리".to_owned(),
            body: "시간순으로 사실만 정리하고, 원본 증빙(녹취/문서/메신저)을 함께 묶어두세요.".to_owned(),
            level: "info".to_owned(),
            tags: tags1,
            state: "active".to_owned(),
            rule_id: Some("proto:pack".to_owned()),
        },
    );

    let mut tags2: Vec<String> = Vec::new();
    tags2.push("대화".to_owned());
    proof {
        assert(tags2.deep_view() =~= seq!["대화"@]);
    }
    out.push(
        AdvisorItem {
            id: uid("ADV"),
            ts: ts.clone(),
            title: "상대에게 전달".to_owned(),
            body: "감정 표현 대신 사실과 조치만 전달하고, 필요하면 외부 전문기관/관리자 경로를 안내하세요.".to_owned(),
            level: "warn".to_owned(),
            tags: tags2,
            state: "active".to_owned(),
            rule_id: Some("proto:talk".to_owned()),
        },
    );

    let mut tags3: Vec<String> = Vec::new();
    tags3.push("후속".to_owned());
    proof {
        assert(tags3.deep_view() =~= seq!["후속"@]);
    }
    out.push(
        AdvisorItem {
            id: uid("ADV"),
            ts,
            title: "후속 조치".to_owned(),
            body: "내부 보고/기록 보관/재발 방지 계획을 남겨두면 추후 방어에 도움이 됩니다.".to_owned(),
            level: "info".to_owned(),
            tags: tags3,
            state: "active".to_owned(),
            rule_id: Some("proto:follow".to_owned()),
        },
    );

    out
}

} // verus!
