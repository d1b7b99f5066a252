//! The data model: records, case descriptors, ranking options and ranked
//! hits.
//!
//! Weights, thresholds and scores are exact rationals held as scaled
//! integers: a weight or threshold field holds hundredths of its value (a
//! weight of `2.5` is stored as `250`), and a [`Score`] holds the scaled
//! score `whole + frac_num / frac_den`, likewise in hundredths.

use vstd::prelude::*;

verus! {

/// A type-and-name reference to an actor.
#[derive(Debug, Clone)]
pub struct ActorRef {
    /// The actor's type tag.
    pub kind: String,
    /// The actor's name; matching uses its normalized form.
    pub name: String,
}

/// A timestamped, actor-tagged textual record.  Immutable input to ranking.
#[derive(Debug, Clone)]
pub struct RecordItem {
    /// Unique identifier.
    pub id: String,
    /// Lexically sortable timestamp: string order equals time order.
    pub ts: String,
    /// Where the record is stored; not consumed by ranking.
    pub store_type: String,
    /// Free-text store detail; not consumed by ranking.
    pub store_other: String,
    /// Sensitivity level; not consumed by ranking.
    pub lv: String,
    /// The record's own actor.
    pub actor: ActorRef,
    /// Secondary actors, in order, possibly with repetitions.
    pub related: Vec<ActorRef>,
    /// Place tag; not consumed by ranking.
    pub place: String,
    /// Free-text place detail; not consumed by ranking.
    pub place_other: String,
    /// Free text scored against the query tokens.
    pub summary: String,
}

/// A case descriptor: what one ranking call is looking for.
#[derive(Debug, Clone)]
pub struct CaseItem {
    /// Case identifier.
    pub id: String,
    /// Case title.
    pub title: String,
    /// Free-text query; may be empty.
    pub query: String,
    /// Inclusive lower time bound; empty means unbounded.
    pub time_from: String,
    /// Inclusive upper time bound; empty means unbounded.
    pub time_to: String,
    /// Result cap; `None` falls back to the options, then the default.
    pub max_results: Option<u32>,
    /// The case's actors; the first one, if its normalized name is
    /// nonempty, is the main actor.
    pub actors: Vec<ActorRef>,
}

/// Scoring weights in hundredths; an absent field falls back to its
/// default (actor `250`, related `100`, text `200`).
#[derive(Debug, Clone, Copy, PartialEq, Eq)]
pub struct RankWeights {
    /// Weight of a direct actor match, in hundredths.
    pub actor: Option<u32>,
    /// Weight of each related-actor hit, in hundredths.
    pub related: Option<u32>,
    /// Weight of the query-token coverage ratio, in hundredths.
    pub text: Option<u32>,
}

/// Ranking options; absent fields fall back to the case descriptor and
/// then to the documented defaults.
#[derive(Debug, Clone, Copy, PartialEq, Eq)]
pub struct RankOpts {
    /// Result cap, clamped to `[1, 400]`; default `80`.
    pub max_results: Option<u32>,
    /// Scoring weights.
    pub weights: Option<RankWeights>,
    /// Minimum score a candidate must reach, in hundredths; default `80`.
    pub min_score: Option<u32>,
    /// Minimum query-token coverage ratio, in hundredths; default `34`.
    pub min_text_sim: Option<u32>,
}

/// An exact score in hundredths: the value is
/// `whole + frac_num / frac_den`, with `frac_num < frac_den`.  All scores
/// of one ranking call share one denominator, so their order is the
/// lexicographic order on `(whole, frac_num)`.
#[derive(Debug, Clone, Copy, PartialEq, Eq)]
pub struct Score {
    /// Integer part, in hundredths.
    pub whole: u128,
    /// Fractional-part numerator, in hundredths.
    pub frac_num: u64,
    /// Fractional-part denominator: the query token count, at least 1.
    pub frac_den: u64,
}

/// The raw sub-scores and the matching and weight context behind one hit.
/// Informational only: it never influences ordering or inclusion.
#[derive(Debug, Clone, PartialEq, Eq)]
pub struct RankedComponents {
    /// How many query tokens occur in the normalized summary.
    pub q_hit: u64,
    /// How many query tokens there are.
    pub q_total: u64,
    /// Whether the record's actor is one of the case's actors.
    pub actor_match: bool,
    /// Whether the record's actor is the case's main actor.
    pub is_main_actor: bool,
    /// How many related entries are case actors, repetitions counted.
    pub related_hits: u64,
    /// Whether the record lies in the time window; `None` when no window
    /// was given.
    pub in_range: Option<bool>,
    /// Actor weight used, in hundredths.
    pub w_actor: u32,
    /// Related weight used, in hundredths.
    pub w_related: u32,
    /// Text weight used, in hundredths.
    pub w_text: u32,
    /// Minimum score used, in hundredths.
    pub min_score: u32,
    /// Minimum text similarity used, in hundredths.
    pub min_text_sim: u32,
    /// The actor contribution to the score, in hundredths.
    pub actor_score: u32,
    /// The related contribution to the score, in hundredths.
    pub related_score: u128,
    /// The text contribution's numerator: `w_text * q_hit`, in hundredths
    /// over the denominator `max(q_total, 1)`.
    pub keyword_score_num: u128,
}

/// One surfaced record: its id, score, dense 1-based rank, reason labels
/// and score components.
#[derive(Debug, Clone)]
pub struct RankedHit {
    /// The surfaced record's id.
    pub id: String,
    /// The record's exact score.
    pub score: Score,
    /// 1-based, gap-free position in the final output.
    pub rank: u32,
    /// Human-readable reason labels, in order.
    pub reasons: Vec<String>,
    /// The raw score components.
    pub components: RankedComponents,
}

} // verus!
