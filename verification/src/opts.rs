//! Resolution of ranking options.
//!
//! Absent option fields fall back to the case descriptor (for the result
//! cap) and then to the documented defaults; the result cap is clamped to
//! `[1, 400]`.  The resolution function returns a fully populated options
//! record, so no defaulting is scattered through the scoring code.

use vstd::prelude::*;
use crate::model::{CaseItem, RankOpts, RankWeights};

verus! {

/// Default result cap.
pub const DEFAULT_MAX_RESULTS: u32 = 80;

/// Smallest allowed result cap.
pub const MIN_MAX_RESULTS: u32 = 1;

/// Largest allowed result cap.
pub const MAX_MAX_RESULTS: u32 = 400;

/// Default actor weight, in hundredths (2.5).
pub const DEFAULT_W_ACTOR: u32 = 250;

/// Default related weight, in hundredths (1.0).
pub const DEFAULT_W_RELATED: u32 = 100;

/// Default text weight, in hundredths (2.0).
pub const DEFAULT_W_TEXT: u32 = 200;

/// Default minimum candidate score, in hundredths (0.8).
pub const DEFAULT_MIN_SCORE: u32 = 80;

/// Default minimum text similarity, in hundredths (0.34).
pub const DEFAULT_MIN_TEXT_SIM: u32 = 34;

/// Fully populated ranking options.
#[derive(Debug, Clone, Copy, PartialEq, Eq)]
pub struct ResolvedRankOpts {
    /// The result cap, clamped to `[1, 400]`.
    pub k: usize,
    /// Actor weight, in hundredths.
    pub w_actor: u32,
    /// Related weight, in hundredths.
    pub w_related: u32,
    /// Text weight, in hundredths.
    pub w_text: u32,
    /// Minimum candidate score, in hundredths.
    pub min_score: u32,
    /// Minimum text similarity, in hundredths.
    pub min_text_sim: u32,
}

/// The resolved options: each field from the options when present, the
/// result cap falling back to the case descriptor, and every field falling
/// back to its default.
pub open spec fn resolved_of(case: CaseItem, opts: Option<RankOpts>) -> ResolvedRankOpts {
    let raw_k = match opts {
        Some(o) => match o.max_results {
            Some(v) => v,
            None => match case.max_results {
                Some(v) => v,
                None => DEFAULT_MAX_RESULTS,
            },
        },
        None => match case.max_results {
            Some(v) => v,
            None => DEFAULT_MAX_RESULTS,
        },
    };
    let k = if raw_k < MIN_MAX_RESULTS {
        MIN_MAX_RESULTS
    } else if raw_k > MAX_MAX_RESULTS {
        MAX_MAX_RESULTS
    } else {
        raw_k
    };
    let w = match opts {
        Some(o) => o.weights,
        None => None,
    };
    ResolvedRankOpts {
        k: k as usize,
        w_actor: match w {
            Some(x) => match x.actor {
                Some(v) => v,
                None => DEFAULT_W_ACTOR,
            },
            None => DEFAULT_W_ACTOR,
        },
        w_related: match w {
            Some(x) => match x.related {
                Some(v) => v,
                None => DEFAULT_W_RELATED,
            },
            None => DEFAULT_W_RELATED,
        },
        w_text: match w {
            Some(x) => match x.text {
                Some(v) => v,
                None => DEFAULT_W_TEXT,
            },
            None => DEFAULT_W_TEXT,
        },
        min_score: match opts {
            Some(o) => match o.min_score {
                Some(v) => v,
                None => DEFAULT_MIN_SCORE,
            },
            None => DEFAULT_MIN_SCORE,
        },
        min_text_sim: match opts {
            Some(o) => match o.min_text_sim {
                Some(v) => v,
                None => DEFAULT_MIN_TEXT_SIM,
            },
            None => DEFAULT_MIN_TEXT_SIM,
        },
    }
}

/// The resolved result cap lies in `[1, 400]`.
pub proof fn lemma_resolved_k_bounds(case: CaseItem, opts: Option<RankOpts>)
    ensures
        1 <= resolved_of(case, opts).k <= 400,
{
}

/// Resolves the options against the case descriptor and the defaults.
pub fn resolve_rank_opts(case: &CaseItem, opts: &Option<RankOpts>) -> (r: ResolvedRankOpts)
    ensures
        r == resolved_of(*case, *opts),
{
    let raw_k: u32 = match opts {
        Some(o) => match o.max_results {
            Some(v) => v,
            None => match case.max_results {
                Some(v) => v,
                None => DEFAULT_MAX_RESULTS,
            },
        },
        None => match case.max_results {
            Some(v) => v,
            None => DEFAULT_MAX_RESULTS,
        },
    };
    let k: u32 = if raw_k < MIN_MAX_RESULTS {
        MIN_MAX_RESULTS
    } else if raw_k > MAX_MAX_RESULTS {
        MAX_MAX_RESULTS
    } else {
        raw_k
    };
    let w: Option<RankWeights> = match opts {
        Some(o) => o.weights,
        None => None,
    };
    ResolvedRankOpts {
        k: k as usize,
        w_actor: match w {
            Some(x) => match x.actor {
                Some(v) => v,
                None => DEFAULT_W_ACTOR,
            },
            None => DEFAULT_W_ACTOR,
        },
        w_related: match w {
            Some(x) => match x.related {
                Some(v) => v,
                None => DEFAULT_W_RELATED,
            },
            None => DEFAULT_W_RELATED,
        },
        w_text: match w {
            Some(x) => match x.text {
                Some(v) => v,
                None => DEFAULT_W_TEXT,
            },
            None => DEFAULT_W_TEXT,
        },
        min_score: match opts {
            Some(o) => match o.min_score {
                Some(v) => v,
                None => DEFAULT_MIN_SCORE,
            },
            None => DEFAULT_MIN_SCORE,
        },
        min_text_sim: match opts {
            Some(o) => match o.min_text_sim {
                Some(v) => v,
                None => DEFAULT_MIN_TEXT_SIM,
            },
            None => DEFAULT_MIN_TEXT_SIM,
        },
    }
}

} // verus!
