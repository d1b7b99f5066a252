//! A deterministic ranking and selection engine for timestamped, actor-tagged
//! textual records.
//!
//! Given a pool of records and a case descriptor (query text, actor list,
//! time window, result cap), the engine surfaces every record of the case's
//! main actor together with enough further records, ranked by relevance, to
//! fill the caller's result budget.  Scores are exact rationals held as
//! scaled integers, so equal inputs always give byte-identical output.

pub mod advise;
pub mod model;
pub mod opts;
pub mod paper;
pub mod rank;
pub mod text;
