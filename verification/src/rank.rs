//! The ranking and selection engine.
//!
//! For every record that survives the time window, the engine computes an
//! exact score, partitions the survivors into main-actor hits (always
//! included) and candidates (included when they pass the inclusion
//! predicate and the minimum score), sorts each group under its own
//! deterministic comparator, merges them under the result cap with
//! deduplication by id, and assigns dense 1-based ranks.
//!
//! The whole pipeline is mirrored by specification functions over record
//! indices; `rank_records_for_case` returns exactly what the specification
//! selects, so equal inputs give equal output.

use vstd::prelude::*;
use vstd::multiset::Multiset;
use vstd::string::StringExecFns;
use crate::model::{ActorRef, CaseItem, RankOpts, RankedComponents, RankedHit, RecordItem, Score};
use crate::opts::{resolve_rank_opts, resolved_of, ResolvedRankOpts};
use crate::text::{
    in_window_str, lex_lt, norm, norm_str, sim_hits, str_lt, text_similarity_stats, tokenize,
    tokens_of, u64_to_dec, within_range, dec_str,
};

verus! {

/// Whether the case constrains the time at all.
pub open spec fn has_range(c: CaseItem) -> bool {
    c.time_from@.len() > 0 || c.time_to@.len() > 0
}

/// Whether the record passes the case's time window.  A record failing it
/// is excluded entirely, main actor or not.
pub open spec fn rec_in_window(r: RecordItem, c: CaseItem) -> bool {
    !has_range(c) || in_window_str(r.ts@, c.time_from@, c.time_to@)
}

/// The normalized case-actor names, skipping the empty ones, in order.
pub open spec fn case_names_spec(actors: Seq<ActorRef>) -> Seq<Seq<char>>
    decreases actors.len(),
{
    if actors.len() == 0 {
        Seq::empty()
    } else {
        let pre = case_names_spec(actors.drop_last());
        let n = norm_str(actors.last().name@);
        if n.len() > 0 {
            pre.push(n)
        } else {
            pre
        }
    }
}

/// The main actor's normalized name: the first case actor's, when nonempty
/// after normalization.
pub open spec fn main_actor_spec(actors: Seq<ActorRef>) -> Option<Seq<char>> {
    if actors.len() > 0 && norm_str(actors[0].name@).len() > 0 {
        Some(norm_str(actors[0].name@))
    } else {
        None
    }
}

/// Whether the record's actor name, normalized, is nonempty and among the
/// case-actor names.
pub open spec fn rec_actor_match(r: RecordItem, actors: Seq<ActorRef>) -> bool {
    norm_str(r.actor.name@).len() > 0 && case_names_spec(actors).contains(norm_str(r.actor.name@))
}

/// Whether the record's actor is the case's main actor: the normalized
/// names are equal, not merely one a substring of the other.
pub open spec fn rec_is_main(r: RecordItem, actors: Seq<ActorRef>) -> bool {
    match main_actor_spec(actors) {
        Some(m) => norm_str(r.actor.name@) == m,
        None => false,
    }
}

/// Whether one related entry counts as a hit.
pub open spec fn rel_hit(a: ActorRef, actors: Seq<ActorRef>) -> bool {
    norm_str(a.name@).len() > 0 && case_names_spec(actors).contains(norm_str(a.name@))
}

/// How many related entries are case actors; repetitions each count.
pub open spec fn related_count(rel: Seq<ActorRef>, actors: Seq<ActorRef>) -> int
    decreases rel.len(),
{
    if rel.len() == 0 {
        0
    } else {
        related_count(rel.drop_last(), actors) + if rel_hit(rel.last(), actors) {
            1int
        } else {
            0int
        }
    }
}

/// The related-hit count is at most the number of related entries.
pub proof fn lemma_related_count_le(rel: Seq<ActorRef>, actors: Seq<ActorRef>)
    ensures
        0 <= related_count(rel, actors) <= rel.len(),
    decreases rel.len(),
{
    if rel.len() > 0 {
        lemma_related_count_le(rel.drop_last(), actors);
    }
}

/// The case's query tokens.
pub open spec fn case_tokens(c: CaseItem) -> Seq<Seq<char>> {
    tokens_of(c.query@)
}

/// How many query tokens occur in the record's normalized summary.
pub open spec fn rec_sim_hits(r: RecordItem, c: CaseItem) -> int {
    sim_hits(case_tokens(c), norm_str(r.summary@))
}

/// The common score denominator of one call: the query token count, or 1
/// when the query has no tokens.
pub open spec fn score_den(c: CaseItem) -> int {
    if case_tokens(c).len() == 0 {
        1
    } else {
        case_tokens(c).len() as int
    }
}

/// The integer part of the score contributed by actor and related matches,
/// in hundredths.
pub open spec fn rec_base(r: RecordItem, c: CaseItem, ro: ResolvedRankOpts) -> int {
    (if rec_actor_match(r, c.actors@) {
        ro.w_actor as int
    } else {
        0
    }) + related_count(r.related@, c.actors@) * (ro.w_related as int)
}

/// The record's score, in hundredths, scaled by the common denominator:
/// `rec_score_num / (100 * score_den)` is the real score.  Scores of one
/// call share the denominator, so this numerator orders them exactly.
pub open spec fn rec_score_num(r: RecordItem, c: CaseItem, ro: ResolvedRankOpts) -> int {
    rec_base(r, c, ro) * score_den(c) + (ro.w_text as int) * rec_sim_hits(r, c)
}

/// The record's exact score in hundredths, as a whole part and a proper
/// fraction over the common denominator.
pub open spec fn score_of(r: RecordItem, c: CaseItem, ro: ResolvedRankOpts) -> Score {
    let p = (ro.w_text as int) * rec_sim_hits(r, c);
    let den = score_den(c);
    Score {
        whole: (rec_base(r, c, ro) + p / den) as u128,
        frac_num: (p % den) as u64,
        frac_den: den as u64,
    }
}

/// The inclusion predicate for records that are not main-actor hits: an
/// actor match, a related hit, or enough query-token coverage.
pub open spec fn passes_logic(r: RecordItem, c: CaseItem, ro: ResolvedRankOpts) -> bool {
    rec_actor_match(r, c.actors@) || related_count(r.related@, c.actors@) > 0 || (case_tokens(
        c,
    ).len() > 0 && 100 * rec_sim_hits(r, c) >= (ro.min_text_sim as int) * case_tokens(c).len())
}

/// A main-actor hit: in the window and belonging to the main actor.
/// Included regardless of score.
pub open spec fn is_main_hit(r: RecordItem, c: CaseItem) -> bool {
    rec_in_window(r, c) && rec_is_main(r, c.actors@)
}

/// A candidate: in the window, not a main-actor hit, passing the inclusion
/// predicate, and scoring at least the minimum score.
pub open spec fn is_candidate(r: RecordItem, c: CaseItem, ro: ResolvedRankOpts) -> bool {
    rec_in_window(r, c) && !rec_is_main(r, c.actors@) && passes_logic(r, c, ro) && rec_score_num(
        r,
        c,
        ro,
    ) >= (ro.min_score as int) * score_den(c)
}

/// Whether record `i` sorts strictly before record `j` among main-actor
/// hits: timestamp descending, then score descending, then id ascending.
pub open spec fn main_before(
    records: Seq<RecordItem>,
    c: CaseItem,
    ro: ResolvedRankOpts,
    i: usize,
    j: usize,
) -> bool {
    let a = records[i as int];
    let b = records[j as int];
    if a.ts@ != b.ts@ {
        lex_lt(b.ts@, a.ts@)
    } else if rec_score_num(a, c, ro) != rec_score_num(b, c, ro) {
        rec_score_num(a, c, ro) > rec_score_num(b, c, ro)
    } else {
        lex_lt(a.id@, b.id@)
    }
}

/// Whether record `i` sorts strictly before record `j` among candidates:
/// score descending, then timestamp descending, then id ascending.
pub open spec fn cand_before(
    records: Seq<RecordItem>,
    c: CaseItem,
    ro: ResolvedRankOpts,
    i: usize,
    j: usize,
) -> bool {
    let a = records[i as int];
    let b = records[j as int];
    if rec_score_num(a, c, ro) != rec_score_num(b, c, ro) {
        rec_score_num(a, c, ro) > rec_score_num(b, c, ro)
    } else if a.ts@ != b.ts@ {
        lex_lt(b.ts@, a.ts@)
    } else {
        lex_lt(a.id@, b.id@)
    }
}

/// The main-hit order as a closure over indices.
pub open spec fn main_lt(records: Seq<RecordItem>, c: CaseItem, ro: ResolvedRankOpts) -> spec_fn(
    usize,
    usize,
) -> bool {
    |i: usize, j: usize| main_before(records, c, ro, i, j)
}

/// The candidate order as a closure over indices.
pub open spec fn cand_lt(records: Seq<RecordItem>, c: CaseItem, ro: ResolvedRankOpts) -> spec_fn(
    usize,
    usize,
) -> bool {
    |i: usize, j: usize| cand_before(records, c, ro, i, j)
}

/// Inserts `x` into `s` after every element it does not sort strictly
/// before: stable insertion.
pub open spec fn insert_ord(s: Seq<usize>, x: usize, lt: spec_fn(usize, usize) -> bool) -> Seq<
    usize,
>
    decreases s.len(),
{
    if s.len() == 0 {
        seq![x]
    } else if lt(x, s.last()) {
        insert_ord(s.drop_last(), x, lt).push(s.last())
    } else {
        s.push(x)
    }
}

/// Stable insertion sort under the strict order `lt`: elements the order
/// does not distinguish keep their input order.
pub open spec fn sort_ord(s: Seq<usize>, lt: spec_fn(usize, usize) -> bool) -> Seq<usize>
    decreases s.len(),
{
    if s.len() == 0 {
        s
    } else {
        insert_ord(sort_ord(s.drop_last(), lt), s.last(), lt)
    }
}

/// The indices below `n` that are main-actor hits, in order.
pub open spec fn main_idx(records: Seq<RecordItem>, c: CaseItem, n: int) -> Seq<usize>
    decreases n,
{
    if n <= 0 {
        Seq::empty()
    } else {
        let pre = main_idx(records, c, n - 1);
        if is_main_hit(records[n - 1], c) {
            pre.push((n - 1) as usize)
        } else {
            pre
        }
    }
}

/// The indices below `n` that are candidates, in order.
pub open spec fn cand_idx(records: Seq<RecordItem>, c: CaseItem, ro: ResolvedRankOpts, n: int) -> Seq<
    usize,
>
    decreases n,
{
    if n <= 0 {
        Seq::empty()
    } else {
        let pre = cand_idx(records, c, ro, n - 1);
        if is_candidate(records[n - 1], c, ro) {
            pre.push((n - 1) as usize)
        } else {
            pre
        }
    }
}

/// Whether some already selected index carries the given id.
pub open spec fn id_present(records: Seq<RecordItem>, sel: Seq<usize>, id: Seq<char>) -> bool {
    exists|i: int| 0 <= i < sel.len() && records[#[trigger] sel[i] as int].id@ == id
}

/// Appends the candidates to the selection in order, skipping any whose id
/// is already selected.  A skipped duplicate still used up its slot.
pub open spec fn fill_cands(records: Seq<RecordItem>, acc: Seq<usize>, cands: Seq<usize>) -> Seq<
    usize,
>
    decreases cands.len(),
{
    if cands.len() == 0 {
        acc
    } else {
        let c0 = cands[0];
        let rest = cands.drop_first();
        if id_present(records, acc, records[c0 as int].id@) {
            fill_cands(records, acc, rest)
        } else {
            fill_cands(records, acc.push(c0), rest)
        }
    }
}

/// The selected record indices, in final output order: the sorted
/// main-actor hits up to the cap, then the first candidates that fit the
/// remaining slots, deduplicated by id.
pub open spec fn selected_idx(
    records: Seq<RecordItem>,
    c: CaseItem,
    opts: Option<RankOpts>,
) -> Seq<usize> {
    let ro = resolved_of(c, opts);
    let k = ro.k as int;
    let mains = sort_ord(main_idx(records, c, records.len() as int), main_lt(records, c, ro));
    let cands = sort_ord(cand_idx(records, c, ro, records.len() as int), cand_lt(records, c, ro));
    let taken = if mains.len() <= k {
        mains
    } else {
        mains.take(k)
    };
    let remain = k - taken.len();
    let cpart = if cands.len() <= remain {
        cands
    } else {
        cands.take(remain)
    };
    fill_cands(records, taken, cpart)
}

/// The reason labels attached to a surfaced record, in order.
pub open spec fn reasons_of(r: RecordItem, c: CaseItem, ro: ResolvedRankOpts) -> Seq<Seq<char>> {
    let base = seq!["auto-ranked"@];
    let with_actor = if rec_is_main(r, c.actors@) {
        base.push("main actor (always included)"@)
    } else if rec_actor_match(r, c.actors@) {
        base.push("actor match"@)
    } else {
        base
    };
    let with_rel = if related_count(r.related@, c.actors@) > 0 {
        with_actor.push("related match "@ + dec_str(related_count(r.related@, c.actors@) as nat))
    } else {
        with_actor
    };
    let with_kw = if case_tokens(c).len() > 0 {
        with_rel.push(
            "keyword "@ + dec_str(rec_sim_hits(r, c) as nat) + "/"@ + dec_str(
                case_tokens(c).len(),
            ),
        )
    } else {
        with_rel
    };
    if has_range(c) {
        with_kw.push(
            if rec_in_window(r, c) {
                "in range"@
            } else {
                "out of range"@
            },
        )
    } else {
        with_kw
    }
}

/// The score components attached to a surfaced record.
pub open spec fn comps_of(r: RecordItem, c: CaseItem, ro: ResolvedRankOpts) -> RankedComponents {
    RankedComponents {
        q_hit: rec_sim_hits(r, c) as u64,
        q_total: case_tokens(c).len() as u64,
        actor_match: rec_actor_match(r, c.actors@),
        is_main_actor: rec_is_main(r, c.actors@),
        related_hits: related_count(r.related@, c.actors@) as u64,
        in_range: if has_range(c) {
            Some(rec_in_window(r, c))
        } else {
            None
        },
        w_actor: ro.w_actor,
        w_related: ro.w_related,
        w_text: ro.w_text,
        min_score: ro.min_score,
        min_text_sim: ro.min_text_sim,
        actor_score: if rec_actor_match(r, c.actors@) {
            ro.w_actor
        } else {
            0
        },
        related_score: (related_count(r.related@, c.actors@) * (ro.w_related as int)) as u128,
        keyword_score_num: ((ro.w_text as int) * rec_sim_hits(r, c)) as u128,
    }
}

/// What one output element says about the record it surfaced.
pub open spec fn hit_matches(
    records: Seq<RecordItem>,
    c: CaseItem,
    ro: ResolvedRankOpts,
    h: RankedHit,
    j: int,
    i: int,
) -> bool {
    &&& h.id == records[j].id
    &&& h.rank == i + 1
    &&& h.score == score_of(records[j], c, ro)
    &&& h.reasons.deep_view() == reasons_of(records[j], c, ro)
    &&& h.components == comps_of(records[j], c, ro)
}

/// The full contract of ranking: the output surfaces exactly the selected
/// indices, in order, each with its rank, exact score, reason labels and
/// components.
pub open spec fn rank_post(
    records: Seq<RecordItem>,
    c: CaseItem,
    opts: Option<RankOpts>,
    out: Seq<RankedHit>,
) -> bool {
    let sel = selected_idx(records, c, opts);
    let ro = resolved_of(c, opts);
    &&& out.len() == sel.len()
    &&& forall|i: int|
        0 <= i < out.len() ==> hit_matches(records, c, ro, #[trigger] out[i], sel[i] as int, i)
}

/// Whether the normalized name `n` is among the case-actor names.
fn contains_name(names: &Vec<String>, n: &String) -> (r: bool)
    ensures
        r == names.deep_view().contains(n@),
{
    let ghost dv = names.deep_view();
    let len: usize = names.len();
    let mut i: usize = 0;
    while i < len
        invariant
            len == names@.len(),
            dv == names.deep_view(),
            0 <= i <= len,
            forall|q: int| 0 <= q < i ==> dv[q] != n@,
        decreases len - i,
    {
        let x = &names[i];
        if (*x) == (*n) {
            proof {
                assert(dv[i as int] == n@);
            }
            return true;
        }
        i = i + 1;
    }
    proof {
        assert(forall|q: int| 0 <= q < dv.len() ==> dv[q] != n@);
    }
    false
}

/// The normalized, nonempty case-actor names, in order.
fn build_case_names(actors: &Vec<ActorRef>) -> (r: Vec<String>)
    ensures
        r.deep_view() == case_names_spec(actors@),
{
    let len: usize = actors.len();
    let mut out: Vec<String> = Vec::new();
    let mut i: usize = 0;
    while i < len
        invariant
            len == actors@.len(),
            0 <= i <= len,
            out.deep_view() == case_names_spec(actors@.subrange(0, i as int)),
        decreases len - i,
    {
        let ghost pre = actors@.subrange(0, i as int);
        proof {
            assert(actors@.subrange(0, i + 1 as int).drop_last() =~= pre);
            assert(actors@.subrange(0, i + 1 as int).last() == actors@[i as int]);
        }
        let n = norm(actors[i].name.as_str());
        if !n.as_str().is_empty() {
            let ghost old_deep = out.deep_view();
            out.push(n);
            proof {
                assert(out.deep_view() =~= old_deep.push(norm_str(actors@[i as int].name@)));
            }
        }
        i = i + 1;
    }
    proof {
        assert(actors@.subrange(0, len as int) =~= actors@);
    }
    out
}

/// The main actor's normalized name, when the case has one.
fn build_main_name(actors: &Vec<ActorRef>) -> (r: Option<String>)
    ensures
        match r {
            Some(s) => main_actor_spec(actors@) == Some(s@),
            None => main_actor_spec(actors@) is None,
        },
{
    if actors.len() > 0 {
        let m = norm(actors[0].name.as_str());
        if !m.as_str().is_empty() {
            Some(m)
        } else {
            None
        }
    } else {
        None
    }
}

/// Per-record match statistics and the exact score parts.
struct RecStats {
    /// Whether the record passes the time window.
    in_w: bool,
    /// Whether the record's actor is a case actor.
    am: bool,
    /// Whether the record's actor is the main actor.
    main: bool,
    /// Related-actor hits, repetitions counted.
    rel: u64,
    /// Query tokens found in the normalized summary.
    hits: u64,
    /// Whole part of the scaled score.
    whole: u128,
    /// Fractional-part numerator of the scaled score.
    rem: u128,
}

/// The statistics a record must carry.
spec fn stats_ok(st: RecStats, r: RecordItem, c: CaseItem, ro: ResolvedRankOpts) -> bool {
    &&& st.in_w == rec_in_window(r, c)
    &&& st.am == rec_actor_match(r, c.actors@)
    &&& st.main == rec_is_main(r, c.actors@)
    &&& st.rel as int == related_count(r.related@, c.actors@)
    &&& st.hits as int == rec_sim_hits(r, c)
    &&& st.whole as int == rec_base(r, c, ro) + ((ro.w_text as int) * rec_sim_hits(r, c))
        / score_den(c)
    &&& st.rem as int == ((ro.w_text as int) * rec_sim_hits(r, c)) % score_den(c)
}

/// Counts the related entries of `r` that are case actors.
fn count_related(rel: &Vec<ActorRef>, names: &Vec<String>, ghost_actors: Ghost<Seq<ActorRef>>) -> (r:
    u64)
    requires
        names.deep_view() == case_names_spec(ghost_actors@),
    ensures
        r as int == related_count(rel@, ghost_actors@),
{
    let len: usize = rel.len();
    let mut count: u64 = 0;
    let mut i: usize = 0;
    while i < len
        invariant
            len == rel@.len(),
            names.deep_view() == case_names_spec(ghost_actors@),
            0 <= i <= len,
            count as int == related_count(rel@.subrange(0, i as int), ghost_actors@),
            count <= i,
        decreases len - i,
    {
        let ghost pre = rel@.subrange(0, i as int);
        proof {
            assert(rel@.subrange(0, i + 1 as int).drop_last() =~= pre);
            assert(rel@.subrange(0, i + 1 as int).last() == rel@[i as int]);
            lemma_related_count_le(pre, ghost_actors@);
        }
        let rn = norm(rel[i].name.as_str());
        if !rn.as_str().is_empty() && contains_name(names, &rn) {
            count = count + 1;
        }
        i = i + 1;
    }
    proof {
        assert(rel@.subrange(0, len as int) =~= rel@);
    }
    count
}

/// Computes the match statistics and exact score parts of every record.
fn compute_stats(
    records: &[RecordItem],
    case_item: &CaseItem,
    ro: &ResolvedRankOpts,
    q_tokens: &Vec<String>,
    names: &Vec<String>,
    main_name: &Option<String>,
) -> (r: Vec<RecStats>)
    requires
        q_tokens.deep_view() == case_tokens(*case_item),
        names.deep_view() == case_names_spec(case_item.actors@),
        match main_name {
            Some(s) => main_actor_spec(case_item.actors@) == Some(s@),
            None => main_actor_spec(case_item.actors@) is None,
        },
    ensures
        r@.len() == records@.len(),
        forall|i: int| 0 <= i < records@.len() ==> stats_ok(#[trigger] r@[i], records@[i], *case_item, *ro),
{
    let n: usize = records.len();
    let hr: bool = !case_item.time_from.as_str().is_empty()
        || !case_item.time_to.as_str().is_empty();
    let total: usize = q_tokens.len();
    let den: u64 = if total == 0 {
        1
    } else {
        total as u64
    };
    proof {
        assert(den as int == score_den(*case_item));
    }
    let mut out: Vec<RecStats> = Vec::new();
    let mut i: usize = 0;
    while i < n
        invariant
            n == records@.len(),
            hr == has_range(*case_item),
            q_tokens.deep_view() == case_tokens(*case_item),
            names.deep_view() == case_names_spec(case_item.actors@),
            match main_name {
                Some(s) => main_actor_spec(case_item.actors@) == Some(s@),
                None => main_actor_spec(case_item.actors@) is None,
            },
            total == case_tokens(*case_item).len(),
            den as int == score_den(*case_item),
            0 <= i <= n,
            out@.len() == i,
            forall|q: int|
                0 <= q < i ==> stats_ok(#[trigger] out@[q], records@[q], *case_item, *ro),
        decreases n - i,
    {
        let rec = vstd::slice::slice_index_get(records, i);
        let in_w: bool = if hr {
            within_range(rec.ts.as_str(), case_item.time_from.as_str(), case_item.time_to.as_str())
        } else {
            true
        };
        let rname = norm(rec.actor.name.as_str());
        let am: bool = !rname.as_str().is_empty() && contains_name(names, &rname);
        let is_main: bool = match main_name {
            Some(m) => rname == (*m),
            None => false,
        };
        let rel: u64 = count_related(&rec.related, names, Ghost(case_item.actors@));
        let (hit, sim_total) = text_similarity_stats(q_tokens, rec.summary.as_str());
        let hits: u64 = hit as u64;
        proof {
            vstd::arithmetic::mul::lemma_mul_upper_bound(
                ro.w_related as int,
                0xFFFF_FFFF,
                rel as int,
                0xFFFF_FFFF_FFFF_FFFF,
            );
        }
        let rel_part: u128 = (ro.w_related as u128) * (rel as u128);
        let base: u128 = (if am {
            ro.w_actor as u128
        } else {
            0
        }) + rel_part;
        proof {
            vstd::arithmetic::mul::lemma_mul_upper_bound(
                ro.w_text as int,
                0xFFFF_FFFF,
                hits as int,
                0xFFFF_FFFF_FFFF_FFFF,
            );
        }
        let p: u128 = (ro.w_text as u128) * (hits as u128);
        let den128: u128 = den as u128;
        let q: u128 = p / den128;
        let rem: u128 = p % den128;
        proof {
            vstd::arithmetic::div_mod::lemma_div_nonincreasing(p as int, den128 as int);
            vstd::arithmetic::div_mod::lemma_mod_bound(p as int, den128 as int);
        }
        let whole: u128 = base + q;
        let st = RecStats { in_w, am, main: is_main, rel, hits, whole, rem };
        proof {
            assert(rname@ == norm_str(records@[i as int].actor.name@));
            assert(stats_ok(st, records@[i as int], *case_item, *ro));
        }
        out.push(st);
        i = i + 1;
    }
    out
}

/// The scaled score numerator decomposes into the stored whole part and
/// remainder over the common denominator.
proof fn lemma_score_parts(r: RecordItem, c: CaseItem, ro: ResolvedRankOpts)
    ensures
        ({
            let den = score_den(c);
            let p = (ro.w_text as int) * rec_sim_hits(r, c);
            &&& rec_score_num(r, c, ro) == (rec_base(r, c, ro) + p / den) * den + p % den
            &&& 0 <= p % den < den
        }),
{
    let den = score_den(c);
    let p = (ro.w_text as int) * rec_sim_hits(r, c);
    crate::text::lemma_sim_hits_le(case_tokens(c), norm_str(r.summary@));
    vstd::arithmetic::div_mod::lemma_fundamental_div_mod(p, den);
    vstd::arithmetic::div_mod::lemma_mod_bound(p, den);
    vstd::arithmetic::mul::lemma_mul_is_distributive_add_other_way(den, rec_base(r, c, ro), p / den);
    vstd::arithmetic::mul::lemma_mul_is_commutative(den, p / den);
    vstd::arithmetic::mul::lemma_mul_is_commutative(den, rec_base(r, c, ro));
}

/// With one shared denominator, comparing scaled score numerators is the
/// lexicographic comparison of (whole part, remainder).
proof fn lemma_score_cmp(
    a: RecordItem,
    b: RecordItem,
    c: CaseItem,
    ro: ResolvedRankOpts,
    sta: RecStats,
    stb: RecStats,
)
    requires
        stats_ok(sta, a, c, ro),
        stats_ok(stb, b, c, ro),
    ensures
        (rec_score_num(a, c, ro) > rec_score_num(b, c, ro)) == (sta.whole > stb.whole || (
        sta.whole == stb.whole && sta.rem > stb.rem)),
        (rec_score_num(a, c, ro) == rec_score_num(b, c, ro)) == (sta.whole == stb.whole
            && sta.rem == stb.rem),
{
    let den = score_den(c);
    lemma_score_parts(a, c, ro);
    lemma_score_parts(b, c, ro);
    let wa = sta.whole as int;
    let ra = sta.rem as int;
    let wb = stb.whole as int;
    let rb = stb.rem as int;
    assert(rec_score_num(a, c, ro) == wa * den + ra);
    assert(rec_score_num(b, c, ro) == wb * den + rb);
    assert(((wa * den + ra > wb * den + rb) == (wa > wb || (wa == wb && ra > rb))) && ((wa * den
        + ra == wb * den + rb) == (wa == wb && ra == rb))) by (nonlinear_arith)
        requires
            den >= 1,
            0 <= ra < den,
            0 <= rb < den,
    ;
}

/// The order used for one sorting pass.
pub open spec fn chosen_lt(
    records: Seq<RecordItem>,
    c: CaseItem,
    ro: ResolvedRankOpts,
    main_mode: bool,
) -> spec_fn(usize, usize) -> bool {
    if main_mode {
        main_lt(records, c, ro)
    } else {
        cand_lt(records, c, ro)
    }
}

/// Whether record `x` sorts strictly before record `y` under the main-hit
/// order (`main_mode`) or the candidate order.
fn before_exec(
    records: &[RecordItem],
    stats: &Vec<RecStats>,
    main_mode: bool,
    x: usize,
    y: usize,
    Ghost(c): Ghost<CaseItem>,
    Ghost(ro): Ghost<ResolvedRankOpts>,
) -> (r: bool)
    requires
        x < records@.len(),
        y < records@.len(),
        stats@.len() == records@.len(),
        stats_ok(stats@[x as int], records@[x as int], c, ro),
        stats_ok(stats@[y as int], records@[y as int], c, ro),
    ensures
        r == chosen_lt(records@, c, ro, main_mode)(x, y),
{
    let a = vstd::slice::slice_index_get(records, x);
    let b = vstd::slice::slice_index_get(records, y);
    let sa = &stats[x];
    let sb = &stats[y];
    proof {
        lemma_score_cmp(records@[x as int], records@[y as int], c, ro, stats@[x as int], stats@[y as int]);
    }
    let score_gt: bool = sa.whole > sb.whole || (sa.whole == sb.whole && sa.rem > sb.rem);
    let score_eq: bool = sa.whole == sb.whole && sa.rem == sb.rem;
    let ts_eq: bool = a.ts == b.ts;
    if main_mode {
        if !ts_eq {
            str_lt(b.ts.as_str(), a.ts.as_str())
        } else if !score_eq {
            score_gt
        } else {
            str_lt(a.id.as_str(), b.id.as_str())
        }
    } else {
        if !score_eq {
            score_gt
        } else if !ts_eq {
            str_lt(b.ts.as_str(), a.ts.as_str())
        } else {
            str_lt(a.id.as_str(), b.id.as_str())
        }
    }
}

/// Stable insertion places `x` exactly at the scanned position: after every
/// element it does not sort strictly before.
proof fn lemma_insert_at(s: Seq<usize>, x: usize, lt: spec_fn(usize, usize) -> bool, p: int)
    requires
        0 <= p <= s.len(),
        forall|q: int| p <= q < s.len() ==> lt(x, #[trigger] s[q]),
        p > 0 ==> !lt(x, s[p - 1]),
    ensures
        insert_ord(s, x, lt) == s.take(p) + seq![x] + s.skip(p),
    decreases s.len(),
{
    if p == s.len() {
        if s.len() == 0 {
            assert(insert_ord(s, x, lt) =~= s.take(p) + seq![x] + s.skip(p));
        } else {
            assert(!lt(x, s.last()));
            assert(insert_ord(s, x, lt) == s.push(x));
            assert(s.push(x) =~= s.take(p) + seq![x] + s.skip(p));
        }
    } else {
        assert(lt(x, s[s.len() - 1]));
        assert(insert_ord(s, x, lt) == insert_ord(s.drop_last(), x, lt).push(s.last()));
        assert(forall|q: int|
            p <= q < s.drop_last().len() ==> lt(x, #[trigger] s.drop_last()[q]));
        if p > 0 {
            assert(s.drop_last()[p - 1] == s[p - 1]);
        }
        lemma_insert_at(s.drop_last(), x, lt, p);
        assert((s.drop_last().take(p) + seq![x] + s.drop_last().skip(p)).push(s.last()) =~= s.take(
            p,
        ) + seq![x] + s.skip(p));
    }
}

/// Inserting keeps every element and adds the new one.
proof fn lemma_insert_elems(s: Seq<usize>, x: usize, lt: spec_fn(usize, usize) -> bool)
    ensures
        insert_ord(s, x, lt).len() == s.len() + 1,
        forall|e: usize|
            insert_ord(s, x, lt).contains(e) <==> (s.contains(e) || e == x),
    decreases s.len(),
{
    if s.len() == 0 {
        assert forall|e: usize| insert_ord(s, x, lt).contains(e) <==> (s.contains(e) || e == x) by {
            assert(insert_ord(s, x, lt) == seq![x]);
            if e == x {
                assert(insert_ord(s, x, lt)[0] == x);
            }
        }
    } else if lt(x, s.last()) {
        lemma_insert_elems(s.drop_last(), x, lt);
        let inner = insert_ord(s.drop_last(), x, lt);
        assert forall|e: usize| insert_ord(s, x, lt).contains(e) <==> (s.contains(e) || e == x) by {
            assert(insert_ord(s, x, lt) == inner.push(s.last()));
            lemma_push_contains(inner, s.last(), e);
            lemma_push_contains(s.drop_last(), s.last(), e);
            assert(s.drop_last().push(s.last()) =~= s);
        }
    } else {
        assert forall|e: usize| insert_ord(s, x, lt).contains(e) <==> (s.contains(e) || e == x) by {
            lemma_push_contains(s, x, e);
        }
    }
}

/// Membership in a pushed sequence.
proof fn lemma_push_contains(s: Seq<usize>, x: usize, e: usize)
    ensures
        s.push(x).contains(e) <==> (s.contains(e) || e == x),
{
    if s.contains(e) {
        let i = choose|i: int| 0 <= i < s.len() && s[i] == e;
        assert(s.push(x)[i] == e);
    }
    if e == x {
        assert(s.push(x)[s.len() as int] == e);
    }
    if s.push(x).contains(e) {
        let i = choose|i: int| 0 <= i < s.push(x).len() && s.push(x)[i] == e;
        if i < s.len() {
            assert(s[i] == e);
        }
    }
}

/// Sorting keeps the length and exactly the elements.
proof fn lemma_sort_elems(s: Seq<usize>, lt: spec_fn(usize, usize) -> bool)
    ensures
        sort_ord(s, lt).len() == s.len(),
        forall|e: usize| sort_ord(s, lt).contains(e) <==> s.contains(e),
    decreases s.len(),
{
    if s.len() > 0 {
        lemma_sort_elems(s.drop_last(), lt);
        lemma_insert_elems(sort_ord(s.drop_last(), lt), s.last(), lt);
        assert forall|e: usize| sort_ord(s, lt).contains(e) <==> s.contains(e) by {
            lemma_push_contains(s.drop_last(), s.last(), e);
            assert(s.drop_last().push(s.last()) =~= s);
        }
    }
}

/// Sorts the indices stably under the chosen strict order.
fn sort_idx(
    idx: &Vec<usize>,
    records: &[RecordItem],
    stats: &Vec<RecStats>,
    main_mode: bool,
    Ghost(c): Ghost<CaseItem>,
    Ghost(ro): Ghost<ResolvedRankOpts>,
) -> (r: Vec<usize>)
    requires
        stats@.len() == records@.len(),
        forall|q: int| 0 <= q < idx@.len() ==> idx@[q] < records@.len(),
        forall|q: int|
            0 <= q < records@.len() ==> stats_ok(#[trigger] stats@[q], records@[q], c, ro),
    ensures
        r@ == sort_ord(idx@, chosen_lt(records@, c, ro, main_mode)),
        forall|q: int| 0 <= q < r@.len() ==> r@[q] < records@.len(),
{
    let ghost lt = chosen_lt(records@, c, ro, main_mode);
    let n: usize = idx.len();
    let mut out: Vec<usize> = Vec::new();
    let mut t: usize = 0;
    while t < n
        invariant
            n == idx@.len(),
            stats@.len() == records@.len(),
            forall|q: int| 0 <= q < idx@.len() ==> idx@[q] < records@.len(),
            forall|q: int|
                0 <= q < records@.len() ==> stats_ok(#[trigger] stats@[q], records@[q], c, ro),
            lt == chosen_lt(records@, c, ro, main_mode),
            0 <= t <= n,
            out@ == sort_ord(idx@.subrange(0, t as int), lt),
            forall|q: int| 0 <= q < out@.len() ==> out@[q] < records@.len(),
        decreases n - t,
    {
        let x: usize = idx[t];
        let mut p: usize = out.len();
        while p > 0 && before_exec(records, stats, main_mode, x, out[p - 1], Ghost(c), Ghost(ro))
            invariant
                stats@.len() == records@.len(),
                forall|q: int|
                    0 <= q < records@.len() ==> stats_ok(#[trigger] stats@[q], records@[q], c, ro),
                lt == chosen_lt(records@, c, ro, main_mode),
                x < records@.len(),
                forall|q: int| 0 <= q < out@.len() ==> out@[q] < records@.len(),
                0 <= p <= out@.len(),
                forall|q: int| p <= q < out@.len() ==> lt(x, #[trigger] out@[q]),
            decreases p,
        {
            p = p - 1;
        }
        let ghost old_out = out@;
        out.insert(p, x);
        proof {
            lemma_insert_at(old_out, x, lt, p as int);
            assert(out@ =~= old_out.take(p as int) + seq![x] + old_out.skip(p as int));
            assert(out@ == insert_ord(old_out, x, lt));
            assert(idx@.subrange(0, t + 1 as int).drop_last() =~= idx@.subrange(0, t as int));
            assert(idx@.subrange(0, t + 1 as int).last() == x);
        }
        t = t + 1;
    }
    proof {
        assert(idx@.subrange(0, n as int) =~= idx@);
    }
    out
}

/// A candidate's score clears the minimum exactly when its whole part does.
proof fn lemma_threshold(r: RecordItem, c: CaseItem, ro: ResolvedRankOpts, st: RecStats)
    requires
        stats_ok(st, r, c, ro),
    ensures
        (rec_score_num(r, c, ro) >= (ro.min_score as int) * score_den(c)) == (st.whole
            >= ro.min_score as u128),
{
    let den = score_den(c);
    lemma_score_parts(r, c, ro);
    let w = st.whole as int;
    let rem = st.rem as int;
    let m = ro.min_score as int;
    assert(rec_score_num(r, c, ro) == w * den + rem);
    assert((w * den + rem >= m * den) == (w >= m)) by (nonlinear_arith)
        requires
            den >= 1,
            0 <= rem < den,
    ;
}

/// Splits the record indices into main-actor hits and candidates, in input
/// order.
fn partition_indices(
    records: &[RecordItem],
    stats: &Vec<RecStats>,
    ro: &ResolvedRankOpts,
    q_total: usize,
    Ghost(c): Ghost<CaseItem>,
) -> (r: (Vec<usize>, Vec<usize>))
    requires
        stats@.len() == records@.len(),
        q_total == case_tokens(c).len(),
        forall|q: int|
            0 <= q < records@.len() ==> stats_ok(#[trigger] stats@[q], records@[q], c, *ro),
    ensures
        r.0@ == main_idx(records@, c, records@.len() as int),
        r.1@ == cand_idx(records@, c, *ro, records@.len() as int),
        forall|q: int| 0 <= q < r.0@.len() ==> r.0@[q] < records@.len(),
        forall|q: int| 0 <= q < r.1@.len() ==> r.1@[q] < records@.len(),
{
    let n: usize = records.len();
    let mut mains: Vec<usize> = Vec::new();
    let mut cands: Vec<usize> = Vec::new();
    let mut i: usize = 0;
    while i < n
        invariant
            n == records@.len(),
            stats@.len() == records@.len(),
            q_total == case_tokens(c).len(),
            forall|q: int|
                0 <= q < records@.len() ==> stats_ok(#[trigger] stats@[q], records@[q], c, *ro),
            0 <= i <= n,
            mains@ == main_idx(records@, c, i as int),
            cands@ == cand_idx(records@, c, *ro, i as int),
            forall|q: int| 0 <= q < mains@.len() ==> mains@[q] < records@.len(),
            forall|q: int| 0 <= q < cands@.len() ==> cands@[q] < records@.len(),
        decreases n - i,
    {
        let st = &stats[i];
        if st.in_w && st.main {
            proof {
                assert(is_main_hit(records@[i as int], c));
            }
            mains.push(i);
        } else {
            proof {
                assert(!is_main_hit(records@[i as int], c));
            }
            if st.in_w && !st.main {
                proof {
                    vstd::arithmetic::mul::lemma_mul_upper_bound(
                        ro.min_text_sim as int,
                        0xFFFF_FFFF,
                        q_total as int,
                        0xFFFF_FFFF_FFFF_FFFF,
                    );
                }
                let coverage_ok: bool = q_total > 0 && (st.hits as u128) * 100 >= (
                ro.min_text_sim as u128) * (q_total as u128);
                let passes: bool = st.am || st.rel > 0 || coverage_ok;
                proof {
                    assert(passes == passes_logic(records@[i as int], c, *ro));
                    lemma_threshold(records@[i as int], c, *ro, stats@[i as int]);
                }
                if passes && st.whole >= ro.min_score as u128 {
                    proof {
                        assert(is_candidate(records@[i as int], c, *ro));
                    }
                    cands.push(i);
                } else {
                    proof {
                        assert(!is_candidate(records@[i as int], c, *ro));
                    }
                }
            } else {
                proof {
                    assert(!is_candidate(records@[i as int], c, *ro));
                }
            }
        }
        i = i + 1;
    }
    (mains, cands)
}

/// Whether the id of record `j` is already among the selected indices.
fn id_in(records: &[RecordItem], sel: &Vec<usize>, j: usize) -> (r: bool)
    requires
        j < records@.len(),
        forall|q: int| 0 <= q < sel@.len() ==> sel@[q] < records@.len(),
    ensures
        r == id_present(records@, sel@, records@[j as int].id@),
{
    let target = vstd::slice::slice_index_get(records, j);
    let len: usize = sel.len();
    let mut q: usize = 0;
    while q < len
        invariant
            len == sel@.len(),
            j < records@.len(),
            *target == records@[j as int],
            forall|t: int| 0 <= t < sel@.len() ==> sel@[t] < records@.len(),
            0 <= q <= len,
            forall|t: int|
                0 <= t < q ==> records@[#[trigger] sel@[t] as int].id@ != records@[j as int].id@,
        decreases len - q,
    {
        let xi: usize = sel[q];
        proof {
            assert(xi == sel@[q as int]);
        }
        let other = vstd::slice::slice_index_get(records, xi);
        proof {
            assert(*other == records@[xi as int]);
        }
        let e: bool = other.id == target.id;
        proof {
            assert(e == (other.id@ == target.id@));
            assert(other.id@ == records@[xi as int].id@);
            assert(target.id@ == records@[j as int].id@);
        }
        if e {
            proof {
                assert(records@[sel@[q as int] as int].id@ == records@[j as int].id@);
            }
            return true;
        }
        q = q + 1;
    }
    false
}

/// Filling never drops selected entries and adds at most the candidates.
proof fn lemma_fill_len(records: Seq<RecordItem>, acc: Seq<usize>, cands: Seq<usize>)
    ensures
        acc.len() <= fill_cands(records, acc, cands).len() <= acc.len() + cands.len(),
    decreases cands.len(),
{
    if cands.len() > 0 {
        let c0 = cands[0];
        let rest = cands.drop_first();
        if id_present(records, acc, records[c0 as int].id@) {
            lemma_fill_len(records, acc, rest);
        } else {
            lemma_fill_len(records, acc.push(c0), rest);
        }
    }
}

/// Takes up to `k` sorted main hits, then fills the remaining slots from
/// the sorted candidates in order, skipping ids already selected.
fn merge_selected(
    records: &[RecordItem],
    mains: &Vec<usize>,
    cands: &Vec<usize>,
    k: usize,
    Ghost(c): Ghost<CaseItem>,
) -> (r: Vec<usize>)
    requires
        forall|q: int| 0 <= q < mains@.len() ==> mains@[q] < records@.len(),
        forall|q: int| 0 <= q < cands@.len() ==> cands@[q] < records@.len(),
    ensures
        r@ == ({
            let taken = if mains@.len() <= k as int {
                mains@
            } else {
                mains@.take(k as int)
            };
            let remain = k as int - taken.len();
            let cpart = if cands@.len() <= remain {
                cands@
            } else {
                cands@.take(remain)
            };
            fill_cands(records@, taken, cpart)
        }),
        forall|q: int| 0 <= q < r@.len() ==> r@[q] < records@.len(),
        r@.len() <= k as int,
{
    let mcount: usize = if mains.len() <= k {
        mains.len()
    } else {
        k
    };
    let mut merged: Vec<usize> = Vec::new();
    let mut t: usize = 0;
    while t < mcount
        invariant
            mcount <= mains@.len(),
            forall|q: int| 0 <= q < mains@.len() ==> mains@[q] < records@.len(),
            0 <= t <= mcount,
            merged@ == mains@.take(t as int),
        decreases mcount - t,
    {
        merged.push(mains[t]);
        proof {
            assert(merged@ =~= mains@.take(t + 1 as int));
        }
        t = t + 1;
    }
    let ghost taken = if mains@.len() <= k as int {
        mains@
    } else {
        mains@.take(k as int)
    };
    proof {
        if mains@.len() <= k as int {
            assert(merged@ =~= mains@);
        }
    }
    let remain: usize = k - merged.len();
    let ccount: usize = if cands.len() <= remain {
        cands.len()
    } else {
        remain
    };
    let ghost cpart = if cands@.len() <= remain as int {
        cands@
    } else {
        cands@.take(remain as int)
    };
    proof {
        assert(cpart =~= cands@.take(ccount as int));
        lemma_fill_len(records@, merged@, cpart);
    }
    let mut u: usize = 0;
    while u < ccount
        invariant
            ccount <= cands@.len(),
            cpart == cands@.take(ccount as int),
            forall|q: int| 0 <= q < cands@.len() ==> cands@[q] < records@.len(),
            forall|q: int| 0 <= q < merged@.len() ==> merged@[q] < records@.len(),
            0 <= u <= ccount,
            fill_cands(records@, merged@, cands@.subrange(u as int, ccount as int)) == fill_cands(
                records@,
                taken,
                cpart,
            ),
        decreases ccount - u,
    {
        let ghost rest = cands@.subrange(u as int, ccount as int);
        proof {
            assert(rest[0] == cands@[u as int]);
            assert(rest.drop_first() =~= cands@.subrange(u + 1 as int, ccount as int));
        }
        let x: usize = cands[u];
        let dup: bool = id_in(records, &merged, x);
        if !dup {
            merged.push(x);
        }
        u = u + 1;
    }
    proof {
        assert(cands@.subrange(ccount as int, ccount as int) =~= Seq::<usize>::empty());
        assert(fill_cands(records@, merged@, Seq::<usize>::empty()) == merged@);
        lemma_fill_len(records@, taken, cpart);
        assert(taken.len() == mcount as int);
        assert(cpart.len() == ccount as int);
    }
    merged
}

/// Builds the reason labels of one surfaced record.
fn build_reasons(
    st: &RecStats,
    q_total: usize,
    hr: bool,
    Ghost(r): Ghost<RecordItem>,
    Ghost(c): Ghost<CaseItem>,
    Ghost(ro): Ghost<ResolvedRankOpts>,
) -> (v: Vec<String>)
    requires
        stats_ok(*st, r, c, ro),
        q_total == case_tokens(c).len(),
        hr == has_range(c),
    ensures
        v.deep_view() == reasons_of(r, c, ro),
{
    let mut v: Vec<String> = Vec::new();
    v.push("auto-ranked".to_owned());
    proof {
        assert(v.deep_view() =~= seq!["auto-ranked"@]);
    }
    if st.main {
        let ghost dv = v.deep_view();
        v.push("main actor (always included)".to_owned());
        proof {
            assert(v.deep_view() =~= dv.push("main actor (always included)"@));
        }
    } else if st.am {
        let ghost dv = v.deep_view();
        v.push("actor match".to_owned());
        proof {
            assert(v.deep_view() =~= dv.push("actor match"@));
        }
    }
    if st.rel > 0 {
        let mut s = "related match ".to_owned();
        let num = u64_to_dec(st.rel);
        s.append(num.as_str());
        let ghost sv = s@;
        let ghost dv = v.deep_view();
        v.push(s);
        proof {
            assert(sv == "related match "@ + dec_str(related_count(r.related@, c.actors@) as nat));
            assert(v.deep_view() =~= dv.push(sv));
        }
    }
    if q_total > 0 {
        let mut s = "keyword ".to_owned();
        let hnum = u64_to_dec(st.hits);
        s.append(hnum.as_str());
        s.append("/");
        let tnum = u64_to_dec(q_total as u64);
        s.append(tnum.as_str());
        let ghost sv = s@;
        let ghost dv = v.deep_view();
        v.push(s);
        proof {
            assert(sv == "keyword "@ + dec_str(rec_sim_hits(r, c) as nat) + "/"@ + dec_str(
                case_tokens(c).len(),
            ));
            assert(v.deep_view() =~= dv.push(sv));
        }
    }
    if hr {
        let ghost dv = v.deep_view();
        if st.in_w {
            v.push("in range".to_owned());
            proof {
                assert(v.deep_view() =~= dv.push("in range"@));
            }
        } else {
            v.push("out of range".to_owned());
            proof {
                assert(v.deep_view() =~= dv.push("out of range"@));
            }
        }
    }
    proof {
        assert(v.deep_view() =~= reasons_of(r, c, ro));
    }
    v
}

/// Builds the score components of one surfaced record.
fn build_components(
    st: &RecStats,
    q_total: usize,
    hr: bool,
    ro: &ResolvedRankOpts,
    Ghost(r): Ghost<RecordItem>,
    Ghost(c): Ghost<CaseItem>,
) -> (comps: RankedComponents)
    requires
        stats_ok(*st, r, c, *ro),
        q_total == case_tokens(c).len(),
        hr == has_range(c),
    ensures
        comps == comps_of(r, c, *ro),
{
    proof {
        vstd::arithmetic::mul::lemma_mul_upper_bound(
            ro.w_related as int,
            0xFFFF_FFFF,
            st.rel as int,
            0xFFFF_FFFF_FFFF_FFFF,
        );
        vstd::arithmetic::mul::lemma_mul_upper_bound(
            ro.w_text as int,
            0xFFFF_FFFF,
            st.hits as int,
            0xFFFF_FFFF_FFFF_FFFF,
        );
        vstd::arithmetic::mul::lemma_mul_is_commutative(
            ro.w_related as int,
            related_count(r.related@, c.actors@),
        );
        crate::text::lemma_sim_hits_le(case_tokens(c), norm_str(r.summary@));
        lemma_related_count_le(r.related@, c.actors@);
    }
    RankedComponents {
        q_hit: st.hits,
        q_total: q_total as u64,
        actor_match: st.am,
        is_main_actor: st.main,
        related_hits: st.rel,
        in_range: if hr {
            Some(st.in_w)
        } else {
            None
        },
        w_actor: ro.w_actor,
        w_related: ro.w_related,
        w_text: ro.w_text,
        min_score: ro.min_score,
        min_text_sim: ro.min_text_sim,
        actor_score: if st.am {
            ro.w_actor
        } else {
            0
        },
        related_score: (ro.w_related as u128) * (st.rel as u128),
        keyword_score_num: (ro.w_text as u128) * (st.hits as u128),
    }
}

/// Builds the exact score of one surfaced record.
fn build_score(
    st: &RecStats,
    den: u64,
    Ghost(r): Ghost<RecordItem>,
    Ghost(c): Ghost<CaseItem>,
    Ghost(ro): Ghost<ResolvedRankOpts>,
) -> (s: Score)
    requires
        stats_ok(*st, r, c, ro),
        den as int == score_den(c),
    ensures
        s == score_of(r, c, ro),
{
    proof {
        lemma_score_parts(r, c, ro);
    }
    Score { whole: st.whole, frac_num: st.rem as u64, frac_den: den }
}

/// Ranks the records against the case under the options and returns the
/// surfaced hits in their final order.
///
/// The output is exactly what the specification pipeline
/// [`selected_idx`] selects (see [`rank_post`]): every record of the main
/// actor that passes the time window, sorted most recent first, up to the
/// result cap, then the highest-scoring candidates that fill the remaining
/// slots, deduplicated by id, each hit carrying its dense 1-based rank, its
/// exact score and its reason labels.  The output never exceeds the
/// resolved result cap.
pub fn rank_records_for_case(
    records: &[RecordItem],
    case_item: &CaseItem,
    opts: Option<RankOpts>,
) -> (out: Vec<RankedHit>)
    ensures
        rank_post(records@, *case_item, opts, out@),
        out@.len() <= resolved_of(*case_item, opts).k,
{
    let ro = resolve_rank_opts(case_item, &opts);
    let q_tokens = tokenize(case_item.query.as_str());
    let names = build_case_names(&case_item.actors);
    let main_name = build_main_name(&case_item.actors);
    let stats = compute_stats(records, case_item, &ro, &q_tokens, &names, &main_name);
    let q_total: usize = q_tokens.len();
    let den: u64 = if q_total == 0 {
        1
    } else {
        q_total as u64
    };
    let hr: bool = !case_item.time_from.as_str().is_empty()
        || !case_item.time_to.as_str().is_empty();
    let (mains, cands) = partition_indices(records, &stats, &ro, q_total, Ghost(*case_item));
    let sorted_m = sort_idx(&mains, records, &stats, true, Ghost(*case_item), Ghost(ro));
    let sorted_c = sort_idx(&cands, records, &stats, false, Ghost(*case_item), Ghost(ro));
    let merged = merge_selected(records, &sorted_m, &sorted_c, ro.k, Ghost(*case_item));
    proof {
        crate::opts::lemma_resolved_k_bounds(*case_item, opts);
        assert(merged@ == selected_idx(records@, *case_item, opts));
    }
    let n_sel: usize = merged.len();
    let mut out: Vec<RankedHit> = Vec::new();
    let mut t: usize = 0;
    while t < n_sel
        invariant
            n_sel == merged@.len(),
            n_sel <= ro.k,
            ro.k <= 400,
            ro == resolved_of(*case_item, opts),
            stats@.len() == records@.len(),
            q_total == case_tokens(*case_item).len(),
            den as int == score_den(*case_item),
            hr == has_range(*case_item),
            forall|q: int| 0 <= q < merged@.len() ==> merged@[q] < records@.len(),
            forall|q: int|
                0 <= q < records@.len() ==> stats_ok(
                    #[trigger] stats@[q],
                    records@[q],
                    *case_item,
                    ro,
                ),
            0 <= t <= n_sel,
            out@.len() == t,
            forall|q: int|
                0 <= q < t ==> hit_matches(
                    records@,
                    *case_item,
                    ro,
                    #[trigger] out@[q],
                    merged@[q] as int,
                    q,
                ),
        decreases n_sel - t,
    {
        let j: usize = merged[t];
        let rec = vstd::slice::slice_index_get(records, j);
        let st = &stats[j];
        let reasons = build_reasons(st, q_total, hr, Ghost(records@[j as int]), Ghost(*case_item), Ghost(ro));
        let comps = build_components(st, q_total, hr, &ro, Ghost(records@[j as int]), Ghost(*case_item));
        let score = build_score(st, den, Ghost(records@[j as int]), Ghost(*case_item), Ghost(ro));
        let rank: u32 = (t + 1) as u32;
        let hit = RankedHit { id: rec.id.clone(), score, rank, reasons, components: comps };
        proof {
            assert(hit_matches(records@, *case_item, ro, hit, merged@[t as int] as int, t as int));
        }
        out.push(hit);
        t = t + 1;
    }
    proof {
        assert(out@.len() == selected_idx(records@, *case_item, opts).len());
    }
    out
}

/// Stable insertion only adds the inserted element to the multiset.
proof fn lemma_insert_multiset(s: Seq<usize>, x: usize, lt: spec_fn(usize, usize) -> bool)
    ensures
        insert_ord(s, x, lt).to_multiset() == s.to_multiset().insert(x),
    decreases s.len(),
{
    broadcast use vstd::seq_lib::group_to_multiset_ensures;

    if s.len() == 0 {
        assert(seq![x] =~= Seq::<usize>::empty().push(x));
        assert(s.to_multiset() =~= Multiset::<usize>::empty());
        assert(insert_ord(s, x, lt).to_multiset() =~= s.to_multiset().insert(x));
    } else if lt(x, s.last()) {
        lemma_insert_multiset(s.drop_last(), x, lt);
        assert(s.drop_last().push(s.last()) =~= s);
        assert(insert_ord(s, x, lt).to_multiset() =~= s.to_multiset().insert(x));
    } else {
        assert(insert_ord(s, x, lt).to_multiset() =~= s.to_multiset().insert(x));
    }
}

/// Sorting permutes: the multiset of indices is unchanged.
proof fn lemma_sort_multiset(s: Seq<usize>, lt: spec_fn(usize, usize) -> bool)
    ensures
        sort_ord(s, lt).to_multiset() == s.to_multiset(),
    decreases s.len(),
{
    broadcast use vstd::seq_lib::group_to_multiset_ensures;

    if s.len() > 0 {
        lemma_sort_multiset(s.drop_last(), lt);
        lemma_insert_multiset(sort_ord(s.drop_last(), lt), s.last(), lt);
        assert(s.drop_last().push(s.last()) =~= s);
        assert(sort_ord(s, lt).to_multiset() =~= s.to_multiset());
    }
}

/// Sorting a duplicate-free index sequence gives a duplicate-free one.
proof fn lemma_sort_no_dup(s: Seq<usize>, lt: spec_fn(usize, usize) -> bool)
    requires
        s.no_duplicates(),
    ensures
        sort_ord(s, lt).no_duplicates(),
{
    broadcast use vstd::seq_lib::group_to_multiset_ensures;

    lemma_sort_multiset(s, lt);
    s.lemma_multiset_has_no_duplicates();
    sort_ord(s, lt).lemma_multiset_has_no_duplicates_conv();
}

/// Every main-hit index is below `n`, is a main hit, and they come in
/// increasing order; every main hit below `n` is there.
proof fn lemma_main_idx_elems(records: Seq<RecordItem>, c: CaseItem, n: int)
    requires
        n <= records.len(),
        n <= usize::MAX,
    ensures
        forall|q: int|
            0 <= q < main_idx(records, c, n).len() ==> #[trigger] main_idx(records, c, n)[q]
                < n,
        forall|q: int|
            0 <= q < main_idx(records, c, n).len() ==> is_main_hit(
                records[#[trigger] main_idx(records, c, n)[q] as int],
                c,
            ),
        forall|q1: int, q2: int|
            0 <= q1 < q2 < main_idx(records, c, n).len() ==> #[trigger] main_idx(
                records,
                c,
                n,
            )[q1] < #[trigger] main_idx(records, c, n)[q2],
        forall|j: int|
            0 <= j < n && is_main_hit(records[j], c) ==> main_idx(records, c, n).contains(
                j as usize,
            ),
    decreases n,
{
    if n > 0 {
        lemma_main_idx_elems(records, c, n - 1);
        let pre = main_idx(records, c, n - 1);
        let cur = main_idx(records, c, n);
        if is_main_hit(records[n - 1], c) {
            assert(cur == pre.push((n - 1) as usize));
            assert(cur.len() == pre.len() + 1);
            assert(cur[pre.len() as int] == (n - 1) as usize);
        } else {
            assert(cur == pre);
        }
        assert(forall|q: int| 0 <= q < pre.len() ==> cur[q] == #[trigger] pre[q]);
        assert forall|q: int| 0 <= q < cur.len() implies #[trigger] cur[q] < n && is_main_hit(
            records[cur[q] as int],
            c,
        ) by {
            if q < pre.len() {
                assert(cur[q] == pre[q]);
                assert(pre[q] < n - 1);
                assert(is_main_hit(records[pre[q] as int], c));
            } else {
                assert(cur[q] == (n - 1) as usize);
            }
        }
        assert forall|q1: int, q2: int|
            0 <= q1 < q2 < cur.len() implies #[trigger] cur[q1] < #[trigger] cur[q2] by {
            assert(cur[q1] == pre[q1]);
            assert(pre[q1] < n - 1);
            if q2 < pre.len() {
                assert(cur[q2] == pre[q2]);
                assert(pre[q1] < pre[q2]);
            } else {
                assert(cur[q2] == (n - 1) as usize);
            }
        }
        assert forall|j: int|
            0 <= j < n && is_main_hit(records[j], c) implies cur.contains(j as usize) by {
            if j < n - 1 {
                let q = choose|q: int| 0 <= q < pre.len() && pre[q] == j as usize;
                assert(cur[q] == j as usize);
            } else {
                assert(cur[cur.len() - 1] == j as usize);
            }
        }
    }
}

/// Every candidate index is below `n`, is a candidate, and they come in
/// increasing order.
proof fn lemma_cand_idx_elems(records: Seq<RecordItem>, c: CaseItem, ro: ResolvedRankOpts, n: int)
    requires
        n <= records.len(),
        n <= usize::MAX,
    ensures
        forall|q: int|
            0 <= q < cand_idx(records, c, ro, n).len() ==> #[trigger] cand_idx(records, c, ro, n)[q]
                < n,
        forall|q: int|
            0 <= q < cand_idx(records, c, ro, n).len() ==> is_candidate(
                records[#[trigger] cand_idx(records, c, ro, n)[q] as int],
                c,
                ro,
            ),
        forall|q1: int, q2: int|
            0 <= q1 < q2 < cand_idx(records, c, ro, n).len() ==> #[trigger] cand_idx(
                records,
                c,
                ro,
                n,
            )[q1] < #[trigger] cand_idx(records, c, ro, n)[q2],
    decreases n,
{
    if n > 0 {
        lemma_cand_idx_elems(records, c, ro, n - 1);
        let pre = cand_idx(records, c, ro, n - 1);
        let cur = cand_idx(records, c, ro, n);
        if is_candidate(records[n - 1], c, ro) {
            assert(cur == pre.push((n - 1) as usize));
            assert(cur.len() == pre.len() + 1);
            assert(cur[pre.len() as int] == (n - 1) as usize);
        } else {
            assert(cur == pre);
        }
        assert(forall|q: int| 0 <= q < pre.len() ==> cur[q] == #[trigger] pre[q]);
        assert forall|q: int| 0 <= q < cur.len() implies #[trigger] cur[q] < n && is_candidate(
            records[cur[q] as int],
            c,
            ro,
        ) by {
            if q < pre.len() {
                assert(cur[q] == pre[q]);
            } else {
                assert(cur[q] == (n - 1) as usize);
            }
        }
        assert forall|q1: int, q2: int|
            0 <= q1 < q2 < cur.len() implies #[trigger] cur[q1] < #[trigger] cur[q2] by {
            if q2 < pre.len() {
                assert(cur[q1] == pre[q1] && cur[q2] == pre[q2]);
            } else {
                assert(cur[q1] == pre[q1]);
                assert(pre[q1] < n - 1);
            }
        }
    }
}

/// Filling keeps the already selected entries in place.
proof fn lemma_fill_prefix(records: Seq<RecordItem>, acc: Seq<usize>, cands: Seq<usize>)
    ensures
        forall|q: int|
            0 <= q < acc.len() ==> #[trigger] fill_cands(records, acc, cands)[q] == acc[q],
    decreases cands.len(),
{
    lemma_fill_len(records, acc, cands);
    if cands.len() > 0 {
        let c0 = cands[0];
        let rest = cands.drop_first();
        if id_present(records, acc, records[c0 as int].id@) {
            lemma_fill_prefix(records, acc, rest);
            assert(fill_cands(records, acc, cands) == fill_cands(records, acc, rest));
        } else {
            lemma_fill_prefix(records, acc.push(c0), rest);
            assert(fill_cands(records, acc, cands) == fill_cands(records, acc.push(c0), rest));
            assert forall|q: int|
                0 <= q < acc.len() implies #[trigger] fill_cands(records, acc, cands)[q]
                == acc[q] by {
                assert(fill_cands(records, acc.push(c0), rest)[q] == acc.push(c0)[q]);
                assert(acc.push(c0)[q] == acc[q]);
            }
        }
    }
}

/// Every filled entry comes from the selection or from the candidates.
proof fn lemma_fill_elems(records: Seq<RecordItem>, acc: Seq<usize>, cands: Seq<usize>, e: usize)
    requires
        fill_cands(records, acc, cands).contains(e),
    ensures
        acc.contains(e) || cands.contains(e),
    decreases cands.len(),
{
    if cands.len() > 0 {
        let c0 = cands[0];
        let rest = cands.drop_first();
        if id_present(records, acc, records[c0 as int].id@) {
            lemma_fill_elems(records, acc, rest, e);
            if rest.contains(e) {
                let q = choose|q: int| 0 <= q < rest.len() && rest[q] == e;
                assert(cands[q + 1] == e);
            }
        } else {
            lemma_fill_elems(records, acc.push(c0), rest, e);
            if acc.push(c0).contains(e) {
                lemma_push_contains(acc, c0, e);
                if e == c0 {
                    assert(cands[0] == e);
                }
            }
            if rest.contains(e) {
                let q = choose|q: int| 0 <= q < rest.len() && rest[q] == e;
                assert(cands[q + 1] == e);
            }
        }
    }
}

/// Filling never makes an id appear twice when the already selected ids
/// are pairwise distinct.
proof fn lemma_fill_ids_distinct(records: Seq<RecordItem>, acc: Seq<usize>, cands: Seq<usize>)
    requires
        forall|q1: int, q2: int|
            0 <= q1 < q2 < acc.len() ==> records[#[trigger] acc[q1] as int].id@
                != records[#[trigger] acc[q2] as int].id@,
    ensures
        forall|q1: int, q2: int|
            0 <= q1 < q2 < fill_cands(records, acc, cands).len() ==> records[#[trigger] fill_cands(
                records,
                acc,
                cands,
            )[q1] as int].id@ != records[#[trigger] fill_cands(records, acc, cands)[q2] as int].id@,
    decreases cands.len(),
{
    if cands.len() > 0 {
        let c0 = cands[0];
        let rest = cands.drop_first();
        if id_present(records, acc, records[c0 as int].id@) {
            lemma_fill_ids_distinct(records, acc, rest);
            assert(fill_cands(records, acc, cands) == fill_cands(records, acc, rest));
        } else {
            assert forall|q1: int, q2: int|
                0 <= q1 < q2 < acc.push(c0).len() implies records[#[trigger] acc.push(
                c0,
            )[q1] as int].id@ != records[#[trigger] acc.push(c0)[q2] as int].id@ by {
                if q2 == acc.len() {
                    assert(!id_present(records, acc, records[c0 as int].id@));
                    assert(acc[q1] == acc.push(c0)[q1]);
                }
            }
            lemma_fill_ids_distinct(records, acc.push(c0), rest);
            assert(fill_cands(records, acc, cands) == fill_cands(records, acc.push(c0), rest));
        }
    }
}

/// The output never exceeds the resolved result cap: for every input and
/// every clamped cap `k`, at most `k` records are selected.
pub proof fn lemma_output_within_cap(records: Seq<RecordItem>, c: CaseItem, opts: Option<RankOpts>)
    ensures
        selected_idx(records, c, opts).len() <= resolved_of(c, opts).k,
{
    let ro = resolved_of(c, opts);
    let k = ro.k as int;
    let mains = sort_ord(main_idx(records, c, records.len() as int), main_lt(records, c, ro));
    let cands = sort_ord(cand_idx(records, c, ro, records.len() as int), cand_lt(records, c, ro));
    let taken = if mains.len() <= k {
        mains
    } else {
        mains.take(k)
    };
    let remain = k - taken.len();
    let cpart = if cands.len() <= remain {
        cands
    } else {
        cands.take(remain)
    };
    lemma_fill_len(records, taken, cpart);
}

/// Every record of the main actor that passes the time window is selected
/// whenever there is room for all main-actor hits under the cap.
pub proof fn lemma_main_hits_included(
    records: Seq<RecordItem>,
    c: CaseItem,
    opts: Option<RankOpts>,
    j: int,
)
    requires
        records.len() <= usize::MAX,
        0 <= j < records.len(),
        is_main_hit(records[j], c),
        main_idx(records, c, records.len() as int).len() <= resolved_of(c, opts).k as int,
    ensures
        selected_idx(records, c, opts).contains(j as usize),
{
    let ro = resolved_of(c, opts);
    let k = ro.k as int;
    let mi = main_idx(records, c, records.len() as int);
    let mains = sort_ord(mi, main_lt(records, c, ro));
    lemma_main_idx_elems(records, c, records.len() as int);
    lemma_sort_elems(mi, main_lt(records, c, ro));
    assert(mains.contains(j as usize));
    assert(mains.len() <= k);
    let taken = mains;
    let cands = sort_ord(cand_idx(records, c, ro, records.len() as int), cand_lt(records, c, ro));
    let remain = k - taken.len();
    let cpart = if cands.len() <= remain {
        cands
    } else {
        cands.take(remain)
    };
    lemma_fill_prefix(records, taken, cpart);
    lemma_fill_len(records, taken, cpart);
    let q = choose|q: int| 0 <= q < taken.len() && taken[q] == j as usize;
    assert(fill_cands(records, taken, cpart)[q] == j as usize);
    assert(selected_idx(records, c, opts).contains(j as usize));
}

/// Main-actor hits come first: the leading output slots hold the sorted
/// main-actor hits, up to the cap, before any candidate is considered.
pub proof fn lemma_main_hits_first(records: Seq<RecordItem>, c: CaseItem, opts: Option<RankOpts>)
    ensures
        ({
            let ro = resolved_of(c, opts);
            let mains = sort_ord(
                main_idx(records, c, records.len() as int),
                main_lt(records, c, ro),
            );
            let m = if mains.len() <= ro.k as int {
                mains.len() as int
            } else {
                ro.k as int
            };
            &&& selected_idx(records, c, opts).len() >= m
            &&& forall|i: int| 0 <= i < m ==> selected_idx(records, c, opts)[i] == mains[i]
        }),
{
    let ro = resolved_of(c, opts);
    let k = ro.k as int;
    let mains = sort_ord(main_idx(records, c, records.len() as int), main_lt(records, c, ro));
    let cands = sort_ord(cand_idx(records, c, ro, records.len() as int), cand_lt(records, c, ro));
    let taken = if mains.len() <= k {
        mains
    } else {
        mains.take(k)
    };
    let remain = k - taken.len();
    let cpart = if cands.len() <= remain {
        cands
    } else {
        cands.take(remain)
    };
    lemma_fill_prefix(records, taken, cpart);
    lemma_fill_len(records, taken, cpart);
}

/// When the input ids are pairwise distinct, no id appears twice among the
/// selected records.
pub proof fn lemma_output_ids_distinct(
    records: Seq<RecordItem>,
    c: CaseItem,
    opts: Option<RankOpts>,
)
    requires
        records.len() <= usize::MAX,
        forall|j1: int, j2: int|
            0 <= j1 < j2 < records.len() ==> records[j1].id@ != records[j2].id@,
    ensures
        forall|i1: int, i2: int|
            0 <= i1 < i2 < selected_idx(records, c, opts).len() ==> records[#[trigger] selected_idx(
                records,
                c,
                opts,
            )[i1] as int].id@ != records[#[trigger] selected_idx(records, c, opts)[i2] as int].id@,
{
    let ro = resolved_of(c, opts);
    let k = ro.k as int;
    let n = records.len() as int;
    let mi = main_idx(records, c, n);
    let mlt = main_lt(records, c, ro);
    let mains = sort_ord(mi, mlt);
    lemma_main_idx_elems(records, c, n);
    assert(mi.no_duplicates());
    lemma_sort_no_dup(mi, mlt);
    lemma_sort_elems(mi, mlt);
    let taken = if mains.len() <= k {
        mains
    } else {
        mains.take(k)
    };
    assert(taken.no_duplicates()) by {
        assert(forall|q: int| 0 <= q < taken.len() ==> taken[q] == mains[q]);
    }
    assert forall|q: int| 0 <= q < taken.len() implies #[trigger] taken[q] < records.len() by {
        assert(mains.contains(mains[q]));
        assert(mi.contains(mains[q]));
        let w = choose|w: int| 0 <= w < mi.len() && mi[w] == mains[q];
        assert(mi[w] < n);
    }
    assert forall|q1: int, q2: int|
        0 <= q1 < q2 < taken.len() implies records[#[trigger] taken[q1] as int].id@
        != records[#[trigger] taken[q2] as int].id@ by {
        assert(taken[q1] != taken[q2]);
    }
    let cands = sort_ord(cand_idx(records, c, ro, n), cand_lt(records, c, ro));
    let remain = k - taken.len();
    let cpart = if cands.len() <= remain {
        cands
    } else {
        cands.take(remain)
    };
    lemma_fill_ids_distinct(records, taken, cpart);
}

/// A record outside the time window is never selected, main actor or not.
pub proof fn lemma_window_respected(
    records: Seq<RecordItem>,
    c: CaseItem,
    opts: Option<RankOpts>,
    i: int,
)
    requires
        records.len() <= usize::MAX,
        0 <= i < selected_idx(records, c, opts).len(),
    ensures
        selected_idx(records, c, opts)[i] < records.len(),
        rec_in_window(records[selected_idx(records, c, opts)[i] as int], c),
{
    let ro = resolved_of(c, opts);
    let k = ro.k as int;
    let n = records.len() as int;
    let mi = main_idx(records, c, n);
    let ci = cand_idx(records, c, ro, n);
    let mains = sort_ord(mi, main_lt(records, c, ro));
    let cands = sort_ord(ci, cand_lt(records, c, ro));
    let taken = if mains.len() <= k {
        mains
    } else {
        mains.take(k)
    };
    let remain = k - taken.len();
    let cpart = if cands.len() <= remain {
        cands
    } else {
        cands.take(remain)
    };
    let sel = selected_idx(records, c, opts);
    let e = sel[i];
    assert(sel.contains(e));
    lemma_fill_elems(records, taken, cpart, e);
    lemma_main_idx_elems(records, c, n);
    lemma_cand_idx_elems(records, c, ro, n);
    lemma_sort_elems(mi, main_lt(records, c, ro));
    lemma_sort_elems(ci, cand_lt(records, c, ro));
    if taken.contains(e) {
        let q = choose|q: int| 0 <= q < taken.len() && taken[q] == e;
        assert(mains[q] == e);
        assert(mains.contains(e));
        assert(mi.contains(e));
        let w = choose|w: int| 0 <= w < mi.len() && mi[w] == e;
        assert(is_main_hit(records[e as int], c));
    } else {
        assert(cpart.contains(e));
        let q = choose|q: int| 0 <= q < cpart.len() && cpart[q] == e;
        assert(cands[q] == e);
        assert(cands.contains(e));
        assert(ci.contains(e));
        let w = choose|w: int| 0 <= w < ci.len() && ci[w] == e;
        assert(is_candidate(records[e as int], c, ro));
    }
}

/// With an empty query every similarity count is zero, so a candidate is
/// admitted only through an actor match or a related hit.
pub proof fn lemma_empty_query_candidates(
    records: Seq<RecordItem>,
    c: CaseItem,
    ro: ResolvedRankOpts,
    j: int,
)
    requires
        0 <= j < records.len(),
        case_tokens(c).len() == 0,
    ensures
        rec_sim_hits(records[j], c) == 0,
        is_candidate(records[j], c, ro) ==> (rec_actor_match(records[j], c.actors@)
            || related_count(records[j].related@, c.actors@) > 0),
{
}

/// Whether two records carry equal sort keys: same timestamp, same score,
/// same id.  The comparators do not order such records; the stable sort
/// keeps their input order.
pub open spec fn rec_key_tie(
    records: Seq<RecordItem>,
    c: CaseItem,
    ro: ResolvedRankOpts,
    x: usize,
    y: usize,
) -> bool {
    let a = records[x as int];
    let b = records[y as int];
    &&& a.ts@ == b.ts@
    &&& rec_score_num(a, c, ro) == rec_score_num(b, c, ro)
    &&& a.id@ == b.id@
}

/// The order used for one sorting pass, as a first-order relation.
pub open spec fn before_rel(
    records: Seq<RecordItem>,
    c: CaseItem,
    ro: ResolvedRankOpts,
    main_mode: bool,
    x: usize,
    y: usize,
) -> bool {
    if main_mode {
        main_before(records, c, ro, x, y)
    } else {
        cand_before(records, c, ro, x, y)
    }
}

/// No record sorts strictly before itself.
proof fn lemma_rel_irrefl(
    records: Seq<RecordItem>,
    c: CaseItem,
    ro: ResolvedRankOpts,
    main_mode: bool,
    x: usize,
)
    ensures
        !before_rel(records, c, ro, main_mode, x, x),
{
    crate::text::lemma_lex_irrefl(records[x as int].ts@);
    crate::text::lemma_lex_irrefl(records[x as int].id@);
}

/// Two records are ordered one way or the other, or their keys tie.
proof fn lemma_rel_total(
    records: Seq<RecordItem>,
    c: CaseItem,
    ro: ResolvedRankOpts,
    main_mode: bool,
    x: usize,
    y: usize,
)
    ensures
        before_rel(records, c, ro, main_mode, x, y) || before_rel(records, c, ro, main_mode, y, x)
            || rec_key_tie(records, c, ro, x, y),
{
    let a = records[x as int];
    let b = records[y as int];
    crate::text::lemma_lex_trichotomy(a.ts@, b.ts@);
    crate::text::lemma_lex_trichotomy(a.id@, b.id@);
}

/// The order is transitive.
proof fn lemma_rel_trans(
    records: Seq<RecordItem>,
    c: CaseItem,
    ro: ResolvedRankOpts,
    main_mode: bool,
    x: usize,
    y: usize,
    z: usize,
)
    requires
        before_rel(records, c, ro, main_mode, x, y),
        before_rel(records, c, ro, main_mode, y, z),
    ensures
        before_rel(records, c, ro, main_mode, x, z),
{
    let a = records[x as int];
    let b = records[y as int];
    let d = records[z as int];
    if lex_lt(d.ts@, b.ts@) && lex_lt(b.ts@, a.ts@) {
        crate::text::lemma_lex_trans(d.ts@, b.ts@, a.ts@);
    }
    if lex_lt(d.ts@, a.ts@) {
        crate::text::lemma_lex_irrefl(d.ts@);
        crate::text::lemma_lex_irrefl(a.ts@);
        if a.ts@ == d.ts@ {
            assert(lex_lt(d.ts@, d.ts@));
        }
    }
    if lex_lt(a.id@, b.id@) && lex_lt(b.id@, d.id@) {
        crate::text::lemma_lex_trans(a.id@, b.id@, d.id@);
    }
    if lex_lt(d.ts@, b.ts@) && a.ts@ == b.ts@ {
        crate::text::lemma_lex_irrefl(d.ts@);
        if a.ts@ == d.ts@ {
            assert(lex_lt(d.ts@, d.ts@));
        }
    }
    if lex_lt(b.ts@, a.ts@) && b.ts@ == d.ts@ {
        crate::text::lemma_lex_irrefl(d.ts@);
        if a.ts@ == d.ts@ {
            assert(lex_lt(d.ts@, d.ts@));
        }
    }
}

/// Equal keys are interchangeable on either side of the order.
proof fn lemma_rel_tie_compat(
    records: Seq<RecordItem>,
    c: CaseItem,
    ro: ResolvedRankOpts,
    main_mode: bool,
    x: usize,
    y: usize,
    z: usize,
)
    requires
        rec_key_tie(records, c, ro, x, y),
    ensures
        before_rel(records, c, ro, main_mode, x, z) == before_rel(records, c, ro, main_mode, y, z),
        before_rel(records, c, ro, main_mode, z, x) == before_rel(records, c, ro, main_mode, z, y),
{
}

/// The order is asymmetric.
proof fn lemma_rel_asym(
    records: Seq<RecordItem>,
    c: CaseItem,
    ro: ResolvedRankOpts,
    main_mode: bool,
    x: usize,
    y: usize,
)
    requires
        before_rel(records, c, ro, main_mode, x, y),
    ensures
        !before_rel(records, c, ro, main_mode, y, x),
{
    if before_rel(records, c, ro, main_mode, y, x) {
        lemma_rel_trans(records, c, ro, main_mode, x, y, x);
        lemma_rel_irrefl(records, c, ro, main_mode, x);
    }
}

/// Not sorting before is transitive.
proof fn lemma_rel_neg_trans(
    records: Seq<RecordItem>,
    c: CaseItem,
    ro: ResolvedRankOpts,
    main_mode: bool,
    x: usize,
    y: usize,
    z: usize,
)
    requires
        !before_rel(records, c, ro, main_mode, x, y),
        !before_rel(records, c, ro, main_mode, y, z),
    ensures
        !before_rel(records, c, ro, main_mode, x, z),
{
    if before_rel(records, c, ro, main_mode, x, z) {
        lemma_rel_total(records, c, ro, main_mode, x, y);
        if rec_key_tie(records, c, ro, x, y) {
            lemma_rel_tie_compat(records, c, ro, main_mode, x, y, z);
        } else {
            lemma_rel_trans(records, c, ro, main_mode, y, x, z);
        }
    }
}

/// No pair of positions in `[lo, hi)` of `s` is inverted under the order.
pub open spec fn no_inversions(
    records: Seq<RecordItem>,
    c: CaseItem,
    ro: ResolvedRankOpts,
    main_mode: bool,
    s: Seq<usize>,
    lo: int,
    hi: int,
) -> bool {
    forall|i: int, j: int|
        lo <= i < j < hi ==> !before_rel(records, c, ro, main_mode, #[trigger] s[j], #[trigger] s[i])
}

/// Stable insertion keeps the sequence free of inversions.
proof fn lemma_insert_keeps_order(
    records: Seq<RecordItem>,
    c: CaseItem,
    ro: ResolvedRankOpts,
    main_mode: bool,
    s: Seq<usize>,
    x: usize,
)
    requires
        no_inversions(records, c, ro, main_mode, s, 0, s.len() as int),
    ensures
        no_inversions(
            records,
            c,
            ro,
            main_mode,
            insert_ord(s, x, chosen_lt(records, c, ro, main_mode)),
            0,
            insert_ord(s, x, chosen_lt(records, c, ro, main_mode)).len() as int,
        ),
    decreases s.len(),
{
    let lt = chosen_lt(records, c, ro, main_mode);
    let res = insert_ord(s, x, lt);
    if s.len() == 0 {
        assert(no_inversions(records, c, ro, main_mode, res, 0, res.len() as int));
    } else if lt(x, s.last()) {
        let inner = insert_ord(s.drop_last(), x, lt);
        assert(no_inversions(records, c, ro, main_mode, s.drop_last(), 0, s.len() - 1)) by {
            assert(forall|q: int| 0 <= q < s.len() - 1 ==> s.drop_last()[q] == #[trigger] s[q]);
        }
        lemma_insert_keeps_order(records, c, ro, main_mode, s.drop_last(), x);
        lemma_insert_elems(s.drop_last(), x, lt);
        assert(res == inner.push(s.last()));
        assert forall|i: int, j: int|
            0 <= i < j < res.len() implies !before_rel(
            records,
            c,
            ro,
            main_mode,
            res[j],
            res[i],
        ) by {
            if j < inner.len() {
                assert(res[i] == inner[i] && res[j] == inner[j]);
            } else {
                assert(res[j] == s.last());
                assert(res[i] == inner[i]);
                assert(inner.contains(inner[i]));
                if inner[i] == x {
                    lemma_rel_asym(records, c, ro, main_mode, x, s.last());
                } else {
                    assert(s.drop_last().contains(inner[i]));
                    let q = choose|q: int|
                        0 <= q < s.drop_last().len() && s.drop_last()[q] == inner[i];
                    assert(s[q] == inner[i]);
                    assert(!before_rel(records, c, ro, main_mode, s[s.len() - 1], s[q]));
                }
            }
        }
    } else {
        assert(res == s.push(x));
        assert forall|i: int, j: int|
            0 <= i < j < res.len() implies !before_rel(
            records,
            c,
            ro,
            main_mode,
            res[j],
            res[i],
        ) by {
            if j == s.len() {
                assert(res[j] == x);
                assert(res[i] == s[i]);
                assert(!before_rel(records, c, ro, main_mode, x, s.last()));
                if i < s.len() - 1 {
                    assert(!before_rel(records, c, ro, main_mode, s[s.len() - 1], s[i]));
                    lemma_rel_neg_trans(records, c, ro, main_mode, x, s.last(), s[i]);
                }
            } else {
                assert(res[i] == s[i] && res[j] == s[j]);
            }
        }
    }
}

/// Sorting leaves no inversions.
proof fn lemma_sort_keeps_order(
    records: Seq<RecordItem>,
    c: CaseItem,
    ro: ResolvedRankOpts,
    main_mode: bool,
    s: Seq<usize>,
)
    ensures
        no_inversions(
            records,
            c,
            ro,
            main_mode,
            sort_ord(s, chosen_lt(records, c, ro, main_mode)),
            0,
            sort_ord(s, chosen_lt(records, c, ro, main_mode)).len() as int,
        ),
    decreases s.len(),
{
    let lt = chosen_lt(records, c, ro, main_mode);
    if s.len() == 0 {
        assert(no_inversions(records, c, ro, main_mode, sort_ord(s, lt), 0, 0));
    } else {
        lemma_sort_keeps_order(records, c, ro, main_mode, s.drop_last());
        lemma_insert_keeps_order(records, c, ro, main_mode, sort_ord(s.drop_last(), lt), s.last());
    }
}

/// Positions beyond the selected prefix hold candidates.
proof fn lemma_fill_tail_elems(
    records: Seq<RecordItem>,
    acc: Seq<usize>,
    cands: Seq<usize>,
    p: int,
)
    requires
        acc.len() <= p < fill_cands(records, acc, cands).len(),
    ensures
        cands.contains(fill_cands(records, acc, cands)[p]),
    decreases cands.len(),
{
    let fill = fill_cands(records, acc, cands);
    if cands.len() > 0 {
        let c0 = cands[0];
        let rest = cands.drop_first();
        if id_present(records, acc, records[c0 as int].id@) {
            lemma_fill_tail_elems(records, acc, rest, p);
            let e = fill[p];
            assert(rest.contains(e));
            let q = choose|q: int| 0 <= q < rest.len() && rest[q] == e;
            assert(cands[q + 1] == e);
        } else {
            lemma_fill_len(records, acc.push(c0), rest);
            if p == acc.len() {
                lemma_fill_prefix(records, acc.push(c0), rest);
                assert(fill[p] == acc.push(c0)[p]);
                assert(fill[p] == cands[0]);
            } else {
                lemma_fill_tail_elems(records, acc.push(c0), rest, p);
                let e = fill[p];
                assert(rest.contains(e));
                let q = choose|q: int| 0 <= q < rest.len() && rest[q] == e;
                assert(cands[q + 1] == e);
            }
        }
    }
}

/// Filling from an inversion-free candidate list leaves the filled tail
/// free of inversions.
proof fn lemma_fill_tail_order(
    records: Seq<RecordItem>,
    c: CaseItem,
    ro: ResolvedRankOpts,
    acc: Seq<usize>,
    cands: Seq<usize>,
)
    requires
        no_inversions(records, c, ro, false, cands, 0, cands.len() as int),
    ensures
        no_inversions(
            records,
            c,
            ro,
            false,
            fill_cands(records, acc, cands),
            acc.len() as int,
            fill_cands(records, acc, cands).len() as int,
        ),
    decreases cands.len(),
{
    let fill = fill_cands(records, acc, cands);
    if cands.len() > 0 {
        let c0 = cands[0];
        let rest = cands.drop_first();
        assert(no_inversions(records, c, ro, false, rest, 0, rest.len() as int)) by {
            assert(forall|q: int| 0 <= q < rest.len() ==> #[trigger] rest[q] == cands[q + 1]);
        }
        if id_present(records, acc, records[c0 as int].id@) {
            lemma_fill_tail_order(records, c, ro, acc, rest);
        } else {
            lemma_fill_tail_order(records, c, ro, acc.push(c0), rest);
            lemma_fill_prefix(records, acc.push(c0), rest);
            lemma_fill_len(records, acc.push(c0), rest);
            assert forall|i: int, j: int|
                acc.len() <= i < j < fill.len() implies !before_rel(
                records,
                c,
                ro,
                false,
                fill[j],
                fill[i],
            ) by {
                if i == acc.len() {
                    assert(fill[i] == acc.push(c0)[i]);
                    assert(fill[i] == cands[0]);
                    lemma_fill_tail_elems(records, acc.push(c0), rest, j);
                    let e = fill[j];
                    assert(rest.contains(e));
                    let q = choose|q: int| 0 <= q < rest.len() && rest[q] == e;
                    assert(cands[q + 1] == e);
                    assert(!before_rel(records, c, ro, false, cands[q + 1], cands[0]));
                }
            }
        }
    }
}

/// The output is ordered as documented: the main-actor prefix most recent
/// first (score, then id, breaking ties), and the candidate tail highest
/// score first (timestamp, then id, breaking ties).
pub proof fn lemma_output_ordered(records: Seq<RecordItem>, c: CaseItem, opts: Option<RankOpts>)
    ensures
        ({
            let ro = resolved_of(c, opts);
            let sel = selected_idx(records, c, opts);
            let mains = sort_ord(
                main_idx(records, c, records.len() as int),
                main_lt(records, c, ro),
            );
            let m = if mains.len() <= ro.k as int {
                mains.len() as int
            } else {
                ro.k as int
            };
            &&& no_inversions(records, c, ro, true, sel, 0, m)
            &&& no_inversions(records, c, ro, false, sel, m, sel.len() as int)
        }),
{
    let ro = resolved_of(c, opts);
    let k = ro.k as int;
    let sel = selected_idx(records, c, opts);
    let mi = main_idx(records, c, records.len() as int);
    let ci = cand_idx(records, c, ro, records.len() as int);
    let mains = sort_ord(mi, main_lt(records, c, ro));
    let cands = sort_ord(ci, cand_lt(records, c, ro));
    let taken = if mains.len() <= k {
        mains
    } else {
        mains.take(k)
    };
    let remain = k - taken.len();
    let cpart = if cands.len() <= remain {
        cands
    } else {
        cands.take(remain)
    };
    let m = taken.len() as int;
    lemma_sort_keeps_order(records, c, ro, true, mi);
    lemma_sort_keeps_order(records, c, ro, false, ci);
    lemma_fill_prefix(records, taken, cpart);
    lemma_fill_len(records, taken, cpart);
    assert(no_inversions(records, c, ro, true, sel, 0, m)) by {
        assert(forall|q: int| 0 <= q < m ==> #[trigger] sel[q] == taken[q]);
        assert(forall|q: int| 0 <= q < m ==> taken[q] == #[trigger] mains[q]);
    }
    assert(no_inversions(records, c, ro, false, cpart, 0, cpart.len() as int)) by {
        assert(forall|q: int| 0 <= q < cpart.len() ==> #[trigger] cpart[q] == cands[q]);
    }
    lemma_fill_tail_order(records, c, ro, taken, cpart);
}

/// Ranking is deterministic: two outputs that both satisfy the ranking
/// contract on the same inputs agree everywhere — same ids, scores, ranks,
/// reason labels and components, in the same order.
pub proof fn lemma_deterministic(
    records: Seq<RecordItem>,
    c: CaseItem,
    opts: Option<RankOpts>,
    out1: Seq<RankedHit>,
    out2: Seq<RankedHit>,
)
    requires
        rank_post(records, c, opts, out1),
        rank_post(records, c, opts, out2),
    ensures
        out1.len() == out2.len(),
        forall|i: int|
            0 <= i < out1.len() ==> #[trigger] out1[i].id == out2[i].id && out1[i].score
                == out2[i].score && out1[i].rank == out2[i].rank && out1[i].reasons.deep_view()
                == out2[i].reasons.deep_view() && out1[i].components == out2[i].components,
{
    assert forall|i: int|
        0 <= i < out1.len() implies #[trigger] out1[i].id == out2[i].id && out1[i].score
        == out2[i].score && out1[i].rank == out2[i].rank && out1[i].reasons.deep_view()
        == out2[i].reasons.deep_view() && out1[i].components == out2[i].components by {
        assert(rank_post(records, c, opts, out2));
        let sel = selected_idx(records, c, opts);
        assert(hit_matches(records, c, resolved_of(c, opts), out1[i], sel[i] as int, i));
        assert(hit_matches(records, c, resolved_of(c, opts), out2[i], sel[i] as int, i));
    }
}

} // verus!
