//! The report payload and its pure text-shaping helper.
//!
//! Document rendering itself is presentational I/O and lives outside the
//! library; these types describe what a rendered case paper consumes, and
//! `wrap_every` prepares long tokens (hashes, ids) for line breaking.

use vstd::prelude::*;
use crate::text::push_char;

verus! {

/// One row of the rendered timeline and evidence tables.
#[derive(Debug, Clone)]
pub struct PaperRecordRow {
    /// When the entry happened.
    pub when: String,
    /// Entry kind: a record, a step taken, or an advisory.
    pub kind: String,
    /// Sensitivity level.
    pub lv: String,
    /// The acting party.
    pub actor: String,
    /// Where it happened.
    pub place: String,
    /// One-line summary.
    pub summary: String,
    /// Identifier of the underlying record.
    pub id: String,
    /// Why the entry was included, when known.
    pub reason: Option<String>,
}

/// Everything a rendered case paper consumes, pre-formatted by the caller.
#[derive(Debug, Clone)]
pub struct PaperPayload {
    /// Case title.
    pub title: String,
    /// Case identifier.
    pub case_id: String,
    /// When the paper was generated.
    pub generated_at: String,
    /// Integrity hash of the exported data.
    pub hash_sha256: String,
    /// Overview lines.
    pub overview_lines: Vec<String>,
    /// Advisory lines.
    pub advisors: Vec<String>,
    /// Key fact lines.
    pub facts: Vec<String>,
    /// Timeline and evidence rows.
    pub records: Vec<PaperRecordRow>,
}

/// Arguments of a PDF export: the payload and the full output path.
#[derive(Debug, Clone)]
pub struct ExportPdfArgs {
    /// The paper to render.
    pub paper: PaperPayload,
    /// Full output path, when the caller chose one.
    pub file_name: Option<String>,
}

/// Arguments of a backup export: the serialized data and the full output
/// path.
#[derive(Debug, Clone)]
pub struct ExportBackupArgs {
    /// Full output path, when the caller chose one.
    pub file_name: Option<String>,
    /// The pre-serialized backup data.
    pub json: String,
}

/// The first `i` characters of `s` with a space before every position that
/// is a positive multiple of `n`.
pub open spec fn wrap_prefix(s: Seq<char>, n: int, i: int) -> Seq<char>
    decreases i,
{
    if i <= 0 {
        Seq::empty()
    } else {
        wrap_prefix(s, n, i - 1) + (if i - 1 > 0 && (i - 1) % n == 0 {
            seq![' ']
        } else {
            Seq::empty()
        }) + seq![s[i - 1]]
    }
}

/// `s` with a space inserted every `n` characters; `n == 0` leaves `s`
/// unchanged.
pub open spec fn wrap_every_str(s: Seq<char>, n: int) -> Seq<char> {
    if n == 0 {
        s
    } else {
        wrap_prefix(s, n, s.len() as int)
    }
}

/// Inserts a space every `n` characters, so long tokens (hashes, ids) can
/// break across lines; `n == 0` returns the text unchanged.
pub fn wrap_every(s: &str, n: usize) -> (r: String)
    ensures
        r@ == wrap_every_str(s@, n as int),
{
    if n == 0 {
        return s.to_owned();
    }
    let len: usize = s.unicode_len();
    let mut out: String = String::new();
    let mut i: usize = 0;
    while i < len
        invariant
            len == s@.len(),
            n > 0,
            0 <= i <= len,
            out@ == wrap_prefix(s@, n as int, i as int),
        decreases len - i,
    {
        let ch = s.get_char(i);
        if i > 0 && i % n == 0 {
            push_char(&mut out, ' ');
        }
        push_char(&mut out, ch);
        proof {
            assert(out@ =~= wrap_prefix(s@, n as int, i + 1 as int));
        }
        i = i + 1;
    }
    out
}

} // verus!
