//! Text canonicalization and tokenization.
//!
//! `norm` lower-cases a string, removes zero-width marks, collapses
//! whitespace runs to single spaces and trims the ends.  `tokenize` splits a
//! string at maximal non-word-character boundaries, normalizes each run and
//! keeps the runs whose normalized UTF-8 length is at least two bytes.

use vstd::prelude::*;

verus! {

/// Code points with the Unicode `White_Space` property, as used by
/// `char::is_whitespace`.
pub open spec fn is_space_char(c: char) -> bool {
    let cp = c as u32;
    (0x09 <= cp && cp <= 0x0D) || cp == 0x20 || cp == 0x85 || cp == 0xA0
        || cp == 0x1680 || (0x2000 <= cp && cp <= 0x200A) || cp == 0x2028
        || cp == 0x2029 || cp == 0x202F || cp == 0x205F || cp == 0x3000
}

/// Runtime test for `is_space_char`.
pub fn is_space(c: char) -> (r: bool)
    ensures
        r == is_space_char(c),
{
    let cp: u32 = c as u32;
    (0x09 <= cp && cp <= 0x0D) || cp == 0x20 || cp == 0x85 || cp == 0xA0
        || cp == 0x1680 || (0x2000 <= cp && cp <= 0x200A) || cp == 0x2028
        || cp == 0x2029 || cp == 0x202F || cp == 0x205F || cp == 0x3000
}

/// The zero-width code points removed by normalization: U+200B, U+200C,
/// U+200D and U+FEFF.
pub open spec fn is_zero_width_char(c: char) -> bool {
    let cp = c as u32;
    cp == 0x200B || cp == 0x200C || cp == 0x200D || cp == 0xFEFF
}

/// Runtime test for `is_zero_width_char`.
pub fn is_zero_width(c: char) -> (r: bool)
    ensures
        r == is_zero_width_char(c),
{
    let cp: u32 = c as u32;
    cp == 0x200B || cp == 0x200C || cp == 0x200D || cp == 0xFEFF
}

/// A word character is an ASCII digit or letter, a Hangul syllable, or a
/// Hangul compatibility jamo.
pub open spec fn is_word_cp(cp: u32) -> bool {
    (0x30 <= cp && cp <= 0x39) || (0x41 <= cp && cp <= 0x5A)
        || (0x61 <= cp && cp <= 0x7A) || (0xAC00 <= cp && cp <= 0xD7A3)
        || (0x3131 <= cp && cp <= 0x314E) || (0x314F <= cp && cp <= 0x3163)
}

/// Runtime test for `is_word_cp`.
pub fn is_word_char(cp: u32) -> (r: bool)
    ensures
        r == is_word_cp(cp),
{
    let is_ascii_num: bool = cp >= 0x30 && cp <= 0x39;
    let is_ascii_upper: bool = cp >= 0x41 && cp <= 0x5A;
    let is_ascii_lower: bool = cp >= 0x61 && cp <= 0x7A;
    let is_hangul_syllable: bool = cp >= 0xAC00 && cp <= 0xD7A3;
    let is_hangul_jamo1: bool = cp >= 0x3131 && cp <= 0x314E;
    let is_hangul_jamo2: bool = cp >= 0x314F && cp <= 0x3163;
    is_ascii_num || is_ascii_upper || is_ascii_lower || is_hangul_syllable
        || is_hangul_jamo1 || is_hangul_jamo2
}

/// The lowercase equivalent of a character sequence, as computed by
/// `str::to_lowercase`.  It depends on the characters alone.
pub uninterp spec fn lower_of(s: Seq<char>) -> Seq<char>;

/// Relies on `str::to_lowercase`: returns the lowercase equivalent of the
/// string, a function of its characters alone.
#[verifier::external_body]
fn to_lowercase_str(s: &str) -> (r: String)
    ensures
        r@ == lower_of(s@),
{
    s.to_lowercase()
}

/// Relies on `String::push`: appends the given character to the end of the
/// string.
#[verifier::external_body]
pub(crate) fn push_char(s: &mut String, c: char)
    ensures
        final(s)@ == old(s)@.push(c),
{
    s.push(c);
}

/// The sequence with the zero-width code points removed.
pub open spec fn strip_zero_width(s: Seq<char>) -> Seq<char>
    decreases s.len(),
{
    if s.len() == 0 {
        Seq::empty()
    } else {
        let pre = strip_zero_width(s.drop_last());
        if is_zero_width_char(s.last()) {
            pre
        } else {
            pre.push(s.last())
        }
    }
}

/// The predicate selecting the characters that whitespace collapsing keeps
/// inside a word.
pub open spec fn non_space() -> spec_fn(char) -> bool {
    |c: char| !is_space_char(c)
}

/// The predicate selecting word characters for tokenization.
pub open spec fn word_char() -> spec_fn(char) -> bool {
    |c: char| is_word_cp(c as u32)
}

/// The maximal runs of characters satisfying `p`, in order.  Characters not
/// satisfying `p` separate runs and are dropped.
pub open spec fn runs(s: Seq<char>, p: spec_fn(char) -> bool) -> Seq<Seq<char>>
    decreases s.len(),
{
    if s.len() == 0 {
        Seq::empty()
    } else {
        let rest = runs(s.drop_last(), p);
        let c = s.last();
        if !p(c) {
            rest
        } else if s.len() >= 2 && p(s[s.len() - 2]) {
            rest.update(rest.len() - 1, rest.last().push(c))
        } else {
            rest.push(seq![c])
        }
    }
}

/// The words joined with single spaces.
pub open spec fn join_words(ws: Seq<Seq<char>>) -> Seq<char>
    decreases ws.len(),
{
    if ws.len() == 0 {
        Seq::empty()
    } else if ws.len() == 1 {
        ws[0]
    } else {
        join_words(ws.drop_last()) + seq![' '] + ws.last()
    }
}

/// Canonicalized text: lower-cased, zero-width marks removed, whitespace
/// runs collapsed to single spaces, ends trimmed.
pub open spec fn norm_str(s: Seq<char>) -> Seq<char> {
    join_words(runs(strip_zero_width(lower_of(s)), non_space()))
}

/// Canonicalizes `s`: lower-cases it, removes the zero-width code points
/// U+200B, U+200C, U+200D and U+FEFF, splits on whitespace and rejoins the
/// words with single spaces.  Pure and total.
pub fn norm(s: &str) -> (r: String)
    ensures
        r@ == norm_str(s@),
{
    let low: String = to_lowercase_str(s);
    let lo: &str = low.as_str();
    let n: usize = lo.unicode_len();
    let mut out: String = String::new();
    let mut prev_word: bool = false;
    let mut has_word: bool = false;
    let mut i: usize = 0;
    while i < n
        invariant
            n == lo@.len(),
            lo@ == lower_of(s@),
            0 <= i <= n,
            prev_word == {
                let st = strip_zero_width(lo@.subrange(0, i as int));
                st.len() > 0 && !is_space_char(st.last())
            },
            has_word == (runs(strip_zero_width(lo@.subrange(0, i as int)), non_space()).len()
                > 0),
            out@ == join_words(runs(strip_zero_width(lo@.subrange(0, i as int)), non_space())),
        decreases n - i,
    {
        let ghost pre = lo@.subrange(0, i as int);
        let ghost st = strip_zero_width(pre);
        let ghost rs = runs(st, non_space());
        let c = lo.get_char(i);
        proof {
            assert(lo@.subrange(0, i + 1 as int).drop_last() =~= pre);
            assert(lo@.subrange(0, i + 1 as int).last() == c);
        }
        let ghost st2 = strip_zero_width(lo@.subrange(0, i + 1 as int));
        if is_zero_width(c) {
            proof {
                assert(st2 =~= st);
            }
        } else {
            proof {
                assert(st2 =~= st.push(c));
                assert(st2.drop_last() =~= st);
                assert(st2.last() == c);
            }
            if is_space(c) {
                proof {
                    assert(runs(st2, non_space()) =~= rs);
                }
                prev_word = false;
            } else {
                if prev_word {
                    // the last run extends by c
                    proof {
                        assert(st.len() > 0 && !is_space_char(st.last()));
                        assert(st2.len() >= 2 && !is_space_char(st2[st2.len() - 2]));
                        let rs2 = runs(st2, non_space());
                        assert(rs2 == rs.update(rs.len() - 1, rs.last().push(c)));
                        assert(rs.len() > 0) by {
                            lemma_runs_active(st, non_space());
                        }
                        assert(rs2.len() == rs.len());
                        assert(rs2.drop_last() =~= rs.drop_last());
                        assert(rs2.last() == rs.last().push(c));
                        if rs.len() == 1 {
                            assert(join_words(rs2) == rs2[0]);
                            assert(join_words(rs) == rs[0]);
                            assert(join_words(rs2) =~= join_words(rs).push(c));
                        } else {
                            assert(join_words(rs2) == join_words(rs2.drop_last()) + seq![' ']
                                + rs2.last());
                            assert(join_words(rs) == join_words(rs.drop_last()) + seq![' ']
                                + rs.last());
                            assert(join_words(rs2) =~= join_words(rs).push(c));
                        }
                    }
                    push_char(&mut out, c);
                } else {
                    // a new run starts with c
                    proof {
                        assert(st2.len() == 1 || is_space_char(st2[st2.len() - 2]));
                        let rs2 = runs(st2, non_space());
                        assert(rs2 == rs.push(seq![c]));
                        if rs.len() == 0 {
                            assert(join_words(rs2) == rs2[0]);
                            assert(join_words(rs2) =~= join_words(rs).push(c));
                        } else {
                            assert(rs2.drop_last() =~= rs);
                            assert(join_words(rs2) == join_words(rs) + seq![' '] + seq![c]);
                            assert(join_words(rs2) =~= join_words(rs).push(' ').push(c));
                        }
                    }
                    if has_word {
                        push_char(&mut out, ' ');
                    }
                    push_char(&mut out, c);
                    has_word = true;
                }
                prev_word = true;
            }
        }
        i = i + 1;
    }
    proof {
        assert(lo@.subrange(0, n as int) =~= lo@);
    }
    out
}

/// A token is kept when its UTF-8 encoding is at least two bytes long: two
/// or more characters, or a single character outside the ASCII range.
pub open spec fn keep_token(t: Seq<char>) -> bool {
    t.len() >= 2 || (t.len() == 1 && t[0] as u32 >= 0x80)
}

/// Runtime test for `keep_token`.
pub fn is_kept_token(t: &str) -> (r: bool)
    ensures
        r == keep_token(t@),
{
    let n: usize = t.unicode_len();
    if n >= 2 {
        true
    } else if n == 1 {
        t.get_char(0) as u32 >= 0x80
    } else {
        false
    }
}

/// Each run normalized, keeping the normalized runs that `keep_token`
/// admits, in order.
pub open spec fn norm_runs(rs: Seq<Seq<char>>) -> Seq<Seq<char>>
    decreases rs.len(),
{
    if rs.len() == 0 {
        Seq::empty()
    } else {
        let pre = norm_runs(rs.drop_last());
        let t = norm_str(rs.last());
        if keep_token(t) {
            pre.push(t)
        } else {
            pre
        }
    }
}

/// The tokens of `s`: maximal word-character runs, normalized, with the
/// short ones dropped.
pub open spec fn tokens_of(s: Seq<char>) -> Seq<Seq<char>> {
    norm_runs(runs(s, word_char()))
}

/// Splits `s` at maximal non-word-character boundaries, normalizes each run
/// and keeps the runs whose normalized form `keep_token` admits, in order.
pub fn tokenize(s: &str) -> (r: Vec<String>)
    ensures
        r.deep_view() == tokens_of(s@),
{
    let n: usize = s.unicode_len();
    let mut out: Vec<String> = Vec::new();
    let mut cur: String = String::new();
    let mut i: usize = 0;
    while i < n
        invariant
            n == s@.len(),
            0 <= i <= n,
            cur@ == {
                let pre = s@.subrange(0, i as int);
                if pre.len() > 0 && word_char()(pre.last()) {
                    runs(pre, word_char()).last()
                } else {
                    Seq::<char>::empty()
                }
            },
            ({
                let pre = s@.subrange(0, i as int);
                let rs = runs(pre, word_char());
                if pre.len() > 0 && word_char()(pre.last()) {
                    out.deep_view() == norm_runs(rs.drop_last())
                } else {
                    out.deep_view() == norm_runs(rs)
                }
            }),
        decreases n - i,
    {
        let ghost pre = s@.subrange(0, i as int);
        let ghost rs = runs(pre, word_char());
        let c = s.get_char(i);
        proof {
            assert(s@.subrange(0, i + 1 as int).drop_last() =~= pre);
            assert(s@.subrange(0, i + 1 as int).last() == c);
        }
        let ghost pre2 = s@.subrange(0, i + 1 as int);
        let ghost rs2 = runs(pre2, word_char());
        if is_word_char(c as u32) {
            if !cur.as_str().is_empty() {
                proof {
                    assert(pre.len() > 0 && word_char()(pre.last()));
                    assert(rs2 == rs.update(rs.len() - 1, rs.last().push(c)));
                    lemma_runs_active(pre, word_char());
                    assert(rs2.drop_last() =~= rs.drop_last());
                    assert(rs2.last() == rs.last().push(c));
                }
                push_char(&mut cur, c);
            } else {
                proof {
                    assert(cur@.len() == 0);
                    if pre.len() > 0 && word_char()(pre.last()) {
                        lemma_runs_active(pre, word_char());
                        assert(false);
                    }
                    assert(rs2 == rs.push(seq![c]));
                    assert(rs2.drop_last() =~= rs);
                    assert(cur@.push(c) =~= seq![c]);
                }
                push_char(&mut cur, c);
            }
        } else {
            proof {
                assert(rs2 == rs);
            }
            if !cur.as_str().is_empty() {
                proof {
                    assert(pre.len() > 0 && word_char()(pre.last()));
                    lemma_runs_active(pre, word_char());
                    assert(rs.last() == cur@);
                    assert(norm_runs(rs) == if keep_token(norm_str(cur@)) {
                        norm_runs(rs.drop_last()).push(norm_str(cur@))
                    } else {
                        norm_runs(rs.drop_last())
                    });
                }
                let t = norm(cur.as_str());
                if is_kept_token(t.as_str()) {
                    let ghost old_deep = out.deep_view();
                    out.push(t);
                    proof {
                        assert(out.deep_view() =~= old_deep.push(norm_str(cur@)));
                    }
                }
                cur = String::new();
            } else {
                proof {
                    if pre.len() > 0 && word_char()(pre.last()) {
                        lemma_runs_active(pre, word_char());
                        assert(false);
                    }
                }
            }
        }
        i = i + 1;
    }
    proof {
        assert(s@.subrange(0, n as int) =~= s@);
    }
    let ghost rs = runs(s@, word_char());
    if !cur.as_str().is_empty() {
        proof {
            assert(s@.len() > 0 && word_char()(s@.last()));
            lemma_runs_active(s@, word_char());
            assert(rs.last() == cur@);
            assert(norm_runs(rs) == if keep_token(norm_str(cur@)) {
                norm_runs(rs.drop_last()).push(norm_str(cur@))
            } else {
                norm_runs(rs.drop_last())
            });
        }
        let t = norm(cur.as_str());
        if is_kept_token(t.as_str()) {
            let ghost old_deep = out.deep_view();
            out.push(t);
            proof {
                assert(out.deep_view() =~= old_deep.push(norm_str(cur@)));
            }
        }
        proof {
            assert(out.deep_view() == norm_runs(rs));
        }
    } else {
        proof {
            if s@.len() > 0 && word_char()(s@.last()) {
                lemma_runs_active(s@, word_char());
                assert(false);
            }
            assert(out.deep_view() == norm_runs(rs));
        }
    }
    proof {
        assert(out.deep_view() == tokens_of(s@));
    }
    out
}

/// A nonempty sequence whose characters satisfy `p` ends in at least one run.
proof fn lemma_runs_active(s: Seq<char>, p: spec_fn(char) -> bool)
    requires
        s.len() > 0,
        p(s.last()),
    ensures
        runs(s, p).len() > 0,
        runs(s, p).last().len() > 0,
    decreases s.len(),
{
    if s.len() >= 2 && p(s[s.len() - 2]) {
        lemma_runs_active(s.drop_last(), p);
    }
}

/// Strict lexicographic order on character sequences by code point.  For
/// valid UTF-8 this coincides with the byte order on the encoded strings.
pub open spec fn lex_lt(a: Seq<char>, b: Seq<char>) -> bool
    decreases a.len(),
{
    if b.len() == 0 {
        false
    } else if a.len() == 0 {
        true
    } else if a[0] != b[0] {
        (a[0] as u32) < (b[0] as u32)
    } else {
        lex_lt(a.drop_first(), b.drop_first())
    }
}

/// Dropping an equal prefix does not change the lexicographic order.
proof fn lemma_lex_skip(a: Seq<char>, b: Seq<char>, i: int)
    requires
        0 <= i <= a.len(),
        i <= b.len(),
        forall|j: int| 0 <= j < i ==> a[j] == b[j],
    ensures
        lex_lt(a, b) == lex_lt(a.skip(i), b.skip(i)),
    decreases i,
{
    if i == 0 {
        assert(a.skip(0) =~= a);
        assert(b.skip(0) =~= b);
    } else {
        assert(a[0] == b[0]);
        lemma_lex_skip(a.drop_first(), b.drop_first(), i - 1);
        assert(a.drop_first().skip(i - 1) =~= a.skip(i));
        assert(b.drop_first().skip(i - 1) =~= b.skip(i));
    }
}

/// Distinct characters have distinct code points.
proof fn lemma_char_cast_distinct(x: char, y: char)
    requires
        x != y,
    ensures
        x as u32 != y as u32,
{
}

/// The lexicographic order is irreflexive.
pub proof fn lemma_lex_irrefl(a: Seq<char>)
    ensures
        !lex_lt(a, a),
    decreases a.len(),
{
    if a.len() > 0 {
        lemma_lex_irrefl(a.drop_first());
    }
}

/// The lexicographic order is transitive.
pub proof fn lemma_lex_trans(a: Seq<char>, b: Seq<char>, c: Seq<char>)
    requires
        lex_lt(a, b),
        lex_lt(b, c),
    ensures
        lex_lt(a, c),
    decreases a.len(),
{
    if a.len() > 0 && b.len() > 0 && c.len() > 0 {
        if a[0] == b[0] && b[0] == c[0] {
            lemma_lex_trans(a.drop_first(), b.drop_first(), c.drop_first());
        }
    }
}

/// Two sequences are lexicographically comparable or equal.
pub proof fn lemma_lex_trichotomy(a: Seq<char>, b: Seq<char>)
    ensures
        lex_lt(a, b) || lex_lt(b, a) || a == b,
    decreases a.len(),
{
    if a.len() == 0 && b.len() == 0 {
        assert(a =~= b);
    } else if a.len() == 0 || b.len() == 0 {
        assert(lex_lt(a, b) || lex_lt(b, a));
    } else if a[0] == b[0] {
        lemma_lex_trichotomy(a.drop_first(), b.drop_first());
        if lex_lt(a.drop_first(), b.drop_first()) {
            assert(lex_lt(a, b));
        } else if lex_lt(b.drop_first(), a.drop_first()) {
            assert(lex_lt(b, a));
        } else {
            assert(a.drop_first() == b.drop_first());
            assert(a.len() == b.len());
            assert forall|i: int| 0 <= i < a.len() implies a[i] == b[i] by {
                if i > 0 {
                    assert(a.drop_first()[i - 1] == a[i]);
                    assert(b.drop_first()[i - 1] == b[i]);
                }
            }
            assert(a =~= b);
        }
    } else {
        lemma_char_cast_distinct(a[0], b[0]);
        if (a[0] as u32) < (b[0] as u32) {
            assert(lex_lt(a, b));
        } else {
            assert(lex_lt(b, a));
        }
    }
}

/// Compares two strings in lexicographic code-point order, which for UTF-8
/// strings equals the standard byte order.
pub fn str_lt(a: &str, b: &str) -> (r: bool)
    ensures
        r == lex_lt(a@, b@),
{
    let alen: usize = a.unicode_len();
    let blen: usize = b.unicode_len();
    let min: usize = if alen < blen {
        alen
    } else {
        blen
    };
    let mut i: usize = 0;
    while i < min
        invariant
            alen == a@.len(),
            blen == b@.len(),
            min == if alen < blen {
                alen
            } else {
                blen
            },
            0 <= i <= min,
            forall|j: int| 0 <= j < i ==> a@[j] == b@[j],
        decreases min - i,
    {
        let ca = a.get_char(i);
        let cb = b.get_char(i);
        if ca != cb {
            proof {
                lemma_lex_skip(a@, b@, i as int);
                assert(a@.skip(i as int)[0] == ca);
                assert(b@.skip(i as int)[0] == cb);
            }
            return (ca as u32) < (cb as u32);
        }
        i = i + 1;
    }
    proof {
        lemma_lex_skip(a@, b@, min as int);
    }
    alen < blen
}

/// Whether `n` occurs in `h` as a contiguous subsequence.
pub open spec fn contains_sub(h: Seq<char>, n: Seq<char>) -> bool {
    exists|i: int| 0 <= i <= h.len() - n.len() && #[trigger] h.subrange(i, i + n.len()) == n
}

/// Whether the needle occurs in the haystack as a substring, compared
/// character by character.
pub fn contains_str(h: &str, nd: &str) -> (r: bool)
    ensures
        r == contains_sub(h@, nd@),
{
    let hl: usize = h.unicode_len();
    let nl: usize = nd.unicode_len();
    if nl > hl {
        return false;
    }
    if nl == 0 {
        proof {
            assert(h@.subrange(0, 0 + nd@.len() as int) =~= nd@);
        }
        return true;
    }
    let mut i: usize = 0;
    while i <= hl - nl
        invariant
            hl == h@.len(),
            nl == nd@.len(),
            0 < nl <= hl,
            0 <= i <= hl - nl + 1,
            forall|ii: int| 0 <= ii < i ==> #[trigger] h@.subrange(ii, ii + nl) != nd@,
        decreases hl - nl + 1 - i,
    {
        let mut j: usize = 0;
        let mut matched: bool = true;
        while matched && j < nl
            invariant
                hl == h@.len(),
                nl == nd@.len(),
                0 < nl <= hl,
                0 <= i <= hl - nl,
                0 <= j <= nl,
                matched ==> forall|jj: int| 0 <= jj < j ==> h@[i + jj] == nd@[jj],
                !matched ==> h@.subrange(i as int, i + nl) != nd@,
            decreases nl - j + (if matched { 1int } else { 0int }),
        {
            if h.get_char(i + j) != nd.get_char(j) {
                proof {
                    assert(h@.subrange(i as int, i + nl)[j as int] == h@[i + j]);
                    assert(h@.subrange(i as int, i + nl) != nd@);
                }
                matched = false;
            } else {
                j = j + 1;
            }
        }
        if matched {
            proof {
                assert(h@.subrange(i as int, i + nl) =~= nd@);
            }
            return true;
        }
        i = i + 1;
    }
    false
}

/// Whether `ts` lies in the inclusive window `[from, to]`; an empty bound
/// does not constrain.
pub open spec fn in_window_str(ts: Seq<char>, from: Seq<char>, to: Seq<char>) -> bool {
    (from.len() == 0 || !lex_lt(ts, from)) && (to.len() == 0 || !lex_lt(to, ts))
}

/// Whether the timestamp lies in the inclusive window `[from, to]`, by
/// lexical comparison; an empty bound does not constrain.
pub fn within_range(ts: &str, from: &str, to: &str) -> (r: bool)
    ensures
        r == in_window_str(ts@, from@, to@),
{
    if !from.is_empty() && str_lt(ts, from) {
        return false;
    }
    if !to.is_empty() && str_lt(to, ts) {
        return false;
    }
    true
}

/// Whether query token `t` scores a hit against normalized text `s`.
pub open spec fn token_hit(t: Seq<char>, s: Seq<char>) -> bool {
    keep_token(t) && contains_sub(s, t)
}

/// How many of the query tokens score a hit against normalized text `s`.
pub open spec fn sim_hits(qts: Seq<Seq<char>>, s: Seq<char>) -> int
    decreases qts.len(),
{
    if qts.len() == 0 {
        0
    } else {
        sim_hits(qts.drop_last(), s) + if token_hit(qts.last(), s) {
            1int
        } else {
            0int
        }
    }
}

/// The hit count is at most the token count.
pub proof fn lemma_sim_hits_le(qts: Seq<Seq<char>>, s: Seq<char>)
    ensures
        0 <= sim_hits(qts, s) <= qts.len(),
    decreases qts.len(),
{
    if qts.len() > 0 {
        lemma_sim_hits_le(qts.drop_last(), s);
    }
}

/// Counts how many query tokens occur in the summary: the summary is
/// normalized once, and each kept token counts as a hit when it occurs in
/// the normalized summary as a substring.  Returns the hit count and the
/// token count.
pub fn text_similarity_stats(q_tokens: &Vec<String>, summary: &str) -> (r: (usize, usize))
    ensures
        r.0 as int == sim_hits(q_tokens.deep_view(), norm_str(summary@)),
        r.1 == q_tokens@.len(),
{
    let ghost qts = q_tokens.deep_view();
    if q_tokens.is_empty() {
        proof {
            assert(qts.len() == 0);
        }
        return (0, 0);
    }
    let s = norm(summary);
    let total: usize = q_tokens.len();
    let mut hit: usize = 0;
    let mut i: usize = 0;
    while i < total
        invariant
            total == q_tokens@.len(),
            qts == q_tokens.deep_view(),
            qts.len() == total,
            s@ == norm_str(summary@),
            0 <= i <= total,
            0 <= hit <= i,
            hit as int == sim_hits(qts.subrange(0, i as int), s@),
        decreases total - i,
    {
        let qt = &q_tokens[i];
        proof {
            assert(qts.subrange(0, i + 1 as int).drop_last() =~= qts.subrange(0, i as int));
            assert(qts.subrange(0, i + 1 as int).last() == qt@);
        }
        if is_kept_token(qt.as_str()) && contains_str(s.as_str(), qt.as_str()) {
            hit = hit + 1;
        }
        i = i + 1;
    }
    proof {
        assert(qts.subrange(0, total as int) =~= qts);
    }
    (hit, total)
}

/// The decimal digit character for `d`.
pub open spec fn dec_digit(d: int) -> char {
    if d == 0 {
        '0'
    } else if d == 1 {
        '1'
    } else if d == 2 {
        '2'
    } else if d == 3 {
        '3'
    } else if d == 4 {
        '4'
    } else if d == 5 {
        '5'
    } else if d == 6 {
        '6'
    } else if d == 7 {
        '7'
    } else if d == 8 {
        '8'
    } else {
        '9'
    }
}

/// The decimal digits of `n`, most significant first, without leading
/// zeros (except for `n == 0`).
pub open spec fn dec_str(n: nat) -> Seq<char>
    decreases n,
{
    if n < 10 {
        seq![dec_digit(n as int)]
    } else {
        dec_str(n / 10).push(dec_digit((n % 10) as int))
    }
}

/// The decimal digit character for `d`.
fn digit_char(d: u128) -> (c: char)
    requires
        d < 10,
    ensures
        c == dec_digit(d as int),
{
    if d == 0 {
        '0'
    } else if d == 1 {
        '1'
    } else if d == 2 {
        '2'
    } else if d == 3 {
        '3'
    } else if d == 4 {
        '4'
    } else if d == 5 {
        '5'
    } else if d == 6 {
        '6'
    } else if d == 7 {
        '7'
    } else if d == 8 {
        '8'
    } else {
        '9'
    }
}

/// Writes `n` in decimal.
pub fn u128_to_dec(n: u128) -> (r: String)
    ensures
        r@ == dec_str(n as nat),
    decreases n,
{
    if n < 10 {
        let mut s = String::new();
        push_char(&mut s, digit_char(n));
        proof {
            assert(s@ =~= seq![dec_digit(n as int)]);
        }
        s
    } else {
        let mut s = u128_to_dec(n / 10);
        push_char(&mut s, digit_char(n % 10));
        s
    }
}

/// Writes `n` in decimal.
pub fn u64_to_dec(n: u64) -> (r: String)
    ensures
        r@ == dec_str(n as nat),
{
    u128_to_dec(n as u128)
}

} // verus!
