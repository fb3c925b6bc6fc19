//! Parser and renderer for one line of the kernel PSI text format:
//! `<kind> avg10=<f> avg60=<f> avg300=<f> total=<u64>`.
//!
//! The averages are fixed-point percentages with at most two fractional
//! digits; they are stored in hundredths of a percent and must not exceed
//! 100.00. `total` is a cumulative microsecond counter.

use vstd::prelude::*;

verus! {

/// Which tasks the pressure line speaks of: at least one stalled task
/// (`some`) or all tasks stalled (`full`).
#[derive(Clone, Copy, Debug, PartialEq, Eq, Structural)]
pub enum PsiLine {
    SomeTasks,
    FullTasks,
}

/// One parsed pressure measurement. `avg10`, `avg60`, `avg300` are in
/// hundredths of a percent (so `5.00` is stored as `500`); `total` is in
/// microseconds.
#[derive(Clone, Copy, Debug, PartialEq, Eq, Structural)]
pub struct PsiRecord {
    pub line: PsiLine,
    pub avg10: u32,
    pub avg60: u32,
    pub avg300: u32,
    pub total: u64,
}

/// Raised when a line does not match the PSI grammar.
#[derive(Clone, Copy, Debug, PartialEq, Eq, Structural)]
pub struct ParseError;

impl PsiRecord {
    /// The averages a record may hold: percentages up to 100.00.
    pub open spec fn valid(self) -> bool {
        self.avg10 <= 10000 && self.avg60 <= 10000 && self.avg300 <= 10000
    }
}

pub open spec fn is_digit(b: u8) -> bool {
    48 <= b <= 57
}

pub open spec fn all_digits(s: Seq<u8>) -> bool {
    forall|k: int| 0 <= k < s.len() ==> is_digit(#[trigger] s[k])
}

/// The number written by a digit string, read left to right.
pub open spec fn digits_val(s: Seq<u8>) -> nat
    decreases s.len(),
{
    if s.len() == 0 {
        0
    } else {
        digits_val(s.drop_last()) * 10 + ((s.last() - 48) as nat)
    }
}

/// A digit string denotes at least what any of its prefixes denotes.
proof fn lemma_digits_val_prefix_le(s: Seq<u8>, i: int)
    requires
        all_digits(s),
        0 <= i <= s.len(),
    ensures
        digits_val(s.subrange(0, i)) <= digits_val(s),
    decreases s.len() - i,
{
    if i == s.len() {
        assert(s.subrange(0, i) =~= s);
    } else {
        lemma_digits_val_prefix_le(s, i + 1);
        let t = s.subrange(0, i + 1);
        assert(t.drop_last() =~= s.subrange(0, i));
        assert(digits_val(t) == digits_val(s.subrange(0, i)) * 10 + (t.last() - 48));
    }
}

/// A well-formed unsigned decimal: nonempty, all digits, within `u64`.
pub open spec fn wf_u64(s: Seq<u8>) -> bool {
    s.len() > 0 && all_digits(s) && digits_val(s) <= u64::MAX
}

pub open spec fn is_ws(b: u8) -> bool {
    b == 32 || b == 9
}

/// Length of the maximal leading run of non-whitespace bytes.
pub open spec fn token_len(s: Seq<u8>) -> nat
    decreases s.len(),
{
    if s.len() == 0 || is_ws(s[0]) {
        0
    } else {
        1 + token_len(s.skip(1))
    }
}

/// A token never runs past the end of the line.
pub proof fn lemma_token_len_le(s: Seq<u8>)
    ensures
        token_len(s) <= s.len(),
    decreases s.len(),
{
    if s.len() != 0 && !is_ws(s[0]) {
        lemma_token_len_le(s.skip(1));
    }
}

/// The whitespace-separated tokens of a line, in order.
pub open spec fn spec_tokens(s: Seq<u8>) -> Seq<Seq<u8>>
    decreases s.len(),
    via spec_tokens_decreases
{
    if s.len() == 0 {
        Seq::empty()
    } else if is_ws(s[0]) {
        spec_tokens(s.skip(1))
    } else {
        let tl = token_len(s) as int;
        seq![s.take(tl)] + spec_tokens(s.skip(tl))
    }
}

#[via_fn]
proof fn spec_tokens_decreases(s: Seq<u8>) {
    lemma_token_len_le(s);
}

/// Advances past whitespace; the tokens of the rest are unchanged.
fn skip_ws(t: &[u8], from: usize) -> (r: usize)
    requires
        from <= t@.len(),
    ensures
        from <= r <= t@.len(),
        spec_tokens(t@.skip(r as int)) == spec_tokens(t@.skip(from as int)),
        r == t@.len() || !is_ws(t@[r as int]),
    decreases t@.len() - from,
{
    if from == t.len() {
        return from;
    }
    let b = t[from];
    if b == 32 || b == 9 {
        proof {
            assert(t@.skip(from as int).skip(1) =~= t@.skip(from + 1));
        }
        skip_ws(t, from + 1)
    } else {
        from
    }
}

/// Finds the end of the token that starts at `from` (a non-whitespace byte).
fn token_end(t: &[u8], from: usize) -> (r: usize)
    requires
        from <= t@.len(),
    ensures
        from <= r <= t@.len(),
        r - from == token_len(t@.skip(from as int)),
    decreases t@.len() - from,
{
    if from == t.len() {
        return from;
    }
    let b = t[from];
    if b == 32 || b == 9 {
        from
    } else {
        proof {
            assert(t@.skip(from as int).skip(1) =~= t@.skip(from + 1));
        }
        token_end(t, from + 1)
    }
}

/// One unfolding of `spec_tokens` at a token boundary: the token that starts
/// at a non-whitespace position is the next element of the token list.
proof fn lemma_tokens_step(s: Seq<u8>, from: int, to: int)
    requires
        0 <= from < s.len(),
        !is_ws(s[from]),
        to - from == token_len(s.skip(from)),
        to <= s.len(),
    ensures
        spec_tokens(s.skip(from)) == seq![s.subrange(from, to)] + spec_tokens(s.skip(to)),
{
    let rest = s.skip(from);
    let tl = token_len(rest) as int;
    assert(rest.take(tl) =~= s.subrange(from, to));
    assert(rest.skip(tl) =~= s.skip(to));
}

/// Parses the decimal number written in `t[from..to]`.
///
/// Returns `Ok` exactly when that range is a nonempty digit string whose
/// value fits in a `u64`, and then returns its value.
pub fn parse_u64_range(t: &[u8], from: usize, to: usize) -> (r: Result<u64, ParseError>)
    requires
        from <= to <= t@.len(),
    ensures
        r is Ok <==> wf_u64(t@.subrange(from as int, to as int)),
        r matches Ok(v) ==> v == digits_val(t@.subrange(from as int, to as int)),
{
    let ghost s = t@.subrange(from as int, to as int);
    if from == to {
        return Err(ParseError);
    }
    let mut acc: u64 = 0;
    let mut k = from;
    while k < to
        invariant
            from <= k <= to <= t@.len(),
            s == t@.subrange(from as int, to as int),
            all_digits(s.subrange(0, k - from)),
            acc == digits_val(s.subrange(0, k - from)),
        decreases to - k,
    {
        let b = t[k];
        if !(48 <= b && b <= 57) {
            assert(s[k - from] == b);
            return Err(ParseError);
        }
        let d = b - 48;
        if acc > (u64::MAX - (d as u64)) / 10 {
            proof {
                let p = s.subrange(0, k - from + 1);
                assert(p.drop_last() =~= s.subrange(0, k - from));
                assert(p.last() == b);
                assert(digits_val(p) == acc * 10 + d);
                assert(acc * 10 + d > u64::MAX) by (nonlinear_arith)
                    requires
                        acc > (u64::MAX - (d as u64)) / 10,
                        d <= 9,
                ;
                if wf_u64(s) {
                    lemma_digits_val_prefix_le(s, k - from + 1);
                }
            }
            return Err(ParseError);
        }
        proof {
            let p = s.subrange(0, k - from + 1);
            assert(p.drop_last() =~= s.subrange(0, k - from));
            assert(p.last() == b);
            assert(acc * 10 + d <= u64::MAX) by (nonlinear_arith)
                requires
                    acc <= (u64::MAX - (d as u64)) / 10,
                    d <= 9,
            ;
        }
        acc = acc * 10 + (d as u64);
        k = k + 1;
    }
    proof {
        assert(s.subrange(0, to - from) =~= s);
    }
    Ok(acc)
}

// --- token patterns -------------------------------------------------------

pub open spec fn kind_some() -> Seq<u8> {
    seq![115, 111, 109, 101]
}

pub open spec fn kind_full() -> Seq<u8> {
    seq![102, 117, 108, 108]
}

pub open spec fn key_avg10() -> Seq<u8> {
    seq![97, 118, 103, 49, 48, 61]
}

pub open spec fn key_avg60() -> Seq<u8> {
    seq![97, 118, 103, 54, 48, 61]
}

pub open spec fn key_avg300() -> Seq<u8> {
    seq![97, 118, 103, 51, 48, 48, 61]
}

pub open spec fn key_total() -> Seq<u8> {
    seq![116, 111, 116, 97, 108, 61]
}

pub open spec fn has_prefix(t: Seq<u8>, p: Seq<u8>) -> bool {
    t.len() >= p.len() && t.subrange(0, p.len() as int) == p
}

// --- fixed-point averages -------------------------------------------------

/// Index of the first `.` in `s`, or `s.len()` if there is none.
pub open spec fn dot_pos(s: Seq<u8>) -> int
    decreases s.len(),
{
    if s.len() == 0 {
        0
    } else if s[0] == 46 {
        0
    } else {
        1 + dot_pos(s.skip(1))
    }
}

/// A well-formed average: digits with an optional `.` and one or two
/// fractional digits, denoting at most 100.00 percent.
pub open spec fn wf_avg(s: Seq<u8>) -> bool {
    let d = dot_pos(s);
    if d == s.len() {
        s.len() > 0 && all_digits(s) && digits_val(s) <= 100
    } else {
        let ip = s.subrange(0, d);
        let fp = s.subrange(d + 1, s.len() as int);
        ip.len() > 0 && all_digits(ip) && 1 <= fp.len() <= 2 && all_digits(fp) && avg_val(s)
            <= 10000
    }
}

/// The value of an average token, in hundredths of a percent.
pub open spec fn avg_val(s: Seq<u8>) -> nat {
    let d = dot_pos(s);
    if d == s.len() {
        digits_val(s) * 100
    } else {
        let fp = s.subrange(d + 1, s.len() as int);
        let fv = if fp.len() == 1 {
            digits_val(fp) * 10
        } else {
            digits_val(fp)
        };
        digits_val(s.subrange(0, d)) * 100 + fv
    }
}

/// Finds the first `.` in `t[from..to]`.
fn find_dot(t: &[u8], from: usize, to: usize) -> (r: usize)
    requires
        from <= to <= t@.len(),
    ensures
        from <= r <= to,
        r - from == dot_pos(t@.subrange(from as int, to as int)),
    decreases to - from,
{
    if from == to {
        return from;
    }
    if t[from] == 46 {
        from
    } else {
        proof {
            assert(t@.subrange(from as int, to as int).skip(1) =~= t@.subrange(
                from + 1,
                to as int,
            ));
        }
        find_dot(t, from + 1, to)
    }
}

/// A digit string of at most two digits denotes at most 99.
proof fn lemma_short_digits_le(s: Seq<u8>)
    requires
        all_digits(s),
        s.len() <= 2,
    ensures
        digits_val(s) <= 99,
{
    if s.len() == 1 {
        assert(is_digit(s[0]));
        assert(digits_val(s.drop_last()) == 0);
        assert(digits_val(s) == digits_val(s.drop_last()) * 10 + ((s.last() - 48) as nat));
    } else if s.len() == 2 {
        assert(is_digit(s[0]));
        assert(is_digit(s[1]));
        let h = s.drop_last();
        assert(h.last() == s[0]);
        assert(digits_val(h.drop_last()) == 0);
        assert(digits_val(h) == digits_val(h.drop_last()) * 10 + ((h.last() - 48) as nat));
        assert(digits_val(s) == digits_val(h) * 10 + ((s.last() - 48) as nat));
    }
}

/// Parses the fixed-point average written in `t[from..to]`.
///
/// Returns `Ok` exactly when that range is a well-formed average, and then
/// returns its value in hundredths of a percent.
pub fn parse_avg_range(t: &[u8], from: usize, to: usize) -> (r: Result<u32, ParseError>)
    requires
        from <= to <= t@.len(),
    ensures
        r is Ok <==> wf_avg(t@.subrange(from as int, to as int)),
        r matches Ok(v) ==> v == avg_val(t@.subrange(from as int, to as int)) && v <= 10000,
{
    let ghost s = t@.subrange(from as int, to as int);
    let d_abs = find_dot(t, from, to);
    let ghost d = d_abs - from;
    if d_abs == to {
        // no fractional part
        match parse_u64_range(t, from, to) {
            Err(e) => {
                proof {
                    if wf_avg(s) {
                        assert(digits_val(s) <= 100);
                    }
                }
                Err(e)
            },
            Ok(v) => {
                if v > 100 {
                    Err(ParseError)
                } else {
                    Ok((v as u32) * 100)
                }
            },
        }
    } else {
        proof {
            assert(t@.subrange(from as int, d_abs as int) =~= s.subrange(0, d));
            assert(t@.subrange(d_abs + 1, to as int) =~= s.subrange(d + 1, s.len() as int));
        }
        let ghost ip = s.subrange(0, d);
        let ghost fp = s.subrange(d + 1, s.len() as int);
        let iv = match parse_u64_range(t, from, d_abs) {
            Err(_) => {
                proof {
                    if wf_avg(s) {
                        assert(digits_val(ip) * 100 <= avg_val(s));
                    }
                }
                return Err(ParseError);
            },
            Ok(v) => v,
        };
        if iv > 100 {
            proof {
                if wf_avg(s) {
                    assert(digits_val(ip) * 100 <= avg_val(s));
                }
            }
            return Err(ParseError);
        }
        let flen = to - (d_abs + 1);
        if flen < 1 || flen > 2 {
            return Err(ParseError);
        }
        let fv = match parse_u64_range(t, d_abs + 1, to) {
            Err(_) => {
                proof {
                    if all_digits(fp) {
                        lemma_short_digits_le(fp);
                    }
                }
                return Err(ParseError);
            },
            Ok(v) => v,
        };
        proof {
            lemma_short_digits_le(fp);
        }
        let fvs: u64 = if flen == 1 {
            fv * 10
        } else {
            fv
        };
        let h: u64 = iv * 100 + fvs;
        if h > 10000 {
            Err(ParseError)
        } else {
            Ok(h as u32)
        }
    }
}

// --- key=value tokens ------------------------------------------------------

/// The four numeric fields of a line, as far as they have been seen.
#[derive(Clone, Copy, Debug, PartialEq, Eq, Structural)]
pub struct PartialRecord {
    pub avg10: Option<u32>,
    pub avg60: Option<u32>,
    pub avg300: Option<u32>,
    pub total: Option<u64>,
}

pub open spec fn empty_partial() -> PartialRecord {
    PartialRecord { avg10: None, avg60: None, avg300: None, total: None }
}

pub open spec fn partial_valid(p: PartialRecord) -> bool {
    &&& (p.avg10 matches Some(v) ==> v <= 10000)
    &&& (p.avg60 matches Some(v) ==> v <= 10000)
    &&& (p.avg300 matches Some(v) ==> v <= 10000)
}

/// What one `key=value` token contributes: the matching field is filled,
/// a repeated key or an unknown key or a malformed number is an error.
pub open spec fn spec_apply_kv(acc: PartialRecord, t: Seq<u8>) -> Result<
    PartialRecord,
    ParseError,
> {
    if has_prefix(t, key_avg10()) {
        if acc.avg10 is Some {
            Err(ParseError)
        } else if wf_avg(t.skip(6)) {
            Ok(PartialRecord { avg10: Some(avg_val(t.skip(6)) as u32), ..acc })
        } else {
            Err(ParseError)
        }
    } else if has_prefix(t, key_avg60()) {
        if acc.avg60 is Some {
            Err(ParseError)
        } else if wf_avg(t.skip(6)) {
            Ok(PartialRecord { avg60: Some(avg_val(t.skip(6)) as u32), ..acc })
        } else {
            Err(ParseError)
        }
    } else if has_prefix(t, key_avg300()) {
        if acc.avg300 is Some {
            Err(ParseError)
        } else if wf_avg(t.skip(7)) {
            Ok(PartialRecord { avg300: Some(avg_val(t.skip(7)) as u32), ..acc })
        } else {
            Err(ParseError)
        }
    } else if has_prefix(t, key_total()) {
        if acc.total is Some {
            Err(ParseError)
        } else if wf_u64(t.skip(6)) {
            Ok(PartialRecord { total: Some(digits_val(t.skip(6)) as u64), ..acc })
        } else {
            Err(ParseError)
        }
    } else {
        Err(ParseError)
    }
}

/// A token keeps the averages within bounds.
proof fn lemma_apply_kv_valid(acc: PartialRecord, t: Seq<u8>)
    requires
        partial_valid(acc),
        spec_apply_kv(acc, t) is Ok,
    ensures
        partial_valid(spec_apply_kv(acc, t)->Ok_0),
{
}

/// Applies the token `t[from..to]` to the partial record.
fn apply_kv_range(t: &[u8], from: usize, to: usize, acc: PartialRecord) -> (r: Result<
    PartialRecord,
    ParseError,
>)
    requires
        from <= to <= t@.len(),
    ensures
        r == spec_apply_kv(acc, t@.subrange(from as int, to as int)),
{
    let ghost tok = t@.subrange(from as int, to as int);
    let n = to - from;
    if n >= 6 && t[from] == 97 && t[from + 1] == 118 && t[from + 2] == 103 && t[from + 3]
        == 49 && t[from + 4] == 48 && t[from + 5] == 61 {
        proof {
            assert(tok.subrange(0, 6) =~= key_avg10());
            assert(t@.subrange(from + 6, to as int) =~= tok.skip(6));
        }
        if acc.avg10.is_some() {
            Err(ParseError)
        } else {
            match parse_avg_range(t, from + 6, to) {
                Ok(v) => Ok(PartialRecord { avg10: Some(v), ..acc }),
                Err(e) => Err(e),
            }
        }
    } else if n >= 6 && t[from] == 97 && t[from + 1] == 118 && t[from + 2] == 103 && t[from
        + 3] == 54 && t[from + 4] == 48 && t[from + 5] == 61 {
        proof {
            assert(tok.subrange(0, 6) =~= key_avg60());
            assert(!has_prefix(tok, key_avg10()));
            assert(t@.subrange(from + 6, to as int) =~= tok.skip(6));
        }
        if acc.avg60.is_some() {
            Err(ParseError)
        } else {
            match parse_avg_range(t, from + 6, to) {
                Ok(v) => Ok(PartialRecord { avg60: Some(v), ..acc }),
                Err(e) => Err(e),
            }
        }
    } else if n >= 7 && t[from] == 97 && t[from + 1] == 118 && t[from + 2] == 103 && t[from
        + 3] == 51 && t[from + 4] == 48 && t[from + 5] == 48 && t[from + 6] == 61 {
        proof {
            assert(tok.subrange(0, 7) =~= key_avg300());
            assert(!has_prefix(tok, key_avg10()));
            assert(!has_prefix(tok, key_avg60()));
            assert(t@.subrange(from + 7, to as int) =~= tok.skip(7));
        }
        if acc.avg300.is_some() {
            Err(ParseError)
        } else {
            match parse_avg_range(t, from + 7, to) {
                Ok(v) => Ok(PartialRecord { avg300: Some(v), ..acc }),
                Err(e) => Err(e),
            }
        }
    } else if n >= 6 && t[from] == 116 && t[from + 1] == 111 && t[from + 2] == 116 && t[from
        + 3] == 97 && t[from + 4] == 108 && t[from + 5] == 61 {
        proof {
            assert(tok.subrange(0, 6) =~= key_total());
            assert(!has_prefix(tok, key_avg10()));
            assert(!has_prefix(tok, key_avg60()));
            assert(!has_prefix(tok, key_avg300()));
            assert(t@.subrange(from + 6, to as int) =~= tok.skip(6));
        }
        if acc.total.is_some() {
            Err(ParseError)
        } else {
            match parse_u64_range(t, from + 6, to) {
                Ok(v) => Ok(PartialRecord { total: Some(v), ..acc }),
                Err(e) => Err(e),
            }
        }
    } else {
        proof {
            assert(!has_prefix(tok, key_avg10()));
            assert(!has_prefix(tok, key_avg60()));
            assert(!has_prefix(tok, key_avg300()));
            assert(!has_prefix(tok, key_total()));
        }
        Err(ParseError)
    }
}

// --- the whole line ---------------------------------------------------------

pub open spec fn kind_of(t: Seq<u8>) -> Option<PsiLine> {
    if t == kind_some() {
        Some(PsiLine::SomeTasks)
    } else if t == kind_full() {
        Some(PsiLine::FullTasks)
    } else {
        None
    }
}

/// Folds the `key=value` tokens `ts[i..]` into the partial record.
pub open spec fn fold_kvs(acc: PartialRecord, ts: Seq<Seq<u8>>, i: int) -> Result<
    PartialRecord,
    ParseError,
>
    decreases ts.len() - i,
{
    if i >= ts.len() {
        Ok(acc)
    } else {
        match spec_apply_kv(acc, ts[i]) {
            Ok(a) => fold_kvs(a, ts, i + 1),
            Err(e) => Err(e),
        }
    }
}

/// What parsing one PSI line yields: the first token picks the kind, the
/// remaining tokens must fill the four numeric fields, each exactly once.
pub open spec fn spec_parse_line(s: Seq<u8>) -> Result<PsiRecord, ParseError> {
    let ts = spec_tokens(s);
    if ts.len() == 0 {
        Err(ParseError)
    } else {
        match kind_of(ts[0]) {
            None => Err(ParseError),
            Some(kind) => match fold_kvs(empty_partial(), ts, 1) {
                Err(e) => Err(e),
                Ok(p) => if p.avg10 is Some && p.avg60 is Some && p.avg300 is Some && p.total
                    is Some {
                    Ok(
                        PsiRecord {
                            line: kind,
                            avg10: p.avg10->0,
                            avg60: p.avg60->0,
                            avg300: p.avg300->0,
                            total: p.total->0,
                        },
                    )
                } else {
                    Err(ParseError)
                },
            },
        }
    }
}

/// Parses one line of the kernel PSI format.
///
/// Returns exactly what `spec_parse_line` names: `Ok` on a well-formed line
/// with the kind and the four numeric fields, `Err` on anything else.
#[verifier::rlimit(60)]
pub fn parse_psi_line(line: &[u8]) -> (r: Result<PsiRecord, ParseError>)
    ensures
        r == spec_parse_line(line@),
        r matches Ok(rec) ==> rec.valid(),
{
    let ghost ts = spec_tokens(line@);
    proof {
        assert(line@.skip(0) =~= line@);
    }
    let i0 = skip_ws(line, 0);
    if i0 == line.len() {
        proof {
            assert(line@.skip(i0 as int) =~= Seq::<u8>::empty());
        }
        return Err(ParseError);
    }
    let j0 = token_end(line, i0);
    proof {
        lemma_tokens_step(line@, i0 as int, j0 as int);
        assert(ts[0] == line@.subrange(i0 as int, j0 as int));
        assert(ts.skip(1) =~= spec_tokens(line@.skip(j0 as int)));
    }
    let ghost tok0 = line@.subrange(i0 as int, j0 as int);
    let n0 = j0 - i0;
    let kind: PsiLine;
    if n0 == 4 && line[i0] == 115 && line[i0 + 1] == 111 && line[i0 + 2] == 109 && line[i0
        + 3] == 101 {
        proof {
            assert(tok0 =~= kind_some());
        }
        kind = PsiLine::SomeTasks;
    } else if n0 == 4 && line[i0] == 102 && line[i0 + 1] == 117 && line[i0 + 2] == 108
        && line[i0 + 3] == 108 {
        proof {
            assert(tok0 =~= kind_full());
        }
        kind = PsiLine::FullTasks;
    } else {
        proof {
            assert(tok0 != kind_some());
            assert(tok0 != kind_full());
        }
        return Err(ParseError);
    }
    let mut acc = PartialRecord { avg10: None, avg60: None, avg300: None, total: None };
    let mut pos = j0;
    let ghost mut count: int = 1;
    loop
        invariant
            pos <= line@.len(),
            1 <= count <= ts.len(),
            ts == spec_tokens(line@),
            spec_tokens(line@.skip(pos as int)) == ts.skip(count),
            fold_kvs(empty_partial(), ts, 1) == fold_kvs(acc, ts, count),
            partial_valid(acc),
            ts.len() >= 1,
            kind_of(ts[0]) == Some(kind),
        ensures
            fold_kvs(empty_partial(), ts, 1) == Ok::<PartialRecord, ParseError>(acc),
            partial_valid(acc),
        decreases line@.len() - pos,
    {
        let i = skip_ws(line, pos);
        if i == line.len() {
            proof {
                assert(line@.skip(i as int) =~= Seq::<u8>::empty());
                assert(spec_tokens(Seq::<u8>::empty()) == Seq::<Seq<u8>>::empty());
                assert(ts.skip(count).len() == 0);
                assert(count == ts.len());
                assert(fold_kvs(acc, ts, count) == Ok::<PartialRecord, ParseError>(acc));
            }
            break;
        }
        let j = token_end(line, i);
        proof {
            lemma_tokens_step(line@, i as int, j as int);
            assert(ts.skip(count) == seq![line@.subrange(i as int, j as int)] + spec_tokens(
                line@.skip(j as int),
            ));
            assert(ts.skip(count).len() >= 1);
            assert(count < ts.len());
            assert(ts.skip(count)[0] == ts[count]);
            assert(ts[count] == line@.subrange(i as int, j as int));
            assert(ts.skip(count).skip(1) =~= ts.skip(count + 1));
            assert(spec_tokens(line@.skip(j as int)) == ts.skip(count + 1));
            assert(j > i);
        }
        match apply_kv_range(line, i, j, acc) {
            Ok(a) => {
                proof {
                    lemma_apply_kv_valid(acc, ts[count]);
                }
                acc = a;
            },
            Err(_) => {
                proof {
                    assert(fold_kvs(acc, ts, count) == Err::<PartialRecord, ParseError>(
                        ParseError,
                    ));
                }
                return Err(ParseError);
            },
        }
        pos = j;
        proof {
            count = count + 1;
        }
    }
    if acc.avg10.is_some() && acc.avg60.is_some() && acc.avg300.is_some() && acc.total.is_some() {
        Ok(
            PsiRecord {
                line: kind,
                avg10: acc.avg10.unwrap(),
                avg60: acc.avg60.unwrap(),
                avg300: acc.avg300.unwrap(),
                total: acc.total.unwrap(),
            },
        )
    } else {
        Err(ParseError)
    }
}


// --- rendering --------------------------------------------------------------

pub open spec fn kind_bytes(k: PsiLine) -> Seq<u8> {
    match k {
        PsiLine::SomeTasks => kind_some(),
        PsiLine::FullTasks => kind_full(),
    }
}

/// The decimal digits of `n`, most significant first.
pub open spec fn render_u64(n: nat) -> Seq<u8>
    decreases n,
{
    if n < 10 {
        seq![(48 + n) as u8]
    } else {
        render_u64(n / 10) + seq![(48 + n % 10) as u8]
    }
}

/// An average in hundredths of a percent, written with two fractional digits.
pub open spec fn render_avg(h: nat) -> Seq<u8> {
    render_u64(h / 100) + seq![46u8] + seq![(48 + (h % 100) / 10) as u8, (48 + h % 10) as u8]
}

/// The canonical text of a record: the kind and the four fields, in the
/// order the kernel writes them, separated by single spaces.
pub open spec fn spec_render_line(rec: PsiRecord) -> Seq<u8> {
    kind_bytes(rec.line) + seq![32u8] + key_avg10() + render_avg(rec.avg10 as nat) + seq![32u8]
        + key_avg60() + render_avg(rec.avg60 as nat) + seq![32u8] + key_avg300() + render_avg(
        rec.avg300 as nat,
    ) + seq![32u8] + key_total() + render_u64(rec.total as nat)
}

/// Appends the decimal digits of `n`.
fn push_u64(v: &mut Vec<u8>, n: u64)
    ensures
        final(v)@ == old(v)@ + render_u64(n as nat),
    decreases n,
{
    if n < 10 {
        v.push(48 + (n as u8));
        assert(v@ =~= old(v)@ + render_u64(n as nat));
    } else {
        push_u64(v, n / 10);
        v.push(48 + ((n % 10) as u8));
        assert(v@ =~= old(v)@ + render_u64(n as nat));
    }
}

/// Appends an average as `<int>.<dd>`.
fn push_avg(v: &mut Vec<u8>, h: u32)
    ensures
        final(v)@ == old(v)@ + render_avg(h as nat),
{
    push_u64(v, (h / 100) as u64);
    v.push(46);
    v.push(48 + (((h % 100) / 10) as u8));
    v.push(48 + ((h % 10) as u8));
    assert(v@ =~= old(v)@ + render_avg(h as nat));
}

/// Renders a record in the kernel PSI line format.
#[verifier::rlimit(60)]
pub fn render_psi_line(rec: PsiRecord) -> (out: Vec<u8>)
    ensures
        out@ == spec_render_line(rec),
{
    let mut v: Vec<u8> = Vec::new();
    if rec.line == PsiLine::SomeTasks {
        v.push(115);
        v.push(111);
        v.push(109);
        v.push(101);
        assert(v@ =~= kind_bytes(rec.line));
    } else {
        v.push(102);
        v.push(117);
        v.push(108);
        v.push(108);
        assert(v@ =~= kind_bytes(rec.line));
    }
    v.push(32);
    v.push(97);
    v.push(118);
    v.push(103);
    v.push(49);
    v.push(48);
    v.push(61);
    assert(v@ =~= kind_bytes(rec.line) + seq![32u8] + key_avg10());
    push_avg(&mut v, rec.avg10);
    v.push(32);
    v.push(97);
    v.push(118);
    v.push(103);
    v.push(54);
    v.push(48);
    v.push(61);
    push_avg(&mut v, rec.avg60);
    v.push(32);
    v.push(97);
    v.push(118);
    v.push(103);
    v.push(51);
    v.push(48);
    v.push(48);
    v.push(61);
    push_avg(&mut v, rec.avg300);
    v.push(32);
    v.push(116);
    v.push(111);
    v.push(116);
    v.push(97);
    v.push(108);
    v.push(61);
    push_u64(&mut v, rec.total);
    assert(v@ =~= spec_render_line(rec));
    v
}

// --- the round trip ---------------------------------------------------------

pub open spec fn ws_free(s: Seq<u8>) -> bool {
    forall|k: int| 0 <= k < s.len() ==> !is_ws(#[trigger] s[k])
}

/// The digits of `n` denote `n`.
pub proof fn lemma_render_u64_digits(n: nat)
    ensures
        all_digits(render_u64(n)),
        digits_val(render_u64(n)) == n,
        render_u64(n).len() >= 1,
    decreases n,
{
    if n < 10 {
        let r = render_u64(n);
        assert(r == seq![(48 + n) as u8]);
        assert(digits_val(r.drop_last()) == 0);
        assert(digits_val(r) == digits_val(r.drop_last()) * 10 + ((r.last() - 48) as nat));
    } else {
        lemma_render_u64_digits(n / 10);
        let a = render_u64(n / 10);
        let r = render_u64(n);
        let d = (48 + n % 10) as u8;
        assert(r == a + seq![d]);
        assert(r.drop_last() =~= a);
        assert(r.last() == d);
        assert(digits_val(r) == digits_val(a) * 10 + ((d - 48) as nat));
        assert(digits_val(r) == (n / 10) * 10 + n % 10);
        assert forall|k: int| 0 <= k < r.len() implies is_digit(#[trigger] r[k]) by {
            if k < a.len() {
                assert(r[k] == a[k]);
            } else {
                assert(r[k] == d);
            }
        }
    }
}

/// Digits are neither whitespace nor a dot.
proof fn lemma_digits_plain(s: Seq<u8>)
    requires
        all_digits(s),
    ensures
        ws_free(s),
        forall|k: int| 0 <= k < s.len() ==> (#[trigger] s[k]) != 46,
{
    assert forall|k: int| 0 <= k < s.len() implies !is_ws(#[trigger] s[k]) && s[k] != 46 by {
        assert(is_digit(s[k]));
    }
}

/// The first dot of `a + b` is at `a.len()` when `a` has none and `b`
/// starts with one.
proof fn lemma_dot_pos_at(a: Seq<u8>, b: Seq<u8>)
    requires
        forall|k: int| 0 <= k < a.len() ==> (#[trigger] a[k]) != 46,
        b.len() > 0,
        b[0] == 46,
    ensures
        dot_pos(a + b) == a.len(),
    decreases a.len(),
{
    if a.len() == 0 {
        assert(a + b =~= b);
    } else {
        assert((a + b)[0] == a[0]);
        assert((a + b).skip(1) =~= a.skip(1) + b);
        lemma_dot_pos_at(a.skip(1), b);
    }
}

/// Rendering an average in range gives a well-formed token denoting it.
pub proof fn lemma_render_avg(h: nat)
    requires
        h <= 10000,
    ensures
        wf_avg(render_avg(h)),
        avg_val(render_avg(h)) == h,
        ws_free(render_avg(h)),
        render_avg(h).len() >= 4,
{
    lemma_render_u64_digits(h / 100);
    let ip = render_u64(h / 100);
    let f1 = (48 + (h % 100) / 10) as u8;
    let f2 = (48 + h % 10) as u8;
    let s = render_avg(h);
    let tail = seq![46u8] + seq![f1, f2];
    assert(s =~= ip + tail);
    lemma_digits_plain(ip);
    lemma_dot_pos_at(ip, tail);
    assert(dot_pos(s) == ip.len());
    let d = dot_pos(s);
    assert(s.subrange(0, d) =~= ip);
    let fp = s.subrange(d + 1, s.len() as int);
    assert(fp =~= seq![f1, f2]);
    assert((h % 100) % 10 == h % 10) by (nonlinear_arith);
    assert(fp.drop_last() =~= seq![f1]);
    assert(digits_val(seq![f1].drop_last()) == 0);
    assert(digits_val(seq![f1]) == ((f1 - 48) as nat));
    assert(digits_val(fp) == digits_val(seq![f1]) * 10 + ((f2 - 48) as nat));
    assert(digits_val(fp) == ((h % 100) / 10) * 10 + (h % 100) % 10);
    assert(digits_val(fp) == h % 100);
    assert(avg_val(s) == digits_val(ip) * 100 + digits_val(fp));
    assert(avg_val(s) == (h / 100) * 100 + h % 100);
    assert(all_digits(fp));
    assert forall|k: int| 0 <= k < s.len() implies !is_ws(#[trigger] s[k]) by {
        if k < ip.len() {
            assert(s[k] == ip[k]);
            assert(is_digit(ip[k]));
        } else if k == ip.len() {
            assert(s[k] == 46);
        } else {
            assert(s[k] == fp[k - ip.len() - 1]);
            assert(is_digit(fp[k - ip.len() - 1]));
        }
    }
}

/// A token glued to a rest that is empty or starts with whitespace keeps
/// its own length.
proof fn lemma_token_len_concat(t: Seq<u8>, s: Seq<u8>)
    requires
        t.len() >= 1,
        ws_free(t),
        s.len() == 0 || is_ws(s[0]),
    ensures
        token_len(t + s) == t.len(),
    decreases t.len(),
{
    let u = t + s;
    assert(u[0] == t[0]);
    assert(!is_ws(t[0]));
    if t.len() == 1 {
        assert(u.skip(1) =~= s);
        assert(token_len(s) == 0);
        assert(token_len(u) == 1 + token_len(s));
    } else {
        assert(u.skip(1) =~= t.skip(1) + s);
        assert forall|k: int| 0 <= k < t.skip(1).len() implies !is_ws(#[trigger] t.skip(1)[k]) by {
            assert(t.skip(1)[k] == t[k + 1]);
        }
        lemma_token_len_concat(t.skip(1), s);
    }
}

/// The first token of `t + s` is `t` when the rest begins with whitespace.
proof fn lemma_tokens_prepend(t: Seq<u8>, s: Seq<u8>)
    requires
        t.len() >= 1,
        ws_free(t),
        s.len() == 0 || is_ws(s[0]),
    ensures
        spec_tokens(t + s) == seq![t] + spec_tokens(s),
{
    lemma_token_len_concat(t, s);
    let u = t + s;
    assert(u[0] == t[0]);
    assert(u.take(t.len() as int) =~= t);
    assert(u.skip(t.len() as int) =~= s);
}

/// A leading space does not change the token list.
proof fn lemma_tokens_ws(s: Seq<u8>)
    ensures
        spec_tokens(seq![32u8] + s) == spec_tokens(s),
{
    assert((seq![32u8] + s).skip(1) =~= s);
}

/// The rendered line splits into exactly its five tokens.
#[verifier::rlimit(80)]
proof fn lemma_render_tokens(rec: PsiRecord)
    ensures
        spec_tokens(spec_render_line(rec)) =~= seq![
            kind_bytes(rec.line),
            key_avg10() + render_avg(rec.avg10 as nat),
            key_avg60() + render_avg(rec.avg60 as nat),
            key_avg300() + render_avg(rec.avg300 as nat),
            key_total() + render_u64(rec.total as nat),
        ],
{
    let t1 = kind_bytes(rec.line);
    let t2 = key_avg10() + render_avg(rec.avg10 as nat);
    let t3 = key_avg60() + render_avg(rec.avg60 as nat);
    let t4 = key_avg300() + render_avg(rec.avg300 as nat);
    let t5 = key_total() + render_u64(rec.total as nat);
    let sp = seq![32u8];
    let r5 = t5;
    let r4 = t4 + (sp + r5);
    let r3 = t3 + (sp + r4);
    let r2 = t2 + (sp + r3);
    let rl = t1 + (sp + r2);
    assert(spec_render_line(rec) =~= rl);
    lemma_plain_tokens(rec);
    assert(t5 + Seq::<u8>::empty() =~= t5);
    lemma_tokens_prepend(t5, Seq::empty());
    assert(spec_tokens(t5) == seq![t5] + spec_tokens(Seq::<u8>::empty()));
    lemma_tokens_prepend(t4, sp + r5);
    lemma_tokens_ws(r5);
    lemma_tokens_prepend(t3, sp + r4);
    lemma_tokens_ws(r4);
    lemma_tokens_prepend(t2, sp + r3);
    lemma_tokens_ws(r3);
    lemma_tokens_prepend(t1, sp + r2);
    lemma_tokens_ws(r2);
    assert(spec_tokens(rl) =~= seq![t1, t2, t3, t4, t5]);
}

/// Every byte of the rendered tokens is printable: no whitespace inside.
proof fn lemma_plain_tokens(rec: PsiRecord)
    ensures
        ws_free(kind_bytes(rec.line)),
        kind_bytes(rec.line).len() == 4,
        ws_free(key_avg10() + render_avg(rec.avg10 as nat)),
        (key_avg10() + render_avg(rec.avg10 as nat)).len() >= 7,
        ws_free(key_avg60() + render_avg(rec.avg60 as nat)),
        (key_avg60() + render_avg(rec.avg60 as nat)).len() >= 7,
        ws_free(key_avg300() + render_avg(rec.avg300 as nat)),
        (key_avg300() + render_avg(rec.avg300 as nat)).len() >= 8,
        ws_free(key_total() + render_u64(rec.total as nat)),
        (key_total() + render_u64(rec.total as nat)).len() >= 7,
{
    lemma_render_u64_digits(rec.avg10 as nat / 100);
    lemma_render_u64_digits(rec.avg60 as nat / 100);
    lemma_render_u64_digits(rec.avg300 as nat / 100);
    lemma_render_u64_digits(rec.total as nat);
    lemma_ws_free_avg_token(key_avg10(), rec.avg10 as nat);
    lemma_ws_free_avg_token(key_avg60(), rec.avg60 as nat);
    lemma_ws_free_avg_token(key_avg300(), rec.avg300 as nat);
    let t5 = key_total() + render_u64(rec.total as nat);
    lemma_digits_plain(render_u64(rec.total as nat));
    assert forall|k: int| 0 <= k < t5.len() implies !is_ws(#[trigger] t5[k]) by {
        if k < 6 {
            assert(t5[k] == key_total()[k]);
        } else {
            assert(t5[k] == render_u64(rec.total as nat)[k - 6]);
        }
    }
}

proof fn lemma_ws_free_avg_token(key: Seq<u8>, h: nat)
    requires
        forall|k: int| 0 <= k < key.len() ==> !is_ws(#[trigger] key[k]),
    ensures
        ws_free(key + render_avg(h)),
        (key + render_avg(h)).len() >= key.len() + 4,
{
    lemma_render_u64_digits(h / 100);
    let a = render_avg(h);
    let ip = render_u64(h / 100);
    lemma_digits_plain(ip);
    let t = key + a;
    assert(a.len() >= 4);
    assert forall|k: int| 0 <= k < t.len() implies !is_ws(#[trigger] t[k]) by {
        if k < key.len() {
            assert(t[k] == key[k]);
        } else {
            let j = k - key.len();
            assert(t[k] == a[j]);
            if j < ip.len() {
                assert(a[j] == ip[j]);
                assert(is_digit(ip[j]));
            } else if j == ip.len() {
                assert(a[j] == 46);
            } else {
                assert(is_digit(a[j]));
            }
        }
    }
}

/// A token list that folds through keeps the averages within bounds.
proof fn lemma_fold_kvs_valid(acc: PartialRecord, ts: Seq<Seq<u8>>, i: int)
    requires
        partial_valid(acc),
    ensures
        fold_kvs(acc, ts, i) matches Ok(p) ==> partial_valid(p),
    decreases ts.len() - i,
{
    if i < ts.len() {
        match spec_apply_kv(acc, ts[i]) {
            Ok(a) => {
                lemma_apply_kv_valid(acc, ts[i]);
                lemma_fold_kvs_valid(a, ts, i + 1);
            },
            Err(_) => {},
        }
    }
}

/// Whatever parses is a valid record: the averages stay within 100.00.
pub proof fn lemma_spec_parse_valid(s: Seq<u8>)
    ensures
        spec_parse_line(s) matches Ok(rec) ==> rec.valid(),
{
    lemma_fold_kvs_valid(empty_partial(), spec_tokens(s), 1);
}

/// Law: rendering a record and parsing the result gives the record back,
/// field for field.
#[verifier::rlimit(100)]
pub proof fn lemma_render_parse_round_trip(rec: PsiRecord)
    requires
        rec.valid(),
    ensures
        spec_parse_line(spec_render_line(rec)) == Ok::<PsiRecord, ParseError>(rec),
{
    lemma_render_tokens(rec);
    lemma_render_avg(rec.avg10 as nat);
    lemma_render_avg(rec.avg60 as nat);
    lemma_render_avg(rec.avg300 as nat);
    lemma_render_u64_digits(rec.total as nat);
    let ts = spec_tokens(spec_render_line(rec));
    let t1 = kind_bytes(rec.line);
    let t2 = key_avg10() + render_avg(rec.avg10 as nat);
    let t3 = key_avg60() + render_avg(rec.avg60 as nat);
    let t4 = key_avg300() + render_avg(rec.avg300 as nat);
    let t5 = key_total() + render_u64(rec.total as nat);
    assert(ts.len() == 5);
    assert(ts[0] == t1 && ts[1] == t2 && ts[2] == t3 && ts[3] == t4 && ts[4] == t5);
    assert(kind_some() != kind_full()) by {
        assert(kind_some()[0] == 115 && kind_full()[0] == 102);
    }
    assert(kind_of(t1) == Some(rec.line));

    // each token picks exactly its own key
    assert(t2.subrange(0, 6) =~= key_avg10());
    assert(t2.skip(6) =~= render_avg(rec.avg10 as nat));
    assert(t3.subrange(0, 6) =~= key_avg60());
    assert(t3.skip(6) =~= render_avg(rec.avg60 as nat));
    assert(!has_prefix(t3, key_avg10())) by {
        assert(key_avg60()[3] == 54 && key_avg10()[3] == 49);
    }
    assert(t4.subrange(0, 7) =~= key_avg300());
    assert(t4.skip(7) =~= render_avg(rec.avg300 as nat));
    assert(!has_prefix(t4, key_avg10())) by {
        assert(t4.subrange(0, 6)[3] == 51 && key_avg10()[3] == 49);
    }
    assert(!has_prefix(t4, key_avg60())) by {
        assert(t4.subrange(0, 6)[3] == 51 && key_avg60()[3] == 54);
    }
    assert(t5.subrange(0, 6) =~= key_total());
    assert(t5.skip(6) =~= render_u64(rec.total as nat));
    assert(!has_prefix(t5, key_avg10())) by {
        assert(t5.subrange(0, 6)[0] == 116 && key_avg10()[0] == 97);
    }
    assert(!has_prefix(t5, key_avg60())) by {
        assert(t5.subrange(0, 6)[0] == 116 && key_avg60()[0] == 97);
    }
    assert(!has_prefix(t5, key_avg300())) by {
        if has_prefix(t5, key_avg300()) {
            assert(t5.subrange(0, 7)[0] == key_avg300()[0]);
            assert(t5.subrange(0, 7)[0] == 116 && key_avg300()[0] == 97);
        }
    }

    let acc0 = empty_partial();
    let acc1 = spec_apply_kv(acc0, t2)->Ok_0;
    assert(spec_apply_kv(acc0, t2) == Ok::<PartialRecord, ParseError>(acc1));
    assert(acc1.avg10 == Some(rec.avg10));
    let acc2 = spec_apply_kv(acc1, t3)->Ok_0;
    assert(spec_apply_kv(acc1, t3) == Ok::<PartialRecord, ParseError>(acc2));
    assert(acc2.avg60 == Some(rec.avg60));
    let acc3 = spec_apply_kv(acc2, t4)->Ok_0;
    assert(spec_apply_kv(acc2, t4) == Ok::<PartialRecord, ParseError>(acc3));
    assert(acc3.avg300 == Some(rec.avg300));
    let acc4 = spec_apply_kv(acc3, t5)->Ok_0;
    assert(spec_apply_kv(acc3, t5) == Ok::<PartialRecord, ParseError>(acc4));
    assert(acc4 == (PartialRecord {
        avg10: Some(rec.avg10),
        avg60: Some(rec.avg60),
        avg300: Some(rec.avg300),
        total: Some(rec.total),
    }));
    assert(fold_kvs(acc0, ts, 1) == fold_kvs(acc1, ts, 2));
    assert(fold_kvs(acc1, ts, 2) == fold_kvs(acc2, ts, 3));
    assert(fold_kvs(acc2, ts, 3) == fold_kvs(acc3, ts, 4));
    assert(fold_kvs(acc3, ts, 4) == fold_kvs(acc4, ts, 5));
    assert(fold_kvs(acc4, ts, 5) == Ok::<PartialRecord, ParseError>(acc4));
}

} // verus!
