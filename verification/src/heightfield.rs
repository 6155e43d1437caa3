//! The height-field parser.
//!
//! Raw text is one row per line, whitespace-separated decimal tokens per
//! row.  The first row's token count is the grid width; a later row of a
//! different length, an unreadable token, and a grid with no columns are
//! the three fatal errors.  After a full parse every sample is shifted by
//! `+minimum` (deliberately the sum, not the difference), and, in the
//! normalizing mode, divided by the sample range to land near `[0, 1]`.
//! A grid whose samples are all equal has range zero; the division is then
//! skipped.

use crate::fixed::{spec_round_div, round_div, lemma_round_div_mag, SCALE};
use crate::numeral::{
    is_ws, lemma_token_sep_char, parse_token, row_token_sep, scan_token_end,
    spec_token_value, SAMPLE_LIMIT,
};
use vstd::prelude::*;

verus! {

/// Largest magnitude a stored sample can reach after shifting and
/// normalizing.
pub const Z_LIMIT: i64 = 200_000_000_000_000;

/// Why a parse failed.
#[derive(Clone, Copy, Debug, PartialEq, Eq, Structural)]
pub enum ParseError {
    /// A token of the named row is not a representable decimal numeral.
    InvalidNumber { row: usize },
    /// The named row's token count differs from the first row's.
    MalformedGrid { row: usize, expected: usize, got: usize },
    /// The grid has no rows or no columns.
    EmptyGrid,
}

/// The parsed grid: a flat row-major sample sequence and its row length.
#[derive(Debug)]
pub struct HeightField {
    pub samples: Vec<i64>,
    pub width: usize,
}

impl HeightField {
    /// A parsed grid is rectangular, nonempty, and every sample is in the
    /// representable range.
    pub open spec fn wf(self) -> bool {
        &&& 0 < self.width
        &&& 0 < self.samples@.len()
        &&& (self.samples@.len() as int) % (self.width as int) == 0
        &&& forall|i: int|
            0 <= i < self.samples@.len() ==> -Z_LIMIT <= #[trigger] self.samples@[i] <= Z_LIMIT
    }

    /// Number of grid rows.
    pub open spec fn spec_rows(self) -> int {
        (self.samples@.len() as int) / (self.width as int)
    }
}

/// Index of the first line break of `s`, or `s.len()` if there is none.
pub open spec fn first_nl(s: Seq<u8>) -> nat
    decreases s.len(),
{
    if s.len() == 0 {
        0
    } else if s[0] == 10u8 {
        0
    } else {
        1 + first_nl(s.skip(1))
    }
}

/// A line with a trailing carriage return loses it.
pub open spec fn strip_cr(s: Seq<u8>) -> Seq<u8> {
    if s.len() > 0 && s.last() == 13u8 {
        s.drop_last()
    } else {
        s
    }
}

/// The rows of the raw text: one per line, split at line breaks, the
/// final row only if something follows the last break.
pub open spec fn rows_of(text: Seq<u8>) -> Seq<Seq<u8>>
    decreases text.len(),
{
    if text.len() == 0 {
        Seq::empty()
    } else {
        let p = first_nl(text) as int;
        if p >= text.len() {
            seq![strip_cr(text)]
        } else {
            seq![strip_cr(text.take(p))] + rows_of(text.skip(p + 1))
        }
    }
}

/// The values of a row's tokens in order, or `None` at the first token
/// that is no numeral.
pub open spec fn row_values(s: Seq<u8>) -> Option<Seq<i64>>
    decreases s.len(),
    via row_values_decreases
{
    if s.len() == 0 {
        Some(Seq::empty())
    } else if is_ws(s[0]) {
        row_values(s.skip(1))
    } else {
        let k = 1 + row_token_sep(s.skip(1)) as int;
        match spec_token_value(s.take(k)) {
            Option::None => None,
            Option::Some(v) => match row_values(s.skip(k)) {
                Option::None => None,
                Option::Some(rest) => Some(seq![v] + rest),
            },
        }
    }
}

#[via_fn]
proof fn row_values_decreases(s: Seq<u8>) {
    if s.len() > 0 && !is_ws(s[0]) {
        crate::numeral::lemma_token_sep_le(s.skip(1));
    }
}

/// Scan rows from index `i` against the expected width `w`: the
/// concatenated values, or the first error in row order.  Within one row
/// an unreadable token is found before the length is checked.
pub open spec fn spec_scan_rows(rows: Seq<Seq<u8>>, i: int, w: int) -> Result<
    Seq<i64>,
    ParseError,
>
    decreases rows.len() - i,
{
    if i < 0 || i >= rows.len() {
        Ok(Seq::empty())
    } else {
        match row_values(rows[i]) {
            Option::None => Err(ParseError::InvalidNumber { row: i as usize }),
            Option::Some(vals) => if vals.len() != w {
                Err(
                    ParseError::MalformedGrid {
                        row: i as usize,
                        expected: w as usize,
                        got: vals.len() as usize,
                    },
                )
            } else {
                match spec_scan_rows(rows, i + 1, w) {
                    Result::Err(e) => Err(e),
                    Result::Ok(rest) => Ok(vals + rest),
                }
            },
        }
    }
}

/// Smallest element of a nonempty sequence.
pub open spec fn seq_min(s: Seq<i64>) -> int
    decreases s.len(),
{
    if s.len() == 0 {
        0
    } else if s.len() == 1 {
        s[0] as int
    } else {
        let t = seq_min(s.drop_last());
        if s.last() < t {
            s.last() as int
        } else {
            t
        }
    }
}

/// Largest element of a nonempty sequence.
pub open spec fn seq_max(s: Seq<i64>) -> int
    decreases s.len(),
{
    if s.len() == 0 {
        0
    } else if s.len() == 1 {
        s[0] as int
    } else {
        let t = seq_max(s.drop_last());
        if s.last() > t {
            s.last() as int
        } else {
            t
        }
    }
}

/// The one-time pass after a successful parse: shift every value by the
/// minimum, and in the normalizing mode divide by the range when the range
/// is not zero.
pub open spec fn spec_normalized(vals: Seq<i64>, normalize: bool) -> Seq<i64> {
    let m = seq_min(vals);
    let range = seq_max(vals) - m;
    Seq::new(
        vals.len(),
        |i: int|
            if normalize && range > 0 {
                spec_round_div((vals[i] + m) * SCALE, range) as i64
            } else {
                (vals[i] + m) as i64
            },
    )
}

/// What parsing the raw text yields: the normalized row-major samples and
/// the width, or the first error.
pub open spec fn spec_parse_grid(text: Seq<u8>, normalize: bool) -> Result<
    (Seq<i64>, int),
    ParseError,
> {
    let rows = rows_of(text);
    if rows.len() == 0 {
        Err(ParseError::EmptyGrid)
    } else {
        match row_values(rows[0]) {
            Option::None => Err(ParseError::InvalidNumber { row: 0 }),
            Option::Some(v0) => {
                let w = v0.len() as int;
                match spec_scan_rows(rows, 1, w) {
                    Result::Err(e) => Err(e),
                    Result::Ok(rest) => if w == 0 {
                        Err(ParseError::EmptyGrid)
                    } else {
                        Ok((spec_normalized(v0 + rest, normalize), w))
                    },
                }
            },
        }
    }
}

/// Read the values of one row, held in `text[lo..hi]`: exactly
/// `row_values` of that range, or `None` at the first unreadable token.
#[verifier::loop_isolation(false)]
#[verifier::rlimit(60)]
pub fn row_values_exec(text: &[u8], lo: usize, hi: usize) -> (r: Option<Vec<i64>>)
    requires
        lo <= hi <= text@.len(),
    ensures
        match row_values(text@.subrange(lo as int, hi as int)) {
            Option::None => r is None,
            Option::Some(vals) => r is Some && r.unwrap()@ == vals,
        },
        r is Some ==> forall|t: int|
            0 <= t < r.unwrap()@.len() ==> -SAMPLE_LIMIT <= #[trigger] r.unwrap()@[t]
                <= SAMPLE_LIMIT,
{
    let ghost whole = text@.subrange(lo as int, hi as int);
    let mut out: Vec<i64> = Vec::new();
    let mut pos: usize = lo;
    while pos < hi
        invariant
            lo <= pos <= hi,
            match row_values(text@.subrange(pos as int, hi as int)) {
                Option::None => row_values(whole) is None,
                Option::Some(rest) => row_values(whole) == Some(out@ + rest),
            },
            forall|t: int|
                0 <= t < out@.len() ==> -SAMPLE_LIMIT <= #[trigger] out@[t] <= SAMPLE_LIMIT,
        decreases hi - pos,
    {
        let ghost suf = text@.subrange(pos as int, hi as int);
        let b = text[pos];
        proof {
            assert(suf[0] == b);
        }
        if b == 32u8 || b == 9u8 {
            proof {
                assert(suf.skip(1) =~= text@.subrange(pos + 1, hi as int));
            }
            pos = pos + 1;
        } else {
            let e = scan_token_end(text, pos + 1, hi);
            let ghost k = 1 + row_token_sep(suf.skip(1)) as int;
            proof {
                assert(suf.skip(1) =~= text@.subrange(pos + 1, hi as int));
                let t = suf.skip(1);
                assert(forall|j: int|
                    0 <= j < e - pos - 1 ==> t[j] == text@[pos + 1 + j] && !is_ws(t[j]));
                lemma_token_sep_char(t, e - pos - 1);
                assert(k == e - pos);
                assert(suf.take(k) =~= text@.subrange(pos as int, e as int));
                assert(suf.skip(k) =~= text@.subrange(e as int, hi as int));
            }
            match parse_token(text, pos, e) {
                Option::None => {
                    return None;
                }
                Option::Some(v) => {
                    let ghost out0 = out@;
                    out.push(v);
                    proof {
                        match row_values(text@.subrange(e as int, hi as int)) {
                            Option::None => {}
                            Option::Some(rest) => {
                                assert(out0 + (seq![v] + rest) =~= out@ + rest);
                            }
                        }
                    }
                    pos = e;
                }
            }
        }
    }
    proof {
        assert(text@.subrange(pos as int, hi as int) =~= Seq::<u8>::empty());
        assert(row_values(Seq::<u8>::empty()) == Some(Seq::<i64>::empty()));
        assert(out@ + Seq::<i64>::empty() =~= out@);
    }
    Some(out)
}

/// Scan `[from, hi)` of `text` for the first line break.
fn scan_line_end(text: &[u8], from: usize, hi: usize) -> (r: usize)
    requires
        from <= hi <= text@.len(),
    ensures
        from <= r <= hi,
        forall|j: int| from <= j < r ==> text@[j] != 10u8,
        r < hi ==> text@[r as int] == 10u8,
{
    let mut i: usize = from;
    while i < hi
        invariant
            from <= i <= hi <= text@.len(),
            forall|j: int| from <= j < i ==> text@[j] != 10u8,
        decreases hi - i,
    {
        if text[i] == 10u8 {
            return i;
        }
        i = i + 1;
    }
    i
}

/// Parse the raw height-map text: exactly the samples and width that
/// `spec_parse_grid` gives, or exactly its first error.  `normalize`
/// selects the mode that also divides by the sample range.
#[verifier::loop_isolation(false)]
#[verifier::rlimit(100)]
#[verifier::spinoff_prover]
pub fn parse_grid(text: &[u8], normalize: bool) -> (r: Result<HeightField, ParseError>)
    ensures
        match r {
            Result::Ok(hf) => {
                &&& spec_parse_grid(text@, normalize) matches Ok(p)
                &&& p.0 == hf.samples@
                &&& p.1 == hf.width as int
                &&& hf.wf()
            },
            Result::Err(e) => spec_parse_grid(text@, normalize) == Err::<
                (Seq<i64>, int),
                ParseError,
            >(e),
        },
{
    let n = text.len();
    let ghost rows = rows_of(text@);
    proof {
        assert(text@.skip(0) =~= text@);
        assert(rows.skip(0) =~= rows);
    }
    let mut pos: usize = 0;
    let mut row_idx: usize = 0;
    let mut width: usize = 0;
    let mut raw: Vec<i64> = Vec::new();
    while pos < n
        invariant
            pos <= n == text@.len(),
            row_idx <= pos,
            row_idx <= rows.len(),
            rows.skip(row_idx as int) == rows_of(text@.skip(pos as int)),
            row_idx == 0 ==> pos == 0 && raw@.len() == 0,
            row_idx > 0 ==> {
                &&& row_values(rows[0]) is Some
                &&& width as int == row_values(rows[0]).unwrap().len()
                &&& raw@.take(width as int) == row_values(rows[0]).unwrap()
                &&& raw@.len() == row_idx * width
                &&& match spec_scan_rows(rows, row_idx as int, width as int) {
                    Result::Err(e) => spec_scan_rows(rows, 1, width as int) == Err::<
                        Seq<i64>,
                        ParseError,
                    >(e),
                    Result::Ok(rest) => spec_scan_rows(rows, 1, width as int) == Ok::<
                        Seq<i64>,
                        ParseError,
                    >(raw@.skip(width as int) + rest),
                }
            },
            forall|t: int|
                0 <= t < raw@.len() ==> -SAMPLE_LIMIT <= #[trigger] raw@[t] <= SAMPLE_LIMIT,
        decreases n - pos,
    {
        let ghost suf = text@.skip(pos as int);
        let e = scan_line_end(text, pos, n);
        proof {
            assert(forall|j: int| 0 <= j < e - pos ==> suf[j] == text@[pos + j] && suf[j] != 10u8);
            if e < n {
                assert(suf[e - pos] == text@[e as int]);
            }
            lemma_first_nl_char(suf, e - pos);
        }
        // The line body, without a trailing carriage return.
        let le: usize = if e > pos && text[e - 1] == 13u8 {
            e - 1
        } else {
            e
        };
        let ghost this_line = if e == n {
            strip_cr(suf)
        } else {
            strip_cr(suf.take(e - pos))
        };
        proof {
            if e == n {
                assert(suf =~= text@.subrange(pos as int, n as int));
                assert(this_line =~= text@.subrange(pos as int, le as int));
                assert(rows_of(suf) == seq![this_line]);
            } else {
                assert(suf.take(e - pos) =~= text@.subrange(pos as int, e as int));
                assert(this_line =~= text@.subrange(pos as int, le as int));
                assert(suf.skip(e - pos + 1) =~= text@.skip(e + 1));
                assert(rows_of(suf) == seq![this_line] + rows_of(text@.skip(e + 1)));
            }
            assert(rows.skip(row_idx as int).len() >= 1);
            assert(rows.skip(row_idx as int)[0] == rows[row_idx as int]);
            assert(rows[row_idx as int] == this_line);
        }
        match row_values_exec(text, pos, le) {
            Option::None => {
                return Err(ParseError::InvalidNumber { row: row_idx });
            }
            Option::Some(vals) => {
                if row_idx == 0 {
                    width = vals.len();
                } else if vals.len() != width {
                    return Err(
                        ParseError::MalformedGrid {
                            row: row_idx,
                            expected: width,
                            got: vals.len(),
                        },
                    );
                }
                let ghost raw0 = raw@;
                let ghost line_vals = vals@;
                let mut vals = vals;
                raw.append(&mut vals);
                proof {
                    assert(line_vals == row_values(this_line).unwrap());
                    if row_idx == 0 {
                        assert(raw@.take(width as int) =~= line_vals);
                        assert(raw@.skip(width as int) =~= Seq::<i64>::empty());
                        match spec_scan_rows(rows, 1, width as int) {
                            Result::Err(_) => {}
                            Result::Ok(rest) => {
                                assert(raw@.skip(width as int) + rest =~= rest);
                            }
                        }
                    } else {
                        assert(raw0.len() >= 1 * width) by (nonlinear_arith)
                            requires
                                raw0.len() == row_idx * width,
                                row_idx >= 1,
                                width >= 0,
                        ;
                        assert(raw@.take(width as int) =~= raw0.take(width as int));
                        assert(raw@.skip(width as int) =~= raw0.skip(width as int) + line_vals);
                        match spec_scan_rows(rows, row_idx + 1, width as int) {
                            Result::Err(_) => {}
                            Result::Ok(rest) => {
                                assert(raw0.skip(width as int) + (line_vals + rest) =~= raw@.skip(
                                    width as int,
                                ) + rest);
                            }
                        }
                    }
                    assert((row_idx + 1) * width == row_idx * width + width) by (nonlinear_arith);
                    assert(rows.skip(row_idx + 1) =~= rows.skip(row_idx as int).skip(1));
                }
                row_idx = row_idx + 1;
                pos = if e < n {
                    e + 1
                } else {
                    n
                };
                proof {
                    if e == n {
                        assert(rows.skip(row_idx as int) =~= Seq::<Seq<u8>>::empty());
                        assert(text@.skip(pos as int) =~= Seq::<u8>::empty());
                    } else {
                        assert(rows.skip(row_idx as int) =~= rows_of(text@.skip(pos as int)));
                    }
                }
            }
        }
    }
    proof {
        assert(text@.skip(pos as int) =~= Seq::<u8>::empty());
        assert(rows.skip(row_idx as int).len() == 0);
        assert(row_idx == rows.len());
    }
    if row_idx == 0 {
        return Err(ParseError::EmptyGrid);
    }
    if width == 0 {
        return Err(ParseError::EmptyGrid);
    }
    proof {
        assert(raw@.len() >= 1 * width) by (nonlinear_arith)
            requires
                raw@.len() == row_idx * width,
                row_idx >= 1,
                width >= 0,
        ;
        assert(raw@.take(width as int) + raw@.skip(width as int) =~= raw@);
        vstd::arithmetic::div_mod::lemma_mod_multiples_basic(row_idx as int, width as int);
    }
    Ok(normalized_field(raw, width, normalize))
}

/// The one-time pass after a successful parse: find the extremes, then
/// shift every sample (and, in the normalizing mode, scale by the range).
#[verifier::loop_isolation(false)]
fn normalized_field(raw: Vec<i64>, width: usize, normalize: bool) -> (hf: HeightField)
    requires
        0 < width,
        0 < raw@.len(),
        (raw@.len() as int) % (width as int) == 0,
        forall|t: int| 0 <= t < raw@.len() ==> -SAMPLE_LIMIT <= #[trigger] raw@[t] <= SAMPLE_LIMIT,
    ensures
        hf.samples@ == spec_normalized(raw@, normalize),
        hf.width == width,
        hf.wf(),
{
    let count = raw.len();
    let mut m: i64 = raw[0];
    let mut mx: i64 = raw[0];
    let mut i: usize = 1;
    while i < count
        invariant
            1 <= i <= count == raw@.len(),
            m == seq_min(raw@.take(i as int)),
            mx == seq_max(raw@.take(i as int)),
            -SAMPLE_LIMIT <= m <= SAMPLE_LIMIT,
            -SAMPLE_LIMIT <= mx <= SAMPLE_LIMIT,
            m <= mx,
        decreases count - i,
    {
        proof {
            assert(raw@.take(i + 1).drop_last() =~= raw@.take(i as int));
            assert(raw@.take(i + 1).last() == raw@[i as int]);
        }
        let v = raw[i];
        if v < m {
            m = v;
        }
        if v > mx {
            mx = v;
        }
        i = i + 1;
    }
    proof {
        assert(raw@.take(count as int) =~= raw@);
    }
    let range: i64 = mx - m;
    let ghost target = spec_normalized(raw@, normalize);
    let mut out: Vec<i64> = Vec::new();
    let mut j: usize = 0;
    while j < count
        invariant
            j <= count == raw@.len(),
            out@.len() == j,
            range == seq_max(raw@) - seq_min(raw@),
            m == seq_min(raw@),
            forall|t: int| 0 <= t < j ==> #[trigger] out@[t] == target[t],
            forall|t: int| 0 <= t < j ==> -Z_LIMIT <= #[trigger] out@[t] <= Z_LIMIT,
        decreases count - j,
    {
        let v = raw[j];
        if normalize && range > 0 {
            proof {
                lemma_round_div_mag((v + m) * (SCALE as int), range as int);
            }
            let s = round_div((v as i128 + m as i128) * (SCALE as i128), range as i128);
            out.push(s as i64);
        } else {
            out.push(v + m);
        }
        j = j + 1;
    }
    proof {
        assert(out@ =~= target);
    }
    HeightField { samples: out, width }
}

/// `first_nl` is pinned by its characterization.
proof fn lemma_first_nl_char(s: Seq<u8>, i: int)
    requires
        0 <= i <= s.len(),
        forall|j: int| 0 <= j < i ==> s[j] != 10u8,
        i == s.len() || s[i] == 10u8,
    ensures
        first_nl(s) == i,
    decreases s.len(),
{
    if s.len() == 0 || s[0] == 10u8 {
    } else {
        let t = s.skip(1);
        assert(forall|j: int| 0 <= j < i - 1 ==> t[j] == s[j + 1] && t[j] != 10u8);
        lemma_first_nl_char(t, i - 1);
    }
}

} // verus!
