//! Encoding and decoding of graphs as text.
//!
//! Two input shapes are read, both over plain bytes so every step of the
//! decoding is verified: a comma-separated edge list (`n` on the first
//! line, then `v1, v2, weight` lines), and a whitespace-separated full
//! dense matrix (`n` on the first line, then `n` rows of `n` weights).
//! Graphs are written back in the edge-list shape, one strictly
//! lower-triangular nonzero entry per line.

use vstd::arithmetic::div_mod::lemma_fundamental_div_mod;
use vstd::prelude::*;

use crate::graph::Graph;
use crate::graph::GraphError;
use crate::graph::MAX_VERTICES;

verus! {

/// An ASCII decimal digit.
pub open spec fn is_digit(c: u8) -> bool {
    48 <= c <= 57
}

/// Whitespace that field trimming removes: space, tab, carriage return.
pub open spec fn is_space(c: u8) -> bool {
    c == 32 || c == 9 || c == 13
}

/// A non-empty, all-digit byte string.
pub open spec fn is_num(s: Seq<u8>) -> bool {
    s.len() > 0 && forall|k: int| 0 <= k < s.len() ==> is_digit(#[trigger] s[k])
}

/// The value of a digit string read in base ten.
pub open spec fn dec_val(s: Seq<u8>) -> int
    decreases s.len(),
{
    if s.len() == 0 {
        0
    } else {
        dec_val(s.drop_last()) * 10 + (s.last() - 48)
    }
}

/// `s` without leading whitespace.
pub open spec fn trim_front(s: Seq<u8>) -> Seq<u8>
    decreases s.len(),
{
    if s.len() > 0 && is_space(s.first()) {
        trim_front(s.drop_first())
    } else {
        s
    }
}

/// `s` without trailing whitespace.
pub open spec fn trim_back(s: Seq<u8>) -> Seq<u8>
    decreases s.len(),
{
    if s.len() > 0 && is_space(s.last()) {
        trim_back(s.drop_last())
    } else {
        s
    }
}

/// `s` without leading or trailing whitespace.
pub open spec fn trimmed(s: Seq<u8>) -> Seq<u8> {
    trim_back(trim_front(s))
}

/// What a numeric field holds: its trimmed digits read in base ten, if
/// the trimmed field is all digits and fits a `u64`.
pub open spec fn spec_parse_field(s: Seq<u8>) -> Option<int> {
    if is_num(trimmed(s)) && dec_val(trimmed(s)) <= u64::MAX {
        Some(dec_val(trimmed(s)))
    } else {
        None
    }
}

/// Index of the first `sep` byte of `s`, or `s.len()` if none occurs.
pub open spec fn first_sep(s: Seq<u8>, sep: u8) -> int
    decreases s.len(),
{
    if s.len() == 0 {
        0
    } else if s.first() == sep {
        0
    } else {
        1 + first_sep(s.drop_first(), sep)
    }
}

/// `s` split at every `sep` byte; an empty `s` is one empty piece, as
/// `str::split` has it.
pub open spec fn split_fields(s: Seq<u8>, sep: u8) -> Seq<Seq<u8>>
    decreases s.len(),
    via split_fields_dec
{
    let i = first_sep(s, sep);
    if i == s.len() {
        seq![s]
    } else {
        seq![s.take(i)] + split_fields(s.skip(i + 1), sep)
    }
}

/// `s` split at every newline; an empty `s` has no lines and a final
/// newline opens no further line, as `str::lines` has it.
pub open spec fn split_lines(s: Seq<u8>) -> Seq<Seq<u8>>
    decreases s.len(),
    via split_lines_dec
{
    if s.len() == 0 {
        Seq::empty()
    } else {
        let i = first_sep(s, 10);
        if i == s.len() {
            seq![s]
        } else {
            seq![s.take(i)] + split_lines(s.skip(i + 1))
        }
    }
}

/// A line without its trailing carriage return, as `str::lines` hands
/// lines of CRLF input back.
pub open spec fn strip_cr(s: Seq<u8>) -> Seq<u8> {
    if s.len() > 0 && s.last() == 13 {
        s.drop_last()
    } else {
        s
    }
}

/// The lines of `s` as a reader of the text sees them: split at
/// newlines, each without a trailing carriage return.
pub open spec fn clean_lines(s: Seq<u8>) -> Seq<Seq<u8>> {
    split_lines(s).map_values(|l: Seq<u8>| strip_cr(l))
}

/// The maximal whitespace-separated non-empty words of `s`.
pub open spec fn tokens_ws(s: Seq<u8>) -> Seq<Seq<u8>>
    decreases s.len(),
    via tokens_ws_dec
{
    if s.len() == 0 {
        Seq::empty()
    } else if s.first() == 32 {
        tokens_ws(s.drop_first())
    } else {
        let i = first_sep(s, 32);
        seq![s.take(i)] + tokens_ws(s.skip(i))
    }
}

/// `first_sep` stays within the string.
pub proof fn lemma_first_sep_le(s: Seq<u8>, sep: u8)
    ensures
        0 <= first_sep(s, sep) <= s.len(),
    decreases s.len(),
{
    if s.len() > 0 && s.first() != sep {
        lemma_first_sep_le(s.drop_first(), sep);
    }
}

#[via_fn]
proof fn split_fields_dec(s: Seq<u8>, sep: u8) {
    lemma_first_sep_le(s, sep);
}

#[via_fn]
proof fn split_lines_dec(s: Seq<u8>) {
    lemma_first_sep_le(s, 10);
}

#[via_fn]
proof fn tokens_ws_dec(s: Seq<u8>) {
    if s.len() > 0 && s.first() != 32 {
        lemma_first_sep_le(s.drop_first(), 32);
    }
}

/// `first_sep` is the position of the first separator: nothing before
/// position `i` is one, and `i` is the end or holds one.
pub proof fn lemma_first_sep_at(s: Seq<u8>, sep: u8, i: int)
    requires
        0 <= i <= s.len(),
        forall|k: int| 0 <= k < i ==> s[k] != sep,
        i == s.len() || s[i] == sep,
    ensures
        first_sep(s, sep) == i,
    decreases i,
{
    if i > 0 {
        lemma_first_sep_at(s.drop_first(), sep, i - 1);
    }
}

/// Digit strings have non-negative values.
pub proof fn lemma_dec_val_nonneg(s: Seq<u8>)
    requires
        forall|k: int| 0 <= k < s.len() ==> is_digit(#[trigger] s[k]),
    ensures
        dec_val(s) >= 0,
    decreases s.len(),
{
    if s.len() > 0 {
        lemma_dec_val_nonneg(s.drop_last());
    }
}

/// Reading more digits never shrinks the value.
pub proof fn lemma_dec_val_take_le(s: Seq<u8>, j: int)
    requires
        forall|k: int| 0 <= k < s.len() ==> is_digit(#[trigger] s[k]),
        0 <= j <= s.len(),
    ensures
        dec_val(s.take(j)) <= dec_val(s),
    decreases s.len(),
{
    if j == s.len() {
        assert(s.take(j) =~= s);
    } else {
        assert(s.drop_last().take(j) =~= s.take(j));
        lemma_dec_val_take_le(s.drop_last(), j);
        lemma_dec_val_nonneg(s.drop_last());
    }
}

/// Reads the digit string `v[start..end]` in base ten: exactly the
/// non-empty all-digit strings whose value fits a `u64` are accepted,
/// with no surrounding whitespace allowed.
pub fn parse_number(v: &Vec<u8>, start: usize, end: usize) -> (r: Option<u64>)
    requires
        start <= end <= v@.len(),
    ensures
        r is Some <==> (is_num(v@.subrange(start as int, end as int)) && dec_val(
            v@.subrange(start as int, end as int),
        ) <= u64::MAX),
        r is Some ==> r.unwrap() == dec_val(v@.subrange(start as int, end as int)),
{
    let ghost s = v@.subrange(start as int, end as int);
    if start == end {
        return None;
    }
    let mut val: u64 = 0;
    let mut k: usize = start;
    while k < end
        invariant
            start <= k <= end <= v@.len(),
            s == v@.subrange(start as int, end as int),
            forall|t: int| 0 <= t < k - start ==> is_digit(#[trigger] s[t]),
            val == dec_val(s.take(k - start)),
        decreases end - k,
    {
        let c = v[k];
        if c < 48 || c > 57 {
            proof {
                assert(s[k - start] == c);
                assert(!is_num(s));
            }
            return None;
        }
        let d = (c - 48) as u64;
        proof {
            assert(s.take(k + 1 - start).drop_last() =~= s.take(k - start));
            assert(s.take(k + 1 - start).last() == s[k - start] == c);
        }
        if val > (u64::MAX - d) / 10 {
            proof {
                assert(dec_val(s.take(k + 1 - start)) == val * 10 + d);
                assert(val * 10 + d > u64::MAX) by (nonlinear_arith)
                    requires
                        val > (u64::MAX - d) / 10,
                        0 <= d <= 9,
                ;
                if is_num(s) {
                    lemma_dec_val_take_le(s, k + 1 - start);
                }
            }
            return None;
        }
        proof {
            assert(val * 10 + d <= u64::MAX) by (nonlinear_arith)
                requires
                    val <= (u64::MAX - d) / 10,
                    0 <= d <= 9,
            ;
        }
        val = val * 10 + d;
        k = k + 1;
    }
    proof {
        assert(s.take(end - start) =~= s);
        assert(is_num(s));
        lemma_dec_val_nonneg(s);
    }
    Some(val)
}

/// The trimmed core of `v[start..end]`: the range left after dropping
/// leading and trailing whitespace.
pub fn trim_range(v: &Vec<u8>, start: usize, end: usize) -> (r: (usize, usize))
    requires
        start <= end <= v@.len(),
    ensures
        start <= r.0 <= r.1 <= end,
        v@.subrange(r.0 as int, r.1 as int) == trimmed(v@.subrange(start as int, end as int)),
{
    let ghost s = v@.subrange(start as int, end as int);
    let mut a = start;
    while a < end && (v[a] == 32 || v[a] == 9 || v[a] == 13)
        invariant
            start <= a <= end <= v@.len(),
            s == v@.subrange(start as int, end as int),
            trim_front(v@.subrange(a as int, end as int)) == trim_front(s),
        decreases end - a,
    {
        proof {
            let cur = v@.subrange(a as int, end as int);
            assert(cur.first() == v@[a as int]);
            assert(cur.drop_first() =~= v@.subrange(a + 1, end as int));
        }
        a = a + 1;
    }
    proof {
        let cur = v@.subrange(a as int, end as int);
        if a < end {
            assert(cur.first() == v@[a as int]);
        }
        assert(trim_front(cur) == cur);
    }
    let mut b = end;
    while b > a && (v[b - 1] == 32 || v[b - 1] == 9 || v[b - 1] == 13)
        invariant
            start <= a <= b <= end <= v@.len(),
            trim_back(v@.subrange(a as int, b as int)) == trim_back(
                v@.subrange(a as int, end as int),
            ),
        decreases b - a,
    {
        proof {
            let cur = v@.subrange(a as int, b as int);
            assert(cur.last() == v@[b - 1]);
            assert(cur.drop_last() =~= v@.subrange(a as int, b - 1));
        }
        b = b - 1;
    }
    proof {
        let cur = v@.subrange(a as int, b as int);
        if b > a {
            assert(cur.last() == v@[b - 1]);
        }
        assert(trim_back(cur) == cur);
        assert(trim_front(s) == v@.subrange(a as int, end as int));
    }
    (a, b)
}

/// Reads the numeric field `v[start..end]`, whitespace around the digits
/// allowed, exactly as `spec_parse_field` has it.
pub fn parse_field(v: &Vec<u8>, start: usize, end: usize) -> (r: Option<u64>)
    requires
        start <= end <= v@.len(),
    ensures
        r is Some <==> spec_parse_field(v@.subrange(start as int, end as int)) is Some,
        r is Some ==> r.unwrap() == spec_parse_field(
            v@.subrange(start as int, end as int),
        ).unwrap(),
{
    let (a, b) = trim_range(v, start, end);
    parse_number(v, a, b)
}

/// The byte ranges of the lines of `v`, each already stripped of a
/// trailing carriage return: range `k` holds `clean_lines(v@)[k]`.
pub fn split_line_ranges(v: &Vec<u8>) -> (ls: Vec<(usize, usize)>)
    ensures
        ls@.len() == clean_lines(v@).len(),
        forall|k: int|
            0 <= k < ls@.len() ==> (#[trigger] ls@[k]).0 <= ls@[k].1 <= v@.len()
                && v@.subrange(ls@[k].0 as int, ls@[k].1 as int) == clean_lines(v@)[k],
{
    let len = v.len();
    let mut ls: Vec<(usize, usize)> = Vec::new();
    let ghost mut raw: Seq<Seq<u8>> = Seq::empty();
    let mut pos: usize = 0;
    proof {
        assert(v@.skip(0) =~= v@);
    }
    while pos < len
        invariant
            pos <= len == v@.len(),
            split_lines(v@) =~= raw + split_lines(v@.skip(pos as int)),
            ls@.len() == raw.len(),
            forall|k: int|
                0 <= k < ls@.len() ==> (#[trigger] ls@[k]).0 <= ls@[k].1 <= v@.len()
                    && v@.subrange(ls@[k].0 as int, ls@[k].1 as int) == strip_cr(raw[k]),
        decreases len - pos,
    {
        let mut e: usize = pos;
        while e < len && v[e] != 10
            invariant
                pos <= e <= len == v@.len(),
                forall|t: int| pos <= t < e ==> v@[t] != 10,
            decreases len - e,
        {
            e = e + 1;
        }
        let ghost suf = v@.skip(pos as int);
        proof {
            assert forall|t: int| 0 <= t < e - pos implies suf[t] != 10 by {
                assert(suf[t] == v@[pos + t]);
            }
            if e < len {
                assert(suf[e - pos] == v@[e as int]);
            }
            lemma_first_sep_at(suf, 10, e - pos);
            assert(suf.take(e - pos) =~= v@.subrange(pos as int, e as int));
        }
        let e2 = if e > pos && v[e - 1] == 13 {
            e - 1
        } else {
            e
        };
        proof {
            let line = v@.subrange(pos as int, e as int);
            if e > pos && v@[e - 1] == 13 {
                assert(line.last() == v@[e - 1]);
                assert(line.drop_last() =~= v@.subrange(pos as int, e2 as int));
            }
            assert(strip_cr(line) == v@.subrange(pos as int, e2 as int));
        }
        ls.push((pos, e2));
        proof {
            raw = raw + seq![v@.subrange(pos as int, e as int)];
        }
        if e < len {
            proof {
                assert(suf.skip(e - pos + 1) =~= v@.skip(e + 1));
            }
            pos = e + 1;
        } else {
            proof {
                assert(split_lines(suf) =~= seq![suf]);
                assert(suf =~= v@.subrange(pos as int, e as int));
                assert(v@.skip(len as int) =~= Seq::<u8>::empty());
            }
            pos = len;
        }
    }
    proof {
        assert(v@.skip(len as int) =~= Seq::<u8>::empty());
        assert(split_lines(v@) =~= raw);
        assert(clean_lines(v@).len() == raw.len());
        assert forall|k: int| 0 <= k < ls@.len() implies (#[trigger] ls@[k]).0 <= ls@[k].1
            <= v@.len() && v@.subrange(ls@[k].0 as int, ls@[k].1 as int) == clean_lines(v@)[k] by {
            assert(clean_lines(v@)[k] == strip_cr(raw[k]));
        }
    }
    ls
}

/// The byte ranges of the `sep`-separated fields of `v[start..end]`:
/// range `k` holds `split_fields(v[start..end], sep)[k]`.
pub fn split_field_ranges(v: &Vec<u8>, start: usize, end: usize, sep: u8) -> (fs: Vec<
    (usize, usize),
>)
    requires
        start <= end <= v@.len(),
    ensures
        fs@.len() == split_fields(v@.subrange(start as int, end as int), sep).len(),
        forall|k: int|
            0 <= k < fs@.len() ==> start <= (#[trigger] fs@[k]).0 <= fs@[k].1 <= end
                && v@.subrange(fs@[k].0 as int, fs@[k].1 as int) == split_fields(
                v@.subrange(start as int, end as int),
                sep,
            )[k],
{
    let ghost whole = v@.subrange(start as int, end as int);
    let mut fs: Vec<(usize, usize)> = Vec::new();
    let ghost mut done: Seq<Seq<u8>> = Seq::empty();
    let mut pos: usize = start;
    let mut fin = false;
    proof {
        assert(v@.subrange(start as int, end as int) =~= whole);
    }
    while !fin
        invariant
            start <= pos <= end <= v@.len(),
            split_fields(whole, sep) =~= done + (if fin {
                Seq::<Seq<u8>>::empty()
            } else {
                split_fields(v@.subrange(pos as int, end as int), sep)
            }),
            fs@.len() == done.len(),
            forall|k: int|
                0 <= k < fs@.len() ==> start <= (#[trigger] fs@[k]).0 <= fs@[k].1 <= end
                    && v@.subrange(fs@[k].0 as int, fs@[k].1 as int) == done[k],
        decreases end - pos + (if fin {
            0int
        } else {
            1int
        }),
    {
        let mut e: usize = pos;
        while e < end && v[e] != sep
            invariant
                pos <= e <= end <= v@.len(),
                forall|t: int| pos <= t < e ==> v@[t] != sep,
            decreases end - e,
        {
            e = e + 1;
        }
        let ghost cur = v@.subrange(pos as int, end as int);
        proof {
            assert forall|t: int| 0 <= t < e - pos implies cur[t] != sep by {
                assert(cur[t] == v@[pos + t]);
            }
            if e < end {
                assert(cur[e - pos] == v@[e as int]);
            }
            lemma_first_sep_at(cur, sep, e - pos);
            assert(cur.take(e - pos) =~= v@.subrange(pos as int, e as int));
        }
        fs.push((pos, e));
        proof {
            done = done + seq![v@.subrange(pos as int, e as int)];
        }
        if e < end {
            proof {
                assert(cur.skip(e - pos + 1) =~= v@.subrange(e + 1, end as int));
            }
            pos = e + 1;
        } else {
            proof {
                assert(split_fields(cur, sep) =~= seq![cur]);
                assert(cur =~= v@.subrange(pos as int, e as int));
            }
            fin = true;
        }
    }
    fs
}

/// The byte ranges of the whitespace-separated words of `v[start..end]`:
/// range `k` holds `tokens_ws(v[start..end])[k]`.
pub fn token_ranges(v: &Vec<u8>, start: usize, end: usize) -> (ts: Vec<(usize, usize)>)
    requires
        start <= end <= v@.len(),
    ensures
        ts@.len() == tokens_ws(v@.subrange(start as int, end as int)).len(),
        forall|k: int|
            0 <= k < ts@.len() ==> start <= (#[trigger] ts@[k]).0 <= ts@[k].1 <= end
                && v@.subrange(ts@[k].0 as int, ts@[k].1 as int) == tokens_ws(
                v@.subrange(start as int, end as int),
            )[k],
{
    let ghost whole = v@.subrange(start as int, end as int);
    let mut ts: Vec<(usize, usize)> = Vec::new();
    let ghost mut done: Seq<Seq<u8>> = Seq::empty();
    let mut pos: usize = start;
    proof {
        assert(v@.subrange(start as int, end as int) =~= whole);
    }
    while pos < end
        invariant
            start <= pos <= end <= v@.len(),
            tokens_ws(whole) =~= done + tokens_ws(v@.subrange(pos as int, end as int)),
            ts@.len() == done.len(),
            forall|k: int|
                0 <= k < ts@.len() ==> start <= (#[trigger] ts@[k]).0 <= ts@[k].1 <= end
                    && v@.subrange(ts@[k].0 as int, ts@[k].1 as int) == done[k],
        decreases end - pos,
    {
        let ghost cur = v@.subrange(pos as int, end as int);
        if v[pos] == 32 {
            proof {
                assert(cur.first() == v@[pos as int]);
                assert(cur.drop_first() =~= v@.subrange(pos + 1, end as int));
            }
            pos = pos + 1;
        } else {
            let mut e: usize = pos;
            while e < end && v[e] != 32
                invariant
                    pos <= e <= end <= v@.len(),
                    forall|t: int| pos <= t < e ==> v@[t] != 32,
                decreases end - e,
            {
                e = e + 1;
            }
            proof {
                assert forall|t: int| 0 <= t < e - pos implies cur[t] != 32 by {
                    assert(cur[t] == v@[pos + t]);
                }
                if e < end {
                    assert(cur[e - pos] == v@[e as int]);
                }
                lemma_first_sep_at(cur, 32, e - pos);
                assert(cur.take(e - pos) =~= v@.subrange(pos as int, e as int));
                assert(cur.skip(e - pos) =~= v@.subrange(e as int, end as int));
                assert(cur.first() == v@[pos as int]);
            }
            ts.push((pos, e));
            proof {
                done = done + seq![v@.subrange(pos as int, e as int)];
            }
            pos = e;
        }
    }
    proof {
        assert(v@.subrange(end as int, end as int) =~= Seq::<u8>::empty());
    }
    ts
}

/// The vertex count named by the edge-list header: the first
/// comma-separated field of the first line, read as bare digits.
pub open spec fn spec_header(lines: Seq<Seq<u8>>) -> Option<int> {
    if lines.len() == 0 {
        None
    } else {
        let f0 = split_fields(lines[0], 44)[0];
        if is_num(f0) && dec_val(f0) <= u64::MAX {
            Some(dec_val(f0))
        } else {
            None
        }
    }
}

/// The weight an edge-list line stores for the ordered cell `(a, b)`:
/// a line of exactly three well-formed fields `v1, v2, w` stores `w`
/// at `(v1, v2)` and `(v2, v1)`; every other line stores nothing.
pub open spec fn line_sets(line: Seq<u8>, n: int, a: int, b: int) -> Option<u32> {
    let fs = split_fields(line, 44);
    if fs.len() == 3 && spec_parse_field(fs[0]) is Some && spec_parse_field(fs[1]) is Some
        && spec_parse_field(fs[2]) is Some {
        let v1 = spec_parse_field(fs[0]).unwrap();
        let v2 = spec_parse_field(fs[1]).unwrap();
        let w = spec_parse_field(fs[2]).unwrap();
        if v1 <= n && v2 <= n && v1 != v2 && w <= u32::MAX && ((v1 == a && v2 == b) || (v1 == b
            && v2 == a)) {
            Some(w as u32)
        } else {
            None
        }
    } else {
        None
    }
}

/// An edge-list line the decoder accepts: either not a three-field line
/// (such lines are skipped with a diagnostic, as the format allows), or
/// three numeric fields naming two distinct vertices of `1..=n` or the
/// reserved id 0, and a weight that fits.
pub open spec fn edge_line_ok(line: Seq<u8>, n: int) -> bool {
    let fs = split_fields(line, 44);
    fs.len() != 3 || (spec_parse_field(fs[0]) is Some && spec_parse_field(fs[1]) is Some
        && spec_parse_field(fs[2]) is Some && spec_parse_field(fs[0]).unwrap() <= n
        && spec_parse_field(fs[1]).unwrap() <= n && spec_parse_field(fs[0]).unwrap()
        != spec_parse_field(fs[1]).unwrap() && spec_parse_field(fs[2]).unwrap() <= u32::MAX)
}

/// The defect of one edge-list line, if any, as the decoder reports it:
/// a three-field line with an unreadable or oversized number, a vertex
/// above `n`, or a self-loop; lines of any other field count have none.
pub open spec fn line_error(line: Seq<u8>, n: int, lineno: int) -> Option<GraphError> {
    let fs = split_fields(line, 44);
    if fs.len() != 3 {
        None
    } else if !(spec_parse_field(fs[0]) is Some && spec_parse_field(fs[1]) is Some
        && spec_parse_field(fs[2]) is Some) {
        Some(GraphError::BadNumber { line: lineno as usize })
    } else if spec_parse_field(fs[0]).unwrap() > n || spec_parse_field(fs[1]).unwrap() > n {
        Some(GraphError::VertexOutOfRange { line: lineno as usize })
    } else if spec_parse_field(fs[0]).unwrap() == spec_parse_field(fs[1]).unwrap() {
        Some(GraphError::SelfLoop { line: lineno as usize })
    } else if spec_parse_field(fs[2]).unwrap() > u32::MAX {
        Some(GraphError::BadNumber { line: lineno as usize })
    } else {
        None
    }
}

/// Every line after the header is acceptable.
pub open spec fn edges_ok(lines: Seq<Seq<u8>>, n: int) -> bool {
    forall|k: int| 1 <= k < lines.len() ==> edge_line_ok(#[trigger] lines[k], n)
}

/// The weight cell `(a, b)` holds after the lines before index `k` have
/// been applied in order, the later lines overriding the earlier.
pub open spec fn edge_after(lines: Seq<Seq<u8>>, k: int, n: int, a: int, b: int) -> u32
    decreases k,
{
    if k <= 1 {
        0u32
    } else {
        match line_sets(lines[k - 1], n, a, b) {
            Option::Some(w) => w,
            Option::None => edge_after(lines, k - 1, n, a, b),
        }
    }
}

/// Decodes the comma-separated edge-list shape: the first line names the
/// vertex count, every further line of exactly three fields `v1, v2, w`
/// stores weight `w` for the pair `{v1, v2}`, and lines of any other
/// field count are skipped.  Pairs no line names keep weight zero, "no
/// edge".  A missing or unreadable count, a count above `MAX_VERTICES`,
/// and any malformed three-field line are fatal, as the contract states
/// case by case.
pub fn parse_edge_list(bytes: &Vec<u8>) -> (r: Result<Graph, GraphError>)
    ensures
        clean_lines(bytes@).len() == 0 ==> r == Result::<Graph, GraphError>::Err(
            GraphError::MissingHeader,
        ),
        clean_lines(bytes@).len() > 0 && spec_header(clean_lines(bytes@)) is None ==> r
            == Result::<Graph, GraphError>::Err(GraphError::BadHeader),
        clean_lines(bytes@).len() > 0 && spec_header(clean_lines(bytes@)) is Some ==> {
            let lines = clean_lines(bytes@);
            let n = spec_header(lines).unwrap();
            &&& (n > MAX_VERTICES ==> r == Result::<Graph, GraphError>::Err(
                GraphError::GraphTooLarge,
            ))
            &&& (n <= MAX_VERTICES ==> {
                &&& (r is Ok <==> edges_ok(lines, n))
                &&& (r matches Err(e) ==> exists|k: int|
                    1 <= k < lines.len() && #[trigger] line_error(lines[k], n, k) == Some(e) && (
                    forall|t: int| 1 <= t < k ==> edge_line_ok(#[trigger] lines[t], n)))
                &&& (r is Ok ==> {
                    let g = r.unwrap();
                    &&& g.wf()
                    &&& g.spec_n() == n
                    &&& forall|a: int, b: int|
                        0 <= a <= n && 0 <= b <= n ==> #[trigger] g.edge(a, b) == edge_after(
                            lines,
                            lines.len() as int,
                            n,
                            a,
                            b,
                        )
                })
            })
        },
{
    let ghost lines = clean_lines(bytes@);
    let ls = split_line_ranges(bytes);
    if ls.len() == 0 {
        return Err(GraphError::MissingHeader);
    }
    let (h0, h1) = (ls[0].0, ls[0].1);
    let hf = split_field_ranges(bytes, h0, h1, 44);
    proof {
        assert(split_fields(lines[0], 44).len() >= 1);
    }
    let nv = match parse_number(bytes, hf[0].0, hf[0].1) {
        Some(x) => x,
        None => {
            return Err(GraphError::BadHeader);
        },
    };
    if nv > MAX_VERTICES as u64 {
        return Err(GraphError::GraphTooLarge);
    }
    let n = nv as usize;
    let mut g = Graph::new_empty(n);
    let mut k: usize = 1;
    while k < ls.len()
        invariant
            1 <= k <= ls@.len(),
            lines == clean_lines(bytes@),
            ls@.len() == lines.len(),
            forall|t: int|
                0 <= t < ls@.len() ==> (#[trigger] ls@[t]).0 <= ls@[t].1 <= bytes@.len()
                    && bytes@.subrange(ls@[t].0 as int, ls@[t].1 as int) == lines[t],
            spec_header(lines) == Some(n as int),
            n <= MAX_VERTICES,
            g.wf(),
            g.spec_n() == n,
            forall|t: int| 1 <= t < k ==> edge_line_ok(#[trigger] lines[t], n as int),
            forall|a: int, b: int|
                0 <= a <= n && 0 <= b <= n ==> #[trigger] g.edge(a, b) == edge_after(
                    lines,
                    k as int,
                    n as int,
                    a,
                    b,
                ),
        decreases ls@.len() - k,
    {
        let (l0, l1) = (ls[k].0, ls[k].1);
        let fr = split_field_ranges(bytes, l0, l1, 44);
        let ghost fs = split_fields(lines[k as int], 44);
        if fr.len() == 3 {
            let o1 = parse_field(bytes, fr[0].0, fr[0].1);
            let o2 = parse_field(bytes, fr[1].0, fr[1].1);
            let o3 = parse_field(bytes, fr[2].0, fr[2].1);
            proof {
                assert(bytes@.subrange(fr@[0].0 as int, fr@[0].1 as int) == fs[0]);
                assert(bytes@.subrange(fr@[1].0 as int, fr@[1].1 as int) == fs[1]);
                assert(bytes@.subrange(fr@[2].0 as int, fr@[2].1 as int) == fs[2]);
            }
            let (v1, v2, w) = match (o1, o2, o3) {
                (Some(a), Some(b), Some(c)) => (a, b, c),
                _ => {
                    proof {
                        assert(line_error(lines[k as int], n as int, k as int) == Some(
                            GraphError::BadNumber { line: k },
                        ));
                    }
                    return Err(GraphError::BadNumber { line: k });
                },
            };
            if v1 > n as u64 || v2 > n as u64 {
                proof {
                    assert(line_error(lines[k as int], n as int, k as int) == Some(
                        GraphError::VertexOutOfRange { line: k },
                    ));
                }
                return Err(GraphError::VertexOutOfRange { line: k });
            }
            if v1 == v2 {
                proof {
                    assert(line_error(lines[k as int], n as int, k as int) == Some(
                        GraphError::SelfLoop { line: k },
                    ));
                }
                return Err(GraphError::SelfLoop { line: k });
            }
            if w > u32::MAX as u64 {
                proof {
                    assert(line_error(lines[k as int], n as int, k as int) == Some(
                        GraphError::BadNumber { line: k },
                    ));
                }
                return Err(GraphError::BadNumber { line: k });
            }
            let ghost gp = g;
            g.set_edge(v1 as usize, v2 as usize, w as u32);
            proof {
                assert(edge_line_ok(lines[k as int], n as int));
                assert forall|a: int, b: int| 0 <= a <= n && 0 <= b <= n implies #[trigger] g.edge(
                    a,
                    b,
                ) == edge_after(lines, k + 1, n as int, a, b) by {
                    if (a == v1 && b == v2) || (a == v2 && b == v1) {
                        assert(line_sets(lines[k as int], n as int, a, b) == Some(w as u32));
                    } else {
                        assert(line_sets(lines[k as int], n as int, a, b) is None);
                        assert(g.edge(a, b) == gp.edge(a, b));
                    }
                }
            }
        } else {
            proof {
                assert(edge_line_ok(lines[k as int], n as int));
                assert forall|a: int, b: int| 0 <= a <= n && 0 <= b <= n implies #[trigger] g.edge(
                    a,
                    b,
                ) == edge_after(lines, k + 1, n as int, a, b) by {
                    assert(line_sets(lines[k as int], n as int, a, b) is None);
                }
            }
        }
        k = k + 1;
    }
    Ok(g)
}

/// The decimal digits of `x`, most significant first.
pub open spec fn dec_digits(x: int) -> Seq<u8>
    decreases x,
{
    if x < 10 {
        seq![(48 + x) as u8]
    } else {
        dec_digits(x / 10) + seq![(48 + (x % 10)) as u8]
    }
}

/// `dec_digits` writes a non-empty digit string that reads back as the
/// number it was written from.
pub proof fn lemma_dec_digits(x: int)
    requires
        0 <= x,
    ensures
        dec_digits(x).len() >= 1,
        forall|k: int| 0 <= k < dec_digits(x).len() ==> is_digit(#[trigger] dec_digits(x)[k]),
        dec_val(dec_digits(x)) == x,
    decreases x,
{
    lemma_fundamental_div_mod(x, 10);
    if x < 10 {
        let s = dec_digits(x);
        assert(s =~= seq![(48 + x) as u8]);
        assert(s.drop_last() =~= Seq::<u8>::empty());
        assert((48 + x) as u8 == 48 + x);
        assert(s.len() == 1);
        assert(dec_val(s) == dec_val(s.drop_last()) * 10 + (s.last() - 48));
        assert(dec_val(s.drop_last()) == 0);
    } else {
        lemma_dec_digits(x / 10);
        let s = dec_digits(x);
        assert(s =~= dec_digits(x / 10) + seq![(48 + (x % 10)) as u8]);
        assert(s.drop_last() =~= dec_digits(x / 10));
        assert(s.last() == (48 + (x % 10)) as u8);
        assert(0 <= x % 10 < 10);
        assert((48 + (x % 10)) as u8 == 48 + (x % 10));
        assert(s.len() >= 2);
        assert(dec_val(s) == dec_val(s.drop_last()) * 10 + (s.last() - 48));
        assert(dec_val(s) == (x / 10) * 10 + (x % 10));
    }
}

/// Appends the decimal digits of `x` to `out`.
pub fn render_u64(x: u64, out: &mut Vec<u8>)
    ensures
        final(out)@ == old(out)@ + dec_digits(x as int),
    decreases x,
{
    if x < 10 {
        out.push((48 + x) as u8);
        proof {
            assert(final(out)@ =~= old(out)@ + dec_digits(x as int));
        }
    } else {
        let ghost mid = out@ + dec_digits((x / 10) as int);
        render_u64(x / 10, out);
        out.push((48 + (x % 10)) as u8);
        proof {
            assert(final(out)@ =~= old(out)@ + dec_digits(x as int));
        }
    }
}

/// The text of one saved edge: `i, j, w` and a newline.
pub open spec fn line_bytes(i: int, j: int, w: int) -> Seq<u8> {
    dec_digits(i) + seq![44u8, 32u8] + dec_digits(j) + seq![44u8, 32u8] + dec_digits(w) + seq![
        10u8,
    ]
}

/// The saved text of row `i`'s nonzero entries left of column `j`.
pub open spec fn spec_render_row(g: Graph, i: int, j: int) -> Seq<u8>
    decreases j,
{
    if j <= 1 {
        Seq::empty()
    } else {
        spec_render_row(g, i, j - 1) + (if g.edge(i, j - 1) != 0 {
            line_bytes(i, j - 1, g.edge(i, j - 1) as int)
        } else {
            Seq::empty()
        })
    }
}

/// The saved text of the strictly-lower-triangular entries of rows
/// below `i`.
pub open spec fn spec_render_rows(g: Graph, i: int) -> Seq<u8>
    decreases i,
{
    if i <= 1 {
        Seq::empty()
    } else {
        spec_render_rows(g, i - 1) + spec_render_row(g, i - 1, i - 1)
    }
}

/// The full saved text of `g`: the vertex count, then every strictly
/// lower-triangular nonzero entry as a `v1, v2, weight` line.
pub open spec fn spec_render(g: Graph) -> Seq<u8> {
    dec_digits(g.spec_n()) + seq![10u8] + spec_render_rows(g, g.spec_n() + 1)
}

/// Encodes `g` in the edge-list shape it is read back from: the vertex
/// count on the first line, then one `v1, v2, weight` line per strictly
/// lower-triangular nonzero entry.
#[verifier::rlimit(50)]
pub fn render_edge_list(g: &Graph) -> (out: Vec<u8>)
    requires
        g.wf(),
    ensures
        out@ == spec_render(*g),
{
    proof {
        g.wf_bounds();
    }
    let n = g.number_of_vertex();
    let mut out: Vec<u8> = Vec::new();
    proof {
        assert(out@ =~= Seq::<u8>::empty());
        assert(Seq::<u8>::empty() + dec_digits(n as int) =~= dec_digits(n as int));
    }
    render_u64(n as u64, &mut out);
    out.push(10);
    proof {
        assert(out@ =~= dec_digits(n as int) + seq![10u8] + spec_render_rows(*g, 1));
    }
    let mut i: usize = 1;
    while i <= n
        invariant
            g.wf(),
            n == g.spec_n(),
            n <= MAX_VERTICES,
            1 <= i <= n + 1,
            out@ == dec_digits(n as int) + seq![10u8] + spec_render_rows(*g, i as int),
        decreases n + 1 - i,
    {
        let mut j: usize = 1;
        proof {
            assert(spec_render_row(*g, i as int, 1) =~= Seq::<u8>::empty());
            assert(out@ =~= dec_digits(n as int) + seq![10u8] + spec_render_rows(*g, i as int)
                + spec_render_row(*g, i as int, 1));
        }
        while j < i
            invariant
                g.wf(),
                n == g.spec_n(),
                1 <= i <= n,
                1 <= j <= i,
                out@ == dec_digits(n as int) + seq![10u8] + spec_render_rows(*g, i as int)
                    + spec_render_row(*g, i as int, j as int),
            decreases i - j,
        {
            let w = g.distance(i, j);
            if w != 0 {
                render_u64(i as u64, &mut out);
                out.push(44);
                out.push(32);
                render_u64(j as u64, &mut out);
                out.push(44);
                out.push(32);
                render_u64(w as u64, &mut out);
                out.push(10);
            }
            proof {
                assert(out@ =~= dec_digits(n as int) + seq![10u8] + spec_render_rows(*g, i as int)
                    + spec_render_row(*g, i as int, j + 1));
            }
            j = j + 1;
        }
        proof {
            assert(out@ =~= dec_digits(n as int) + seq![10u8] + spec_render_rows(*g, i + 1));
        }
        i = i + 1;
    }
    out
}

/// The vertex count named by the dense-matrix header: the first
/// whitespace-separated word of the first line.
pub open spec fn spec_header_ws(lines: Seq<Seq<u8>>) -> Option<int> {
    if lines.len() == 0 {
        None
    } else {
        let ts = tokens_ws(lines[0]);
        if ts.len() > 0 {
            spec_parse_field(ts[0])
        } else {
            None
        }
    }
}

/// The matrix entry at row `i` (a one-based line index) and column `j`
/// (zero-based): the `j`-th word of line `i` read as a number.
pub open spec fn table_cell(lines: Seq<Seq<u8>>, i: int, j: int) -> Option<int> {
    if 0 <= i < lines.len() {
        let toks = tokens_ws(lines[i]);
        if 0 <= j < toks.len() {
            spec_parse_field(toks[j])
        } else {
            None
        }
    } else {
        None
    }
}

/// A dense table the decoder accepts: every one of the `n * n` entries
/// present and numeric, fitting a `u32`, equal to its transposed entry,
/// and zero on the diagonal.
pub open spec fn table_ok(lines: Seq<Seq<u8>>, n: int) -> bool {
    forall|i: int, j: int|
        1 <= i <= n && 0 <= j < n ==> {
            &&& #[trigger] table_cell(lines, i, j) is Some
            &&& table_cell(lines, i, j).unwrap() <= u32::MAX
            &&& table_cell(lines, i, j) == table_cell(lines, j + 1, i - 1)
            &&& (j + 1 == i ==> table_cell(lines, i, j).unwrap() == 0)
        }
}

/// Every dense-matrix decoding error names a real defect of the table:
/// the reported line is missing or short, holds an unreadable or
/// oversized number, a nonzero diagonal entry, or an entry its
/// transpose contradicts.
pub open spec fn table_err_sound(lines: Seq<Seq<u8>>, n: int, r: Result<Graph, GraphError>) -> bool {
    match r {
        Result::Err(GraphError::MissingEntry { line }) => 1 <= line <= n && (exists|j: int|
            0 <= j < n && #[trigger] table_cell(lines, line as int, j) is None),
        Result::Err(GraphError::BadNumber { line }) => exists|j: int|
            0 <= j < n && (#[trigger] table_cell(lines, line as int, j) is None || table_cell(
                lines,
                line as int,
                j,
            ).unwrap() > u32::MAX),
        Result::Err(GraphError::SelfLoop { line }) => table_cell(
            lines,
            line as int,
            line as int - 1,
        ) is Some && table_cell(lines, line as int, line as int - 1).unwrap() != 0,
        Result::Err(GraphError::NotSymmetric { line }) => exists|b: int|
            1 <= b <= n && #[trigger] table_cell(lines, line as int, b - 1) != table_cell(
                lines,
                b,
                line as int - 1,
            ),
        Result::Err(_) => false,
        Result::Ok(_) => true,
    }
}

/// Offsets into an `n`-column grid stay in range, row by row.
pub proof fn lemma_grid(n: int, r: int, c: int)
    by (nonlinear_arith)
    requires
        0 <= c < n,
        0 <= r,
    ensures
        r * n <= r * n + c < (r + 1) * n,
        (r + 1) * n == r * n + n,
{
}

/// Decodes the whitespace-separated dense-matrix shape: the first line
/// names the vertex count `n`, and the next `n` lines each hold the `n`
/// weights of one matrix row.  The whole redundant matrix must be
/// present, numeric, symmetric, and zero on the diagonal; any defect is
/// fatal, and the accepted tables are characterized exactly.
#[verifier::rlimit(80)]
pub fn parse_full_table(bytes: &Vec<u8>) -> (r: Result<Graph, GraphError>)
    ensures
        clean_lines(bytes@).len() == 0 ==> r == Result::<Graph, GraphError>::Err(
            GraphError::MissingHeader,
        ),
        clean_lines(bytes@).len() > 0 && spec_header_ws(clean_lines(bytes@)) is None ==> r
            == Result::<Graph, GraphError>::Err(GraphError::BadHeader),
        clean_lines(bytes@).len() > 0 && spec_header_ws(clean_lines(bytes@)) is Some ==> {
            let lines = clean_lines(bytes@);
            let n = spec_header_ws(lines).unwrap();
            &&& (n > MAX_VERTICES ==> r == Result::<Graph, GraphError>::Err(
                GraphError::GraphTooLarge,
            ))
            &&& (n <= MAX_VERTICES ==> {
                &&& (r is Ok <==> table_ok(lines, n))
                &&& table_err_sound(lines, n, r)
                &&& (r is Ok ==> {
                    let g = r.unwrap();
                    &&& g.wf()
                    &&& g.spec_n() == n
                    &&& forall|a: int, b: int|
                        1 <= a <= n && 1 <= b <= n ==> #[trigger] g.edge(a, b) == table_cell(
                            lines,
                            a,
                            b - 1,
                        ).unwrap()
                    &&& forall|c: int| 0 <= c <= n ==> #[trigger] g.edge(0, c) == 0
                })
            })
        },
{
    let ghost lines = clean_lines(bytes@);
    let ls = split_line_ranges(bytes);
    if ls.len() == 0 {
        return Err(GraphError::MissingHeader);
    }
    let tks0 = token_ranges(bytes, ls[0].0, ls[0].1);
    if tks0.len() == 0 {
        return Err(GraphError::BadHeader);
    }
    let nv = match parse_field(bytes, tks0[0].0, tks0[0].1) {
        Some(x) => x,
        None => {
            return Err(GraphError::BadHeader);
        },
    };
    if nv > MAX_VERTICES as u64 {
        return Err(GraphError::GraphTooLarge);
    }
    let n = nv as usize;
    let ghost gn = n as int;
    let mut tbl: Vec<u32> = Vec::new();
    let mut i: usize = 1;
    while i <= n
        invariant
            1 <= i <= n + 1,
            gn == n as int,
            lines == clean_lines(bytes@),
            lines.len() > 0,
            spec_header_ws(lines) == Some(gn),
            n <= MAX_VERTICES,
            ls@.len() == lines.len(),
            forall|t: int|
                0 <= t < ls@.len() ==> (#[trigger] ls@[t]).0 <= ls@[t].1 <= bytes@.len()
                    && bytes@.subrange(ls@[t].0 as int, ls@[t].1 as int) == lines[t],
            tbl@.len() == (i - 1) * n,
            forall|x: int, y: int|
                0 <= x < i - 1 && 0 <= y < n ==> #[trigger] table_cell(lines, x + 1, y) is Some
                    && table_cell(lines, x + 1, y).unwrap() <= u32::MAX && tbl@[x * gn + y]
                    == table_cell(lines, x + 1, y).unwrap(),
        decreases n + 1 - i,
    {
        if i >= ls.len() {
            proof {
                assert(table_cell(lines, i as int, 0) is None);
                assert(0 <= 0 < n as int);
                assert(table_err_sound(lines, gn, Result::<Graph, GraphError>::Err(
                    GraphError::MissingEntry { line: i },
                )));
            }
            return Err(GraphError::MissingEntry { line: i });
        }
        let toks = token_ranges(bytes, ls[i].0, ls[i].1);
        let ghost row = tokens_ws(lines[i as int]);
        let mut j: usize = 0;
        while j < n
            invariant
                1 <= i <= n,
                0 <= j <= n,
                gn == n as int,
                lines == clean_lines(bytes@),
                lines.len() > 0,
                spec_header_ws(lines) == Some(gn),
                n <= MAX_VERTICES,
                i < lines.len(),
                row == tokens_ws(lines[i as int]),
                toks@.len() == row.len(),
                forall|t: int|
                    0 <= t < toks@.len() ==> (#[trigger] toks@[t]).0 <= toks@[t].1 <= bytes@.len()
                        && bytes@.subrange(toks@[t].0 as int, toks@[t].1 as int) == row[t],
                tbl@.len() == (i - 1) * n + j,
                forall|x: int, y: int|
                    0 <= x < i - 1 && 0 <= y < n ==> #[trigger] table_cell(lines, x + 1, y) is Some
                        && table_cell(lines, x + 1, y).unwrap() <= u32::MAX && tbl@[x * gn + y]
                        == table_cell(lines, x + 1, y).unwrap(),
                forall|y: int|
                    0 <= y < j ==> #[trigger] table_cell(lines, i as int, y) is Some && table_cell(
                        lines,
                        i as int,
                        y,
                    ).unwrap() <= u32::MAX && tbl@[(i - 1) * gn + y] == table_cell(
                        lines,
                        i as int,
                        y,
                    ).unwrap(),
            decreases n - j,
        {
            proof {
                lemma_grid(gn, i - 1, j as int);
                assert((i - 1) * gn + j < usize::MAX) by (nonlinear_arith)
                    requires
                        0 <= i - 1 < 46341,
                        0 <= gn <= 46340,
                        0 <= j < gn,
                        (i - 1) * gn + j < i * gn,
                        usize::MAX >= 0xffff_ffff,
                ;
            }
            if j >= toks.len() {
                proof {
                    assert(table_cell(lines, i as int, j as int) is None);
                    assert(0 <= j < n as int);
                    assert(table_err_sound(lines, gn, Result::<Graph, GraphError>::Err(
                        GraphError::MissingEntry { line: i },
                    )));
                }
                return Err(GraphError::MissingEntry { line: i });
            }
            let w = match parse_field(bytes, toks[j].0, toks[j].1) {
                Some(x) => x,
                None => {
                    proof {
                        assert(table_cell(lines, i as int, j as int) is None);
                        assert(exists|y: int|
                            0 <= y < n as int && (#[trigger] table_cell(lines, i as int, y) is None
                                || table_cell(lines, i as int, y).unwrap() > u32::MAX));
                        assert(table_err_sound(lines, gn, Result::<Graph, GraphError>::Err(
                            GraphError::BadNumber { line: i },
                        )));
                    }
                    return Err(GraphError::BadNumber { line: i });
                },
            };
            if w > u32::MAX as u64 {
                proof {
                    assert(table_cell(lines, i as int, j as int).unwrap() > u32::MAX);
                    assert(exists|y: int|
                        0 <= y < n as int && (#[trigger] table_cell(lines, i as int, y) is None
                            || table_cell(lines, i as int, y).unwrap() > u32::MAX));
                    assert(table_err_sound(lines, gn, Result::<Graph, GraphError>::Err(
                        GraphError::BadNumber { line: i },
                    )));
                }
                return Err(GraphError::BadNumber { line: i });
            }
            tbl.push(w as u32);
            proof {
                assert(table_cell(lines, i as int, j as int) == Some(w as int));
                assert forall|x: int, y: int| 0 <= x < i - 1 && 0 <= y < n implies #[trigger] table_cell(
                    lines,
                    x + 1,
                    y,
                ) is Some && table_cell(lines, x + 1, y).unwrap() <= u32::MAX && tbl@[x * gn + y]
                    == table_cell(lines, x + 1, y).unwrap() by {
                    lemma_grid(gn, x, y);
                    assert(x * gn + y < (i - 1) * gn + j) by (nonlinear_arith)
                        requires
                            0 <= y < gn,
                            0 <= x < i - 1,
                            0 <= j,
                            x * gn + y < (x + 1) * gn,
                    ;
                }
            }
            j = j + 1;
        }
        proof {
            assert((i - 1) * gn + gn == i * gn) by (nonlinear_arith);
        }
        i = i + 1;
    }
    let ghost tblv = tbl@;
    let mut a: usize = 1;
    while a <= n
        invariant
            1 <= a <= n + 1,
            gn == n as int,
            lines == clean_lines(bytes@),
            lines.len() > 0,
            spec_header_ws(lines) == Some(gn),
            n <= MAX_VERTICES,
            tbl@ == tblv,
            tbl@.len() == n * gn,
            forall|x: int, y: int|
                0 <= x < n && 0 <= y < n ==> #[trigger] table_cell(lines, x + 1, y) is Some
                    && table_cell(lines, x + 1, y).unwrap() <= u32::MAX && tbl@[x * gn + y]
                    == table_cell(lines, x + 1, y).unwrap(),
            forall|x: int, y: int|
                1 <= x <= n && 1 <= y <= n && (x < a) ==> #[trigger] table_cell(lines, x, y - 1)
                    == table_cell(lines, y, x - 1) && (x == y ==> table_cell(
                    lines,
                    x,
                    y - 1,
                ).unwrap() == 0),
        decreases n + 1 - a,
    {
        let mut b: usize = 1;
        while b <= n
            invariant
                1 <= a <= n,
                1 <= b <= n + 1,
                gn == n as int,
                lines == clean_lines(bytes@),
                lines.len() > 0,
                spec_header_ws(lines) == Some(gn),
                n <= MAX_VERTICES,
                tbl@ == tblv,
                tbl@.len() == n * gn,
                forall|x: int, y: int|
                    0 <= x < n && 0 <= y < n ==> #[trigger] table_cell(lines, x + 1, y) is Some
                        && table_cell(lines, x + 1, y).unwrap() <= u32::MAX && tbl@[x * gn + y]
                        == table_cell(lines, x + 1, y).unwrap(),
                forall|x: int, y: int|
                    1 <= x <= n && 1 <= y <= n && (x < a || (x == a && y < b)) ==> #[trigger] table_cell(
                        lines,
                        x,
                        y - 1,
                    ) == table_cell(lines, y, x - 1) && (x == y ==> table_cell(
                        lines,
                        x,
                        y - 1,
                    ).unwrap() == 0),
            decreases n + 1 - b,
        {
            proof {
                lemma_grid(gn, a - 1, b - 1);
                lemma_grid(gn, b - 1, a - 1);
                assert(gn * gn <= 46340 * 46340) by (nonlinear_arith)
                    requires
                        0 <= gn <= 46340,
                ;
                assert(usize::MAX >= 0xffff_ffff);
                assert((a - 1) * gn + (b - 1) < n * gn && (b - 1) * gn + (a - 1) < n * gn)
                    by (nonlinear_arith)
                    requires
                        1 <= a <= n,
                        1 <= b <= n,
                        gn == n,
                        (a - 1) * gn + (b - 1) < a * gn,
                        (b - 1) * gn + (a - 1) < b * gn,
                ;
            }
            let wab = tbl[(a - 1) * n + (b - 1)];
            let wba = tbl[(b - 1) * n + (a - 1)];
            if a == b && wab != 0 {
                proof {
                    assert(table_cell(lines, a as int, a as int - 1).unwrap() == wab as int);
                    assert(table_err_sound(lines, gn, Result::<Graph, GraphError>::Err(
                        GraphError::SelfLoop { line: a },
                    )));
                }
                return Err(GraphError::SelfLoop { line: a });
            }
            if wab != wba {
                proof {
                    assert(table_cell(lines, a as int, b as int - 1).unwrap() == wab as int);
                    assert(table_cell(lines, b as int, a as int - 1).unwrap() == wba as int);
                    assert(table_cell(lines, a as int, b as int - 1) != table_cell(
                        lines,
                        b as int,
                        a as int - 1,
                    ));
                    assert(table_err_sound(lines, gn, Result::<Graph, GraphError>::Err(
                        GraphError::NotSymmetric { line: a },
                    )));
                }
                return Err(GraphError::NotSymmetric { line: a });
            }
            proof {
                assert(table_cell(lines, a as int, b - 1) == table_cell(lines, b as int, a - 1));
            }
            b = b + 1;
        }
        a = a + 1;
    }
    let mut g = Graph::new_empty(n);
    let mut p: usize = 2;
    while p <= n
        invariant
            2 <= p,
            p <= n + 1 || p == 2,
            gn == n as int,
            lines == clean_lines(bytes@),
            lines.len() > 0,
            spec_header_ws(lines) == Some(gn),
            n <= MAX_VERTICES,
            tbl@ == tblv,
            tbl@.len() == n * gn,
            g.wf(),
            g.spec_n() == gn,
            forall|x: int, y: int|
                0 <= x < n && 0 <= y < n ==> #[trigger] table_cell(lines, x + 1, y) is Some
                    && table_cell(lines, x + 1, y).unwrap() <= u32::MAX && tbl@[x * gn + y]
                    == table_cell(lines, x + 1, y).unwrap(),
            forall|x: int, y: int|
                1 <= y < x <= n && x < p ==> #[trigger] g.edge(x, y) == table_cell(
                    lines,
                    x,
                    y - 1,
                ).unwrap(),
            forall|x: int, y: int|
                0 <= x <= n && 0 <= y <= n && !(1 <= y < x <= n && x < p) && !(1 <= x < y <= n && y
                    < p) ==> #[trigger] g.edge(x, y) == 0,
        decreases n + 1 - p,
    {
        let mut q: usize = 1;
        while q < p
            invariant
                2 <= p <= n,
                1 <= q <= p,
                gn == n as int,
                lines == clean_lines(bytes@),
                lines.len() > 0,
                spec_header_ws(lines) == Some(gn),
                n <= MAX_VERTICES,
                tbl@ == tblv,
                tbl@.len() == n * gn,
                g.wf(),
                g.spec_n() == gn,
                forall|x: int, y: int|
                    0 <= x < n && 0 <= y < n ==> #[trigger] table_cell(lines, x + 1, y) is Some
                        && table_cell(lines, x + 1, y).unwrap() <= u32::MAX && tbl@[x * gn + y]
                        == table_cell(lines, x + 1, y).unwrap(),
                forall|x: int, y: int|
                    1 <= y < x <= n && (x < p || (x == p && y < q)) ==> #[trigger] g.edge(x, y)
                        == table_cell(lines, x, y - 1).unwrap(),
                forall|x: int, y: int|
                    0 <= x <= n && 0 <= y <= n && !(1 <= y < x <= n && (x < p || (x == p && y < q)))
                        && !(1 <= x < y <= n && (y < p || (y == p && x < q))) ==> #[trigger] g.edge(
                        x,
                        y,
                    ) == 0,
            decreases p - q,
        {
            proof {
                lemma_grid(gn, p - 1, q - 1);
                assert(gn * gn <= 46340 * 46340) by (nonlinear_arith)
                    requires
                        0 <= gn <= 46340,
                ;
                assert(usize::MAX >= 0xffff_ffff);
                assert((p - 1) * gn + (q - 1) < n * gn) by (nonlinear_arith)
                    requires
                        1 <= p <= n,
                        1 <= q <= n,
                        gn == n,
                        (p - 1) * gn + (q - 1) < p * gn,
                ;
            }
            let w = tbl[(p - 1) * n + (q - 1)];
            g.set_edge(p, q, w);
            q = q + 1;
        }
        p = p + 1;
    }
    proof {
        g.lemma_symmetry();
        assert(table_ok(lines, gn));
        assert forall|x: int, y: int| 1 <= x <= gn && 1 <= y <= gn implies #[trigger] g.edge(x, y)
            == table_cell(lines, x, y - 1).unwrap() by {
            if x > y {
            } else if x < y {
                assert(g.edge(x, y) == g.edge(y, x));
                assert(table_cell(lines, y, x - 1) == table_cell(lines, x, y - 1));
            } else {
                assert(g.edge(x, x) == 0);
                assert(table_cell(lines, x, y - 1).unwrap() == 0);
            }
        }
    }
    Ok(g)
}

/// No newline occurs in `s`.
pub open spec fn no_nl(s: Seq<u8>) -> bool {
    forall|k: int| 0 <= k < s.len() ==> s[k] != 10
}

/// `s` is newline-terminated text: empty, or ending with a newline.
pub open spec fn ends_nl(s: Seq<u8>) -> bool {
    s.len() == 0 || s.last() == 10
}

/// `first_sep` finds a separator: everything before it differs from
/// `sep`, and it is the end or holds `sep`.
pub proof fn lemma_first_sep_finds(s: Seq<u8>, sep: u8)
    ensures
        0 <= first_sep(s, sep) <= s.len(),
        first_sep(s, sep) == s.len() || s[first_sep(s, sep)] == sep,
        forall|k: int| 0 <= k < first_sep(s, sep) ==> s[k] != sep,
    decreases s.len(),
{
    if s.len() > 0 && s.first() != sep {
        lemma_first_sep_finds(s.drop_first(), sep);
        assert forall|k: int| 0 <= k < first_sep(s, sep) implies s[k] != sep by {
            if k > 0 {
                assert(s.drop_first()[k - 1] != sep);
            }
        }
    }
}

/// Splitting a complete line off the front.
pub proof fn lemma_split_concat(body: Seq<u8>, rest: Seq<u8>)
    requires
        no_nl(body),
    ensures
        split_lines(body + seq![10u8] + rest) =~= seq![body] + split_lines(rest),
{
    let s = body + seq![10u8] + rest;
    assert forall|k: int| 0 <= k < body.len() implies s[k] != 10 by {
        assert(s[k] == body[k]);
    }
    assert(s[body.len() as int] == 10);
    lemma_first_sep_at(s, 10, body.len() as int);
    assert(s.take(body.len() as int) =~= body);
    assert(s.skip(body.len() as int + 1) =~= rest);
}

/// Line splitting distributes over appending to newline-terminated text.
pub proof fn lemma_split_append(a: Seq<u8>, b: Seq<u8>)
    requires
        ends_nl(a),
    ensures
        split_lines(a + b) =~= split_lines(a) + split_lines(b),
    decreases a.len(),
{
    if a.len() == 0 {
        assert(a + b =~= b);
    } else {
        lemma_first_sep_finds(a, 10);
        let i = first_sep(a, 10);
        assert(i < a.len()) by {
            if i == a.len() {
                assert(a[a.len() - 1] != 10);
            }
        }
        assert forall|k: int| 0 <= k < i implies (a + b)[k] != 10 by {
            assert((a + b)[k] == a[k]);
        }
        assert((a + b)[i] == a[i]);
        lemma_first_sep_at(a + b, 10, i);
        assert((a + b).take(i) =~= a.take(i));
        assert((a + b).skip(i + 1) =~= a.skip(i + 1) + b);
        assert(ends_nl(a.skip(i + 1))) by {
            if a.skip(i + 1).len() > 0 {
                assert(a.skip(i + 1).last() == a.last());
            }
        }
        lemma_split_append(a.skip(i + 1), b);
        if a.skip(i + 1).len() == 0 && b.len() > 0 {
        }
        assert(split_lines(a) =~= seq![a.take(i)] + split_lines(a.skip(i + 1)));
        assert(split_lines(a + b) =~= seq![(a + b).take(i)] + split_lines((a + b).skip(i + 1)));
    }
}

/// The text of one saved edge without its newline.
pub open spec fn line_body(i: int, j: int, w: int) -> Seq<u8> {
    dec_digits(i) + seq![44u8, 32u8] + dec_digits(j) + seq![44u8, 32u8] + dec_digits(w)
}

/// The saved lines of row `i`'s nonzero entries left of column `j`.
pub open spec fn row_lines(g: Graph, i: int, j: int) -> Seq<Seq<u8>>
    decreases j,
{
    if j <= 1 {
        Seq::empty()
    } else {
        row_lines(g, i, j - 1) + (if g.edge(i, j - 1) != 0 {
            seq![line_body(i, j - 1, g.edge(i, j - 1) as int)]
        } else {
            Seq::<Seq<u8>>::empty()
        })
    }
}

/// The saved lines of the rows below `i`.
pub open spec fn rows_lines(g: Graph, i: int) -> Seq<Seq<u8>>
    decreases i,
{
    if i <= 1 {
        Seq::empty()
    } else {
        rows_lines(g, i - 1) + row_lines(g, i - 1, i - 1)
    }
}

/// A line body is digits, commas and blanks: no newline anywhere, and it
/// neither starts nor ends with whitespace.
pub proof fn lemma_line_body_chars(i: int, j: int, w: int)
    requires
        0 <= i,
        0 <= j,
        0 <= w,
    ensures
        no_nl(line_body(i, j, w)),
        line_body(i, j, w).len() > 0,
        line_body(i, j, w).last() != 13,
{
    lemma_dec_digits(i);
    lemma_dec_digits(j);
    lemma_dec_digits(w);
    let b = line_body(i, j, w);
    assert(b.last() == dec_digits(w).last());
    assert(is_digit(dec_digits(w)[dec_digits(w).len() - 1]));
    assert forall|k: int| 0 <= k < b.len() implies b[k] != 10 by {
        let di = dec_digits(i);
        let dj = dec_digits(j);
        let dw = dec_digits(w);
        if k < di.len() {
            assert(b[k] == di[k]);
            assert(is_digit(di[k]));
        } else if k < di.len() + 2 {
        } else if k < di.len() + 2 + dj.len() {
            assert(b[k] == dj[k - di.len() - 2]);
            assert(is_digit(dj[k - di.len() - 2]));
        } else if k < di.len() + 2 + dj.len() + 2 {
        } else {
            assert(b[k] == dw[k - di.len() - 2 - dj.len() - 2]);
            assert(is_digit(dw[k - di.len() - 2 - dj.len() - 2]));
        }
    }
}

/// The rendered text of a row splits into its line bodies.
pub proof fn lemma_row_split(g: Graph, i: int, j: int)
    requires
        g.wf(),
        1 <= i,
        1 <= j,
    ensures
        ends_nl(spec_render_row(g, i, j)),
        split_lines(spec_render_row(g, i, j)) =~= row_lines(g, i, j),
    decreases j,
{
    if j > 1 {
        lemma_row_split(g, i, j - 1);
        let a = spec_render_row(g, i, j - 1);
        if g.edge(i, j - 1) != 0 {
            let body = line_body(i, j - 1, g.edge(i, j - 1) as int);
            lemma_line_body_chars(i, j - 1, g.edge(i, j - 1) as int);
            assert(line_bytes(i, j - 1, g.edge(i, j - 1) as int) =~= body + seq![10u8]);
            lemma_split_append(a, body + seq![10u8]);
            assert(body + seq![10u8] =~= body + seq![10u8] + Seq::<u8>::empty());
            lemma_split_concat(body, Seq::<u8>::empty());
            assert(split_lines(Seq::<u8>::empty()) =~= Seq::<Seq<u8>>::empty());
            assert(spec_render_row(g, i, j) =~= a + (body + seq![10u8]));
            assert((body + seq![10u8]).last() == 10);
        } else {
            assert(spec_render_row(g, i, j) =~= a);
            assert(row_lines(g, i, j) =~= row_lines(g, i, j - 1));
        }
    }
}


/// A bare digit string parses to its value.
pub proof fn lemma_field_digits(x: int)
    requires
        0 <= x <= u64::MAX,
    ensures
        spec_parse_field(dec_digits(x)) == Some(x),
{
    lemma_dec_digits(x);
    let d = dec_digits(x);
    assert(!is_space(d.first())) by {
        assert(is_digit(d[0]));
    }
    assert(!is_space(d.last())) by {
        assert(is_digit(d[d.len() - 1]));
    }
    assert(trim_front(d) == d);
    assert(trim_back(d) == d);
    assert(is_num(d));
}

/// A digit string behind one blank parses to its value.
pub proof fn lemma_field_blank_digits(x: int)
    requires
        0 <= x <= u64::MAX,
    ensures
        spec_parse_field(seq![32u8] + dec_digits(x)) == Some(x),
{
    lemma_dec_digits(x);
    let d = dec_digits(x);
    let f = seq![32u8] + d;
    assert(f.first() == 32);
    assert(is_space(f.first()));
    assert(f.drop_first() =~= d);
    assert(!is_space(d.first())) by {
        assert(is_digit(d[0]));
    }
    assert(trim_front(f) == trim_front(d));
    assert(trim_front(d) == d);
    assert(!is_space(d.last())) by {
        assert(is_digit(d[d.len() - 1]));
    }
    assert(trim_back(d) == d);
    assert(is_num(d));
}

/// A saved line splits into exactly its three fields.
pub proof fn lemma_line_body_fields(i: int, j: int, w: int)
    requires
        0 <= i,
        0 <= j,
        0 <= w,
    ensures
        split_fields(line_body(i, j, w), 44) =~= seq![
            dec_digits(i),
            seq![32u8] + dec_digits(j),
            seq![32u8] + dec_digits(w),
        ],
{
    lemma_dec_digits(i);
    lemma_dec_digits(j);
    lemma_dec_digits(w);
    let di = dec_digits(i);
    let dj = dec_digits(j);
    let dw = dec_digits(w);
    let b = line_body(i, j, w);
    let r1 = seq![32u8] + dj + seq![44u8, 32u8] + dw;
    let r2 = seq![32u8] + dw;
    assert forall|k: int| 0 <= k < di.len() implies b[k] != 44 by {
        assert(b[k] == di[k]);
        assert(is_digit(di[k]));
    }
    assert(b[di.len() as int] == 44);
    lemma_first_sep_at(b, 44, di.len() as int);
    assert(b.take(di.len() as int) =~= di);
    assert(b.skip(di.len() as int + 1) =~= r1);
    assert forall|k: int| 0 <= k < 1 + dj.len() implies r1[k] != 44 by {
        if k > 0 {
            assert(r1[k] == dj[k - 1]);
            assert(is_digit(dj[k - 1]));
        }
    }
    assert(r1[1 + dj.len() as int] == 44);
    lemma_first_sep_at(r1, 44, 1 + dj.len() as int);
    assert(r1.take(1 + dj.len() as int) =~= seq![32u8] + dj);
    assert(r1.skip(1 + dj.len() as int + 1) =~= r2);
    assert forall|k: int| 0 <= k < r2.len() implies r2[k] != 44 by {
        if k > 0 {
            assert(r2[k] == dw[k - 1]);
            assert(is_digit(dw[k - 1]));
        }
    }
    lemma_first_sep_at(r2, 44, r2.len() as int);
    assert(split_fields(r2, 44) =~= seq![r2]);
    assert(di.len() < b.len());
    assert(split_fields(b, 44) =~= seq![di] + split_fields(r1, 44));
    assert(1 + dj.len() < r1.len());
    assert(split_fields(r1, 44) =~= seq![seq![32u8] + dj] + split_fields(r2, 44));
}

/// What a saved line stores: exactly weight `w` at its own pair, and it
/// is always acceptable to the decoder.
pub proof fn lemma_line_sets(i: int, j: int, w: u32, n: int, a: int, b: int)
    requires
        1 <= j < i <= n,
        i <= u64::MAX,
        1 <= w,
    ensures
        edge_line_ok(line_body(i, j, w as int), n),
        line_sets(line_body(i, j, w as int), n, a, b) == (if (a == i && b == j) || (a == j && b
            == i) {
            Some(w)
        } else {
            None::<u32>
        }),
{
    lemma_line_body_fields(i, j, w as int);
    lemma_field_digits(i);
    lemma_field_blank_digits(j);
    lemma_field_blank_digits(w as int);
}

/// `edge_after` reads only the lines before `k`.
pub proof fn lemma_edge_after_congruence(
    l1: Seq<Seq<u8>>,
    l2: Seq<Seq<u8>>,
    k: int,
    n: int,
    a: int,
    b: int,
)
    requires
        forall|t: int| 1 <= t < k ==> l1[t] == l2[t],
    ensures
        edge_after(l1, k, n, a, b) == edge_after(l2, k, n, a, b),
    decreases k,
{
    if k > 1 {
        lemma_edge_after_congruence(l1, l2, k - 1, n, a, b);
    }
}

/// After the header and the rows below `i` (row `i` itself up to column
/// `j`), the decoder's matrix holds exactly the rendered entries of `g`
/// and zero everywhere else.
pub proof fn lemma_rt_partial(g: Graph, i: int, j: int)
    requires
        g.wf(),
        1 <= j <= i,
        i <= g.spec_n() + 1,
        i == g.spec_n() + 1 ==> j == 1,
    ensures
        ({
            let l = seq![dec_digits(g.spec_n())] + rows_lines(g, i) + row_lines(g, i, j);
            forall|a: int, b: int|
                1 <= a <= g.spec_n() && 1 <= b <= g.spec_n() ==> edge_after(
                    l,
                    l.len() as int,
                    g.spec_n(),
                    a,
                    b,
                ) == (if (if a < b {
                    b
                } else {
                    a
                }) < i || ((if a < b {
                    b
                } else {
                    a
                }) == i && (if a < b {
                    a
                } else {
                    b
                }) < j) {
                    g.edge(a, b)
                } else {
                    0u32
                })
        }),
    decreases i, j,
{
    g.wf_bounds();
    let n = g.spec_n();
    let l = seq![dec_digits(n)] + rows_lines(g, i) + row_lines(g, i, j);
    if i == 1 && j == 1 {
        assert(l =~= seq![dec_digits(n)]);
        assert forall|a: int, b: int| 1 <= a <= n && 1 <= b <= n implies edge_after(
            l,
            l.len() as int,
            n,
            a,
            b,
        ) == 0u32 by {
            assert(l.len() == 1);
        }
    } else if j == 1 {
        // a fresh row: the same line list as the finished previous row
        lemma_rt_partial(g, i - 1, i - 1);
        let lp = seq![dec_digits(n)] + rows_lines(g, i - 1) + row_lines(g, i - 1, i - 1);
        assert(rows_lines(g, i) =~= rows_lines(g, i - 1) + row_lines(g, i - 1, i - 1));
        assert(row_lines(g, i, 1) =~= Seq::<Seq<u8>>::empty());
        assert(l =~= lp);
        assert forall|a: int, b: int| 1 <= a <= n && 1 <= b <= n implies edge_after(
            l,
            l.len() as int,
            n,
            a,
            b,
        ) == (if (if a < b {
            b
        } else {
            a
        }) < i {
            g.edge(a, b)
        } else {
            0u32
        }) by {
            let hi = if a < b {
                b
            } else {
                a
            };
            let lo = if a < b {
                a
            } else {
                b
            };
            assert(edge_after(l, l.len() as int, n, a, b) == edge_after(
                lp,
                lp.len() as int,
                n,
                a,
                b,
            ));
            if hi == i - 1 && lo == i - 1 {
                g.lemma_symmetry();
                assert(g.edge(a, a) == 0);
            }
        }
    } else {
        lemma_rt_partial(g, i, j - 1);
        let lp = seq![dec_digits(n)] + rows_lines(g, i) + row_lines(g, i, j - 1);
        if g.edge(i, j - 1) == 0 {
            assert(l =~= lp);
            assert forall|a: int, b: int| 1 <= a <= n && 1 <= b <= n implies edge_after(
                l,
                l.len() as int,
                n,
                a,
                b,
            ) == (if (if a < b {
                b
            } else {
                a
            }) < i || ((if a < b {
                b
            } else {
                a
            }) == i && (if a < b {
                a
            } else {
                b
            }) < j) {
                g.edge(a, b)
            } else {
                0u32
            }) by {
                let hi = if a < b {
                    b
                } else {
                    a
                };
                let lo = if a < b {
                    a
                } else {
                    b
                };
                assert(edge_after(l, l.len() as int, n, a, b) == edge_after(
                    lp,
                    lp.len() as int,
                    n,
                    a,
                    b,
                ));
                if hi == i && lo == j - 1 {
                    g.lemma_symmetry();
                    assert(g.edge(a, b) == g.edge(i, j - 1));
                }
            }
        } else {
            let w = g.edge(i, j - 1);
            let body = line_body(i, j - 1, w as int);
            assert(row_lines(g, i, j) =~= row_lines(g, i, j - 1) + seq![body]);
            assert(l =~= lp + seq![body]);
            assert forall|a: int, b: int| 1 <= a <= n && 1 <= b <= n implies edge_after(
                l,
                l.len() as int,
                n,
                a,
                b,
            ) == (if (if a < b {
                b
            } else {
                a
            }) < i || ((if a < b {
                b
            } else {
                a
            }) == i && (if a < b {
                a
            } else {
                b
            }) < j) {
                g.edge(a, b)
            } else {
                0u32
            }) by {
                let hi = if a < b {
                    b
                } else {
                    a
                };
                let lo = if a < b {
                    a
                } else {
                    b
                };
                lemma_line_sets(i, j - 1, w, n, a, b);
                assert(l.len() == lp.len() + 1);
                assert(l[l.len() - 1] == body);
                assert(edge_after(l, l.len() as int, n, a, b) == (match line_sets(body, n, a, b) {
                    Option::Some(x) => x,
                    Option::None => edge_after(l, l.len() as int - 1, n, a, b),
                }));
                if (a == i && b == j - 1) || (a == j - 1 && b == i) {
                    assert(g.edge(a, b) == w) by {
                        g.lemma_symmetry();
                    }
                } else {
                    assert forall|t: int| 1 <= t < lp.len() as int implies l[t] == lp[t] by {}
                    lemma_edge_after_congruence(l, lp, lp.len() as int, n, a, b);
                }
            }
        }
    }
}

/// Every saved line is acceptable to the decoder.
pub proof fn lemma_rows_ok(g: Graph, i: int, j: int)
    requires
        g.wf(),
        1 <= j <= i,
        i <= g.spec_n() + 1,
        i == g.spec_n() + 1 ==> j == 1,
    ensures
        ({
            let l = rows_lines(g, i) + row_lines(g, i, j);
            forall|t: int| 0 <= t < l.len() ==> edge_line_ok(#[trigger] l[t], g.spec_n())
        }),
    decreases i, j,
{
    g.wf_bounds();
    let n = g.spec_n();
    let l = rows_lines(g, i) + row_lines(g, i, j);
    if i == 1 && j == 1 {
        assert(l.len() == 0);
    } else if j == 1 {
        lemma_rows_ok(g, i - 1, i - 1);
        assert(l =~= rows_lines(g, i - 1) + row_lines(g, i - 1, i - 1));
    } else {
        lemma_rows_ok(g, i, j - 1);
        let lp = rows_lines(g, i) + row_lines(g, i, j - 1);
        if g.edge(i, j - 1) == 0 {
            assert(l =~= lp);
        } else {
            let w = g.edge(i, j - 1);
            lemma_line_sets(i, j - 1, w, n, 0, 0);
            assert(l =~= lp + seq![line_body(i, j - 1, w as int)]);
        }
    }
}

/// Saving and re-reading a graph is the identity: the saved text's
/// header names the same vertex count, every saved line is accepted,
/// and replaying the lines rebuilds the same weight for every pair of
/// real vertices — so `parse_edge_list` after `render_edge_list`
/// returns a graph with identical distances wherever two vertices are
/// connected (and everywhere else too).
pub proof fn lemma_render_round_trip(g: Graph)
    requires
        g.wf(),
    ensures
        ({
            let lines = clean_lines(spec_render(g));
            &&& lines.len() >= 1
            &&& spec_header(lines) == Some(g.spec_n())
            &&& edges_ok(lines, g.spec_n())
            &&& forall|a: int, b: int|
                1 <= a <= g.spec_n() && 1 <= b <= g.spec_n() ==> edge_after(
                    lines,
                    lines.len() as int,
                    g.spec_n(),
                    a,
                    b,
                ) == g.edge(a, b)
        }),
{
    g.wf_bounds();
    let n = g.spec_n();
    lemma_dec_digits(n);
    let hdr = dec_digits(n);
    let rows = spec_render_rows(g, n + 1);
    assert(spec_render(g) =~= hdr + seq![10u8] + rows);
    assert(no_nl(hdr)) by {
        assert forall|k: int| 0 <= k < hdr.len() implies hdr[k] != 10 by {
            assert(is_digit(hdr[k]));
        }
    }
    lemma_split_concat(hdr, rows);
    lemma_rows_split(g, n + 1);
    let raw = seq![hdr] + rows_lines(g, n + 1);
    assert(split_lines(spec_render(g)) =~= raw);
    // no carriage returns anywhere, so cleaning changes nothing
    lemma_rows_ok(g, n + 1, 1);
    assert(rows_lines(g, n + 1) + row_lines(g, n + 1, 1) =~= rows_lines(g, n + 1));
    let lines = clean_lines(spec_render(g));
    assert(lines.len() == raw.len());
    assert forall|t: int| 0 <= t < raw.len() implies lines[t] == raw[t] by {
        assert(lines[t] == strip_cr(raw[t]));
        if t == 0 {
            assert(raw[t] == hdr);
            assert(is_digit(hdr[hdr.len() - 1]));
            assert(strip_cr(hdr) == hdr);
        } else {
            lemma_rows_no_cr(g, n + 1, 1, t - 1);
        }
    }
    assert(lines =~= raw);
    // the header names n
    assert forall|k: int| 0 <= k < hdr.len() implies hdr[k] != 44 by {
        assert(is_digit(hdr[k]));
    }
    lemma_first_sep_at(hdr, 44, hdr.len() as int);
    assert(split_fields(hdr, 44) =~= seq![hdr]);
    assert(spec_header(lines) == Some(n));
    // every line is acceptable
    assert forall|k: int| 1 <= k < lines.len() implies edge_line_ok(#[trigger] lines[k], n) by {
        assert(lines[k] == rows_lines(g, n + 1)[k - 1]);
        assert((rows_lines(g, n + 1) + row_lines(g, n + 1, 1))[k - 1] == rows_lines(g, n + 1)[k
            - 1]);
    }
    // replaying the lines rebuilds g
    lemma_rt_partial(g, n + 1, 1);
    let l = seq![hdr] + rows_lines(g, n + 1) + row_lines(g, n + 1, 1);
    assert(l =~= lines);
    assert forall|a: int, b: int| 1 <= a <= n && 1 <= b <= n implies edge_after(
        lines,
        lines.len() as int,
        n,
        a,
        b,
    ) == g.edge(a, b) by {
        assert(edge_after(l, l.len() as int, n, a, b) == g.edge(a, b));
    }
}

/// No saved line ends with a carriage return.
pub proof fn lemma_rows_no_cr(g: Graph, i: int, j: int, t: int)
    requires
        g.wf(),
        1 <= j <= i,
        i <= g.spec_n() + 1,
        i == g.spec_n() + 1 ==> j == 1,
        0 <= t < (rows_lines(g, i) + row_lines(g, i, j)).len(),
    ensures
        strip_cr((rows_lines(g, i) + row_lines(g, i, j))[t]) == (rows_lines(g, i) + row_lines(
            g,
            i,
            j,
        ))[t],
    decreases i, j,
{
    let l = rows_lines(g, i) + row_lines(g, i, j);
    if i == 1 && j == 1 {
    } else if j == 1 {
        assert(l =~= rows_lines(g, i - 1) + row_lines(g, i - 1, i - 1));
        lemma_rows_no_cr(g, i - 1, i - 1, t);
    } else {
        let lp = rows_lines(g, i) + row_lines(g, i, j - 1);
        if g.edge(i, j - 1) == 0 {
            assert(l =~= lp);
            lemma_rows_no_cr(g, i, j - 1, t);
        } else {
            assert(l =~= lp + seq![line_body(i, j - 1, g.edge(i, j - 1) as int)]);
            if t < lp.len() {
                lemma_rows_no_cr(g, i, j - 1, t);
                assert(l[t] == lp[t]);
            } else {
                lemma_line_body_chars(i, j - 1, g.edge(i, j - 1) as int);
            }
        }
    }
}

/// The rendered text of all rows splits into all their line bodies.
pub proof fn lemma_rows_split(g: Graph, i: int)
    requires
        g.wf(),
        1 <= i,
    ensures
        ends_nl(spec_render_rows(g, i)),
        split_lines(spec_render_rows(g, i)) =~= rows_lines(g, i),
    decreases i,
{
    if i > 1 {
        lemma_rows_split(g, i - 1);
        lemma_row_split(g, i - 1, i - 1);
        let a = spec_render_rows(g, i - 1);
        let b = spec_render_row(g, i - 1, i - 1);
        lemma_split_append(a, b);
        assert(spec_render_rows(g, i) =~= a + b);
        assert(ends_nl(a + b)) by {
            if b.len() > 0 {
                assert((a + b).last() == b.last());
            } else {
                assert(a + b =~= a);
            }
        }
    }
}

} // verus!





