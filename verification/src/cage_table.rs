//! The precomputed cage-combination table: for a cage size and target
//! sum, the sets of distinct digits 1..9 of that size adding up to the
//! target. The table is parsed from a small line-based text format: a
//! line ending in the word "cells" raises the current cage size by
//! one, and a line containing a colon defines one entry for the
//! current size, as a target sum followed by one combination per
//! whitespace-separated token (non-digit characters inside a token are
//! stripped).

use vstd::prelude::*;

use crate::counting::sum_upto;

verus! {

/// Loading the combination data failed: the text does not follow the
/// format.
#[derive(Debug, Clone, Copy, PartialEq, Eq, Structural)]
pub struct FormatError;

/// One entry of the table: every stored combination for one cage size
/// and target sum.
#[derive(Debug, Clone)]
pub struct TableItem {
    pub cage_size: i32,
    pub cage_sum: i32,
    pub combinations: Vec<Vec<u32>>,
}

/// Ghost model of a table entry.
pub struct TableItemView {
    pub size: int,
    pub sum: int,
    pub combos: Seq<Seq<u32>>,
}

impl View for TableItem {
    type V = TableItemView;

    open spec fn view(&self) -> TableItemView {
        TableItemView {
            size: self.cage_size as int,
            sum: self.cage_sum as int,
            combos: self.combinations@.map_values(|v: Vec<u32>| v@),
        }
    }
}

/// The combination lookup table, ordered as the entries appeared in
/// the source text.
pub struct CageTable(pub Vec<TableItem>);

impl View for CageTable {
    type V = Seq<TableItemView>;

    open spec fn view(&self) -> Seq<TableItemView> {
        self.0@.map_values(|it: TableItem| it@)
    }
}

// ------------------------------------------------------------------
// The grammar of the combination data, as spec functions
// ------------------------------------------------------------------

/// In-line whitespace: space, tab, carriage return.
pub open spec fn is_ws(c: u8) -> bool {
    c == 32 || c == 9 || c == 13
}

/// An ASCII digit byte.
pub open spec fn is_digit_byte(c: u8) -> bool {
    48 <= c <= 57
}

/// Position of the first newline at or after `i`, or `end`.
pub open spec fn line_end(s: Seq<u8>, i: int, end: int) -> int
    decreases end - i,
{
    if i >= end {
        end
    } else if s[i] == 10 {
        i
    } else {
        line_end(s, i + 1, end)
    }
}

/// Position of the first non-whitespace byte at or after `i`, or `end`.
pub open spec fn skip_ws(s: Seq<u8>, i: int, end: int) -> int
    decreases end - i,
{
    if i >= end {
        end
    } else if is_ws(s[i]) {
        skip_ws(s, i + 1, end)
    } else {
        i
    }
}

/// Position of the first whitespace byte at or after `i`, or `end`.
pub open spec fn token_end(s: Seq<u8>, i: int, end: int) -> int
    decreases end - i,
{
    if i >= end {
        end
    } else if is_ws(s[i]) {
        i
    } else {
        token_end(s, i + 1, end)
    }
}

/// The digits of `s[i..end)`, in order, with non-digit bytes stripped.
pub open spec fn digits_of(s: Seq<u8>, i: int, end: int) -> Seq<u32>
    decreases end - i,
{
    if i >= end {
        Seq::empty()
    } else if is_digit_byte(s[i]) {
        seq![(s[i] - 48) as u32] + digits_of(s, i + 1, end)
    } else {
        digits_of(s, i + 1, end)
    }
}

/// Whether every byte of `s[i..end)` is a digit.
pub open spec fn all_digits(s: Seq<u8>, i: int, end: int) -> bool
    decreases end - i,
{
    if i >= end {
        true
    } else {
        is_digit_byte(s[i]) && all_digits(s, i + 1, end)
    }
}

/// The number written by the digits `s[i..end)`, read left to right.
pub open spec fn digits_value(s: Seq<u8>, i: int, end: int) -> int
    decreases end - i,
{
    if end <= i {
        0
    } else {
        digits_value(s, i, end - 1) * 10 + (s[end - 1] - 48)
    }
}

/// The integer written by the token `s[a..b)`: digits with one
/// optional leading minus sign; `None` when the token is empty or
/// holds any other byte.
pub open spec fn sum_token_value(s: Seq<u8>, a: int, b: int) -> Option<int> {
    if a < b && s[a] == 45 {
        if a + 1 < b && all_digits(s, a + 1, b) {
            Some(-digits_value(s, a + 1, b))
        } else {
            None
        }
    } else if a < b && all_digits(s, a, b) {
        Some(digits_value(s, a, b))
    } else {
        None
    }
}

/// The token's value where it exists and fits a 32-bit integer.
pub open spec fn sum_value_i32(s: Seq<u8>, a: int, b: int) -> Option<int> {
    match sum_token_value(s, a, b) {
        Some(v) => if -2147483648 <= v <= 2147483647 {
            Some(v)
        } else {
            None
        },
        None => None,
    }
}

/// The combinations written in `s[i..end)`: one per whitespace-
/// separated token, each the token's digits; `None` when some token
/// has no digit at all.
pub open spec fn parse_combos(s: Seq<u8>, i: int, end: int) -> Option<Seq<Seq<u32>>>
    decreases end - i,
    via parse_combos_decreases
{
    if i >= end {
        Some(Seq::empty())
    } else if is_ws(s[i]) {
        parse_combos(s, i + 1, end)
    } else {
        let e = token_end(s, i, end);
        let combo = digits_of(s, i, e);
        if combo.len() == 0 {
            None
        } else {
            match parse_combos(s, e, end) {
                None => None,
                Some(rest) => Some(seq![combo] + rest),
            }
        }
    }
}

#[via_fn]
proof fn parse_combos_decreases(s: Seq<u8>, i: int, end: int) {
    if i < end && !is_ws(s[i]) {
        lemma_token_end_bounds(s, i, end);
    }
}

/// What one line of the source means.
pub enum LineForm {
    /// The line ends in "cells": the current cage size goes up by one.
    Bump,
    /// The line holds a colon: one table entry.
    Entry(TableItemView),
    /// Any other line carries nothing.
    Blank,
    /// The line holds a colon but no well-formed entry.
    Bad,
}

/// Whether `s[a..b)` ends with the letters "cells".
pub open spec fn ends_with_cells(s: Seq<u8>, a: int, b: int) -> bool {
    b - a >= 5 && s[b - 5] == 99 && s[b - 4] == 101 && s[b - 3] == 108 && s[b - 2] == 108 && s[b
        - 1] == 115
}

/// Whether `s[a..b)` holds a colon.
pub open spec fn contains_colon(s: Seq<u8>, a: int, b: int) -> bool {
    exists|j: int| a <= j < b && s[j] == 58
}

/// The entry written on the line `s[a..b)` for cage size `size`: the
/// first token, its trailing byte stripped, is the target sum; the
/// remaining tokens are the combinations.
pub open spec fn parse_entry(s: Seq<u8>, a: int, b: int, size: int) -> LineForm {
    let t0 = skip_ws(s, a, b);
    if t0 >= b {
        LineForm::Bad
    } else {
        let t1 = token_end(s, t0, b);
        match sum_value_i32(s, t0, t1 - 1) {
            None => LineForm::Bad,
            Some(v) => match parse_combos(s, t1, b) {
                None => LineForm::Bad,
                Some(cs) => LineForm::Entry(TableItemView { size: size, sum: v, combos: cs }),
            },
        }
    }
}

/// Classification of the line `s[a..b)` under current cage size
/// `size`.
pub open spec fn classify_line(s: Seq<u8>, a: int, b: int, size: int) -> LineForm {
    if ends_with_cells(s, a, b) {
        LineForm::Bump
    } else if contains_colon(s, a, b) {
        parse_entry(s, a, b, size)
    } else {
        LineForm::Blank
    }
}

/// The table written in `s[i..)`, starting from cage size `size`:
/// `None` when some line is malformed. A trailing carriage return is
/// stripped from each line.
pub open spec fn parse_table(s: Seq<u8>, i: int, size: int) -> Option<Seq<TableItemView>>
    decreases s.len() - i,
    via parse_table_decreases
{
    if i >= s.len() {
        Some(Seq::empty())
    } else {
        let e = line_end(s, i, s.len() as int);
        let b = if e > i && s[e - 1] == 13 {
            e - 1
        } else {
            e
        };
        let next = if e < s.len() {
            e + 1
        } else {
            e
        };
        match classify_line(s, i, b, size) {
            LineForm::Bump => parse_table(s, next, size + 1),
            LineForm::Entry(it) => match parse_table(s, next, size) {
                None => None,
                Some(r) => Some(seq![it] + r),
            },
            LineForm::Blank => parse_table(s, next, size),
            LineForm::Bad => None,
        }
    }
}

#[via_fn]
proof fn parse_table_decreases(s: Seq<u8>, i: int, size: int) {
    if i < s.len() {
        lemma_line_end_bounds(s, i, s.len() as int);
    }
}

// ------------------------------------------------------------------
// Bounds of the scanning functions
// ------------------------------------------------------------------

/// `line_end` stays within `[i, end]` and stops at a newline.
pub proof fn lemma_line_end_bounds(s: Seq<u8>, i: int, end: int)
    requires
        i <= end,
    ensures
        i <= line_end(s, i, end) <= end,
        line_end(s, i, end) < end ==> s[line_end(s, i, end)] == 10,
        forall|j: int| i <= j < line_end(s, i, end) ==> s[j] != 10,
    decreases end - i,
{
    if i < end && s[i] != 10 {
        lemma_line_end_bounds(s, i + 1, end);
    }
}

/// `skip_ws` stays within `[i, end]`, skips only whitespace, and stops
/// on a non-whitespace byte.
pub proof fn lemma_skip_ws_bounds(s: Seq<u8>, i: int, end: int)
    requires
        i <= end,
    ensures
        i <= skip_ws(s, i, end) <= end,
        skip_ws(s, i, end) < end ==> !is_ws(s[skip_ws(s, i, end)]),
        forall|j: int| i <= j < skip_ws(s, i, end) ==> is_ws(s[j]),
    decreases end - i,
{
    if i < end && is_ws(s[i]) {
        lemma_skip_ws_bounds(s, i + 1, end);
    }
}

/// `token_end` stays within `[i, end]`, passes only non-whitespace,
/// and stops on whitespace.
pub proof fn lemma_token_end_bounds(s: Seq<u8>, i: int, end: int)
    requires
        i <= end,
    ensures
        i <= token_end(s, i, end) <= end,
        token_end(s, i, end) < end ==> is_ws(s[token_end(s, i, end)]),
        forall|j: int| i <= j < token_end(s, i, end) ==> !is_ws(s[j]),
        i < end && !is_ws(s[i]) ==> token_end(s, i, end) > i,
    decreases end - i,
{
    if i < end && !is_ws(s[i]) {
        lemma_token_end_bounds(s, i + 1, end);
    }
}

/// `all_digits` says that every byte of the range is a digit.
pub proof fn lemma_all_digits_char(s: Seq<u8>, i: int, end: int)
    ensures
        all_digits(s, i, end) <==> forall|j: int| i <= j < end ==> is_digit_byte(#[trigger] s[j]),
    decreases end - i,
{
    if i < end {
        lemma_all_digits_char(s, i + 1, end);
    }
}

/// The value of a digit run is non-negative.
pub proof fn lemma_digits_value_nonneg(s: Seq<u8>, i: int, end: int)
    requires
        forall|j: int| i <= j < end ==> is_digit_byte(#[trigger] s[j]),
    ensures
        digits_value(s, i, end) >= 0,
    decreases end - i,
{
    if end > i {
        lemma_digits_value_nonneg(s, i, end - 1);
    }
}

/// The value of a digit run only grows as digits are appended.
pub proof fn lemma_digits_value_monotone(s: Seq<u8>, i: int, k: int, end: int)
    requires
        i <= k <= end,
        forall|j: int| i <= j < end ==> is_digit_byte(#[trigger] s[j]),
    ensures
        digits_value(s, i, k) <= digits_value(s, i, end),
    decreases end - k,
{
    if k < end {
        lemma_digits_value_monotone(s, i, k, end - 1);
        lemma_digits_value_nonneg(s, i, end - 1);
    }
}

// ------------------------------------------------------------------
// The executable parser
// ------------------------------------------------------------------

/// Position of the first newline at or after `i`.
fn find_line_end(data: &[u8], i: usize) -> (r: usize)
    requires
        i <= data@.len(),
    ensures
        r == line_end(data@, i as int, data@.len() as int),
        i <= r <= data@.len(),
{
    let n = data.len();
    let mut cur = i;
    while cur < n
        invariant
            i <= cur <= n,
            n == data@.len(),
            line_end(data@, i as int, n as int) == line_end(data@, cur as int, n as int),
        decreases n - cur,
    {
        if data[cur] == 10 {
            return cur;
        }
        cur = cur + 1;
    }
    cur
}

/// Position of the first non-whitespace byte of `data[i..b)`.
fn skip_ws_exec(data: &[u8], i: usize, b: usize) -> (r: usize)
    requires
        i <= b <= data@.len(),
    ensures
        r == skip_ws(data@, i as int, b as int),
        i <= r <= b,
{
    let mut cur = i;
    while cur < b
        invariant
            i <= cur <= b,
            b <= data@.len(),
            skip_ws(data@, i as int, b as int) == skip_ws(data@, cur as int, b as int),
        decreases b - cur,
    {
        let c = data[cur];
        if !(c == 32 || c == 9 || c == 13) {
            return cur;
        }
        cur = cur + 1;
    }
    cur
}

/// Position of the first whitespace byte of `data[i..b)`.
fn token_end_exec(data: &[u8], i: usize, b: usize) -> (r: usize)
    requires
        i <= b <= data@.len(),
    ensures
        r == token_end(data@, i as int, b as int),
        i <= r <= b,
{
    let mut cur = i;
    while cur < b
        invariant
            i <= cur <= b,
            b <= data@.len(),
            token_end(data@, i as int, b as int) == token_end(data@, cur as int, b as int),
        decreases b - cur,
    {
        let c = data[cur];
        if c == 32 || c == 9 || c == 13 {
            return cur;
        }
        cur = cur + 1;
    }
    cur
}

/// The digits of the token `data[i..e)`, with other bytes stripped.
fn digits_exec(data: &[u8], i: usize, e: usize) -> (r: Vec<u32>)
    requires
        i <= e <= data@.len(),
    ensures
        r@ == digits_of(data@, i as int, e as int),
{
    let mut out: Vec<u32> = Vec::new();
    let mut cur = i;
    while cur < e
        invariant
            i <= cur <= e,
            e <= data@.len(),
            digits_of(data@, i as int, e as int) == out@ + digits_of(
                data@,
                cur as int,
                e as int,
            ),
        decreases e - cur,
    {
        let c = data[cur];
        let ghost pre = out@;
        if 48 <= c && c <= 57 {
            out.push((c - 48) as u32);
            proof {
                assert(out@ =~= pre + seq![(c - 48) as u32]);
                assert(pre + (seq![(c - 48) as u32] + digits_of(data@, cur + 1, e as int)) =~= out@
                    + digits_of(data@, cur + 1, e as int));
            }
        }
        cur = cur + 1;
    }
    proof {
        assert(digits_of(data@, i as int, e as int) =~= out@);
    }
    out
}

/// The integer written by the token `data[a..b)`, where it exists and
/// fits an `i32`.
fn parse_sum_token(data: &[u8], a: usize, b: usize) -> (r: Option<i32>)
    requires
        a <= b <= data@.len(),
    ensures
        match r {
            Some(v) => sum_value_i32(data@, a as int, b as int) == Some(v as int),
            None => sum_value_i32(data@, a as int, b as int) is None,
        },
{
    if a >= b {
        return None;
    }
    let neg = data[a] == 45;
    let d0 = if neg {
        a + 1
    } else {
        a
    };
    if d0 >= b {
        return None;
    }
    let mut mag: i64 = 0;
    let mut cur = d0;
    while cur < b
        invariant
            d0 <= cur <= b,
            b <= data@.len(),
            forall|j: int| d0 <= j < cur ==> is_digit_byte(#[trigger] data@[j]),
            mag == digits_value(data@, d0 as int, cur as int),
            0 <= mag <= 2147483648,
        decreases b - cur,
    {
        let c = data[cur];
        if !(48 <= c && c <= 57) {
            proof {
                lemma_all_digits_char(data@, d0 as int, b as int);
            }
            return None;
        }
        mag = mag * 10 + ((c - 48) as i64);
        cur = cur + 1;
        if mag > 2147483648 {
            proof {
                let bb = b as int;
                let dd = d0 as int;
                lemma_all_digits_char(data@, dd, bb);
                if all_digits(data@, dd, bb) {
                    lemma_digits_value_monotone(data@, dd, cur as int, bb);
                }
            }
            return None;
        }
    }
    proof {
        lemma_all_digits_char(data@, d0 as int, b as int);
    }
    if neg {
        let v64: i64 = -mag;
        if v64 < -2147483648i64 {
            return None;
        }
        Some(v64 as i32)
    } else {
        if mag > 2147483647i64 {
            return None;
        }
        Some(mag as i32)
    }
}

/// Whether `data[a..b)` ends with the letters "cells".
fn ends_with_cells_exec(data: &[u8], a: usize, b: usize) -> (r: bool)
    requires
        a <= b <= data@.len(),
    ensures
        r == ends_with_cells(data@, a as int, b as int),
{
    if b - a < 5 {
        return false;
    }
    data[b - 5] == 99 && data[b - 4] == 101 && data[b - 3] == 108 && data[b - 2] == 108 && data[b
        - 1] == 115
}

/// Whether `data[a..b)` holds a colon.
fn contains_colon_exec(data: &[u8], a: usize, b: usize) -> (r: bool)
    requires
        a <= b <= data@.len(),
    ensures
        r == contains_colon(data@, a as int, b as int),
{
    let mut cur = a;
    while cur < b
        invariant
            a <= cur <= b,
            b <= data@.len(),
            forall|j: int| a <= j < cur ==> data@[j] != 58,
        decreases b - cur,
    {
        if data[cur] == 58 {
            return true;
        }
        cur = cur + 1;
    }
    false
}

/// The combinations written in `data[i..b)`, or `None` when some token
/// holds no digit.
fn parse_combos_exec(data: &[u8], i: usize, b: usize) -> (r: Option<Vec<Vec<u32>>>)
    requires
        i <= b <= data@.len(),
    ensures
        match r {
            Some(cs) => parse_combos(data@, i as int, b as int) == Some(
                cs@.map_values(|v: Vec<u32>| v@),
            ),
            None => parse_combos(data@, i as int, b as int) is None,
        },
{
    let mut out: Vec<Vec<u32>> = Vec::new();
    let mut cur = i;
    while cur < b
        invariant
            i <= cur <= b,
            b <= data@.len(),
            match parse_combos(data@, cur as int, b as int) {
                Some(rest) => parse_combos(data@, i as int, b as int) == Some(
                    out@.map_values(|v: Vec<u32>| v@) + rest,
                ),
                None => parse_combos(data@, i as int, b as int) is None,
            },
        decreases b - cur,
    {
        let c = data[cur];
        if c == 32 || c == 9 || c == 13 {
            cur = cur + 1;
        } else {
            let e = token_end_exec(data, cur, b);
            proof {
                lemma_token_end_bounds(data@, cur as int, b as int);
            }
            let combo = digits_exec(data, cur, e);
            if combo.len() == 0 {
                return None;
            }
            let ghost pre = out@.map_values(|v: Vec<u32>| v@);
            let ghost cv = combo@;
            out.push(combo);
            proof {
                assert(out@.map_values(|v: Vec<u32>| v@) =~= pre + seq![cv]);
                if parse_combos(data@, e as int, b as int) is Some {
                    let rest = parse_combos(data@, e as int, b as int)->Some_0;
                    assert(pre + (seq![cv] + rest) =~= (pre + seq![cv]) + rest);
                }
            }
            cur = e;
        }
    }
    proof {
        assert(parse_combos(data@, i as int, b as int) == Some(
            out@.map_values(|v: Vec<u32>| v@) + Seq::<Seq<u32>>::empty(),
        ));
        assert(out@.map_values(|v: Vec<u32>| v@) + Seq::<Seq<u32>>::empty() =~= out@.map_values(
            |v: Vec<u32>| v@,
        ));
    }
    Some(out)
}

/// The entry written on the line `data[a..b)` for cage size `size`.
fn parse_entry_exec(data: &[u8], a: usize, b: usize, size: usize) -> (r: Option<TableItem>)
    requires
        a <= b <= data@.len(),
        size <= 2147483647,
    ensures
        match r {
            Some(item) => parse_entry(data@, a as int, b as int, size as int) == LineForm::Entry(
                item@,
            ),
            None => parse_entry(data@, a as int, b as int, size as int) == LineForm::Bad,
        },
{
    let t0 = skip_ws_exec(data, a, b);
    if t0 >= b {
        return None;
    }
    let t1 = token_end_exec(data, t0, b);
    proof {
        lemma_skip_ws_bounds(data@, a as int, b as int);
        lemma_token_end_bounds(data@, t0 as int, b as int);
    }
    let sum = match parse_sum_token(data, t0, t1 - 1) {
        None => {
            return None;
        },
        Some(v) => v,
    };
    match parse_combos_exec(data, t1, b) {
        None => None,
        Some(cs) => Some(TableItem { cage_size: size as i32, cage_sum: sum, combinations: cs }),
    }
}

// ------------------------------------------------------------------
// Lookup, and what a complete table promises
// ------------------------------------------------------------------

/// First entry for the given cage size and sum at or after index `k`.
pub open spec fn find_from(t: Seq<TableItemView>, size: int, sum: int, k: int) -> Option<
    TableItemView,
>
    decreases t.len() - k,
{
    if k < 0 || k >= t.len() {
        None
    } else if t[k].size == size && t[k].sum == sum {
        Some(t[k])
    } else {
        find_from(t, size, sum, k + 1)
    }
}

/// What `find` returns is an entry of the table, for that size and
/// sum; and where it returns nothing, no entry matches.
pub proof fn lemma_find_from_entry(t: Seq<TableItemView>, size: int, sum: int, k: int)
    requires
        k >= 0,
    ensures
        match find_from(t, size, sum, k) {
            Some(e) => exists|j: int|
                k <= j < t.len() && #[trigger] t[j] == e && e.size == size && e.sum == sum,
            None => forall|j: int|
                k <= j < t.len() ==> !(#[trigger] t[j].size == size && t[j].sum == sum),
        },
    decreases t.len() - k,
{
    if 0 <= k < t.len() && !(t[k].size == size && t[k].sum == sum) {
        lemma_find_from_entry(t, size, sum, k + 1);
    } else if 0 <= k < t.len() {
        assert(t[k] == find_from(t, size, sum, k)->Some_0);
    }
}

/// A combination valid for a cage of the given size and target sum:
/// that many distinct digits 1..9 adding up to the target.
pub open spec fn valid_combo(q: Seq<int>, size: int, sum: int) -> bool {
    &&& q.len() == size
    &&& q.no_duplicates()
    &&& forall|m: int| 0 <= m < q.len() ==> 1 <= #[trigger] q[m] <= 9
    &&& sum_upto(q, q.len() as int) == sum
}

/// Digit `d` appears somewhere among the entry's combinations.
pub open spec fn digit_in_entry(e: TableItemView, d: int) -> bool {
    exists|a: int, b: int|
        0 <= a < e.combos.len() && 0 <= b < e.combos[a].len() && e.combos[a][b] as int == d
}

/// Digit `d` appears in the entry strictly before position (`a`, `b`)
/// of its combinations.
pub open spec fn appears_before(e: TableItemView, d: int, a: int, b: int) -> bool {
    exists|a2: int, b2: int|
        0 <= a2 < e.combos.len() && 0 <= b2 < e.combos[a2].len() && (a2 < a || (a2 == a && b2 < b))
            && e.combos[a2][b2] as int == d
}

/// A complete table: every entry lists each digit that takes part in
/// some valid combination for the entry's cage size and target sum.
/// The table distributed with the combination data has this property;
/// the pruning search strategy is exhaustive exactly on such tables.
pub open spec fn table_complete(t: Seq<TableItemView>) -> bool {
    forall|k: int, d: int|
        0 <= k < t.len() && (exists|q: Seq<int>|
            valid_combo(q, t[k].size, t[k].sum) && q.contains(d)) ==> #[trigger] digit_in_entry(
            t[k],
            d,
        )
}

impl TableItem {
    /// An equal copy of this entry.
    fn duplicate(&self) -> (r: TableItem)
        ensures
            r@ == self@,
    {
        let mut combos: Vec<Vec<u32>> = Vec::new();
        let mut i: usize = 0;
        while i < self.combinations.len()
            invariant
                i <= self.combinations.len(),
                combos@.len() == i,
                forall|k: int| 0 <= k < i ==> #[trigger] combos@[k]@ == self.combinations@[k]@,
            decreases self.combinations.len() - i,
        {
            let src = &self.combinations[i];
            let mut one: Vec<u32> = Vec::new();
            let mut j: usize = 0;
            while j < src.len()
                invariant
                    j <= src.len(),
                    one@ =~= src@.take(j as int),
                decreases src.len() - j,
            {
                one.push(src[j]);
                j = j + 1;
                proof {
                    assert(one@ =~= src@.take(j as int));
                }
            }
            proof {
                assert(one@ =~= src@);
            }
            combos.push(one);
            i = i + 1;
        }
        let r = TableItem {
            cage_size: self.cage_size,
            cage_sum: self.cage_sum,
            combinations: combos,
        };
        proof {
            assert(r@.combos =~= self@.combos);
        }
        r
    }
}

impl CageTable {
    /// Exact-match lookup: the first entry for the given cage size and
    /// target sum, or `None` when no entry exists for that pair. A
    /// missing pair is an expected outcome, not a failure: a caller
    /// pruning a search falls back to plain digit enumeration.
    pub fn find(&mut self, size: i32, sum: i32) -> (r: Option<TableItem>)
        ensures
            *final(self) == *old(self),
            match r {
                Some(item) => find_from(old(self)@, size as int, sum as int, 0) == Some(item@),
                None => find_from(old(self)@, size as int, sum as int, 0) is None,
            },
    {
        let n = self.0.len();
        let mut k: usize = 0;
        while k < n
            invariant
                k <= n,
                n == self.0@.len(),
                find_from(self@, size as int, sum as int, 0) == find_from(
                    self@,
                    size as int,
                    sum as int,
                    k as int,
                ),
            decreases n - k,
        {
            let item = &self.0[k];
            if item.cage_size == size && item.cage_sum == sum {
                let r = item.duplicate();
                return Some(r);
            }
            k = k + 1;
        }
        None
    }

    /// Parses the combination data. Returns the table when every line
    /// follows the format, and a `FormatError` otherwise, in which
    /// case no partial table is produced.
    pub fn parse(data: &[u8]) -> (r: Result<CageTable, FormatError>)
        requires
            data@.len() < 2147483647,
        ensures
            match r {
                Ok(t) => parse_table(data@, 0, 0) == Some(t@),
                Err(_) => parse_table(data@, 0, 0) is None,
            },
    {
        let n = data.len();
        let mut items: Vec<TableItem> = Vec::new();
        let mut size: usize = 0;
        let mut pos: usize = 0;
        while pos < n
            invariant
                pos <= n,
                n == data@.len(),
                n < 2147483647,
                5 * size <= pos,
                match parse_table(data@, pos as int, size as int) {
                    Some(rest) => parse_table(data@, 0, 0) == Some(
                        items@.map_values(|it: TableItem| it@) + rest,
                    ),
                    None => parse_table(data@, 0, 0) is None,
                },
            decreases n - pos,
        {
            let e = find_line_end(data, pos);
            proof {
                lemma_line_end_bounds(data@, pos as int, n as int);
            }
            let b = if e > pos && data[e - 1] == 13 {
                e - 1
            } else {
                e
            };
            let next = if e < n {
                e + 1
            } else {
                e
            };
            if ends_with_cells_exec(data, pos, b) {
                size = size + 1;
                pos = next;
            } else if contains_colon_exec(data, pos, b) {
                match parse_entry_exec(data, pos, b, size) {
                    None => {
                        return Err(FormatError);
                    },
                    Some(item) => {
                        let ghost pre = items@.map_values(|it: TableItem| it@);
                        let ghost iv = item@;
                        items.push(item);
                        proof {
                            assert(items@.map_values(|it: TableItem| it@) =~= pre + seq![iv]);
                            if parse_table(data@, next as int, size as int) is Some {
                                let rest = parse_table(data@, next as int, size as int)->Some_0;
                                assert(pre + (seq![iv] + rest) =~= (pre + seq![iv]) + rest);
                            }
                        }
                        pos = next;
                    },
                }
            } else {
                pos = next;
            }
        }
        proof {
            assert(items@.map_values(|it: TableItem| it@) + Seq::<TableItemView>::empty()
                =~= items@.map_values(|it: TableItem| it@));
        }
        Ok(CageTable(items))
    }
}

} // verus!
