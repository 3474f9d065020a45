//! The hourly series that a page's script seeds its charts with.

use vstd::prelude::*;
use vstd::slice::{slice_subrange, slice_to_vec};

use crate::number::{float_literal_at, is_float_literal};
use crate::text::{chars_of, string_of_range};

verus! {

/// The opening of a chart-seeding call: `addRows([`.
pub open spec fn call_open() -> Seq<char> {
    seq!['a', 'd', 'd', 'R', 'o', 'w', 's', '(', '[']
}

/// The closing of a chart-seeding call: `]);`.
pub open spec fn call_close() -> Seq<char> {
    seq![']', ')', ';']
}

/// What stands between two rows of a call's payload: `],[`.
pub open spec fn row_separator() -> Seq<char> {
    seq![']', ',', '[']
}

/// Whether `w` occurs in `s` at `i`.
pub open spec fn occurs_at(s: Seq<char>, w: Seq<char>, i: int) -> bool {
    0 <= i && i + w.len() <= s.len() && s.subrange(i, i + w.len()) == w
}

/// The first index at or after `j` at which a call closes, or -1.
pub open spec fn next_call_close(s: Seq<char>, j: int) -> int
    decreases s.len() - j,
{
    if j < 0 || j + 3 > s.len() {
        -1
    } else if occurs_at(s, call_close(), j) {
        j
    } else {
        next_call_close(s, j + 1)
    }
}

/// Where the call that opens at `i` closes: the first `]);` after its
/// opening. Negative where none follows.
pub open spec fn call_end(s: Seq<char>, i: int) -> int {
    next_call_close(s, i + 9)
}

/// The payloads of the calls in `s` from `i` on, leftmost first, each call
/// scanned past before the next is looked for. What lies between calls plays
/// no part.
pub open spec fn payloads_from(s: Seq<char>, i: int) -> Seq<Seq<char>>
    decreases s.len() - i,
{
    if i < 0 || i >= s.len() {
        Seq::empty()
    } else if occurs_at(s, call_open(), i) && i + 9 <= call_end(s, i) && call_end(s, i) + 3
        <= s.len() {
        seq![s.subrange(i + 9, call_end(s, i))] + payloads_from(s, call_end(s, i) + 3)
    } else {
        payloads_from(s, i + 1)
    }
}

/// The pieces of `s` from `start` on, cut at each `sep` found at or after `i`.
pub open spec fn split_from(s: Seq<char>, sep: Seq<char>, start: int, i: int) -> Seq<Seq<char>>
    decreases s.len() - i,
{
    if sep.len() == 0 || i < 0 || i + sep.len() > s.len() {
        seq![s.subrange(start, s.len() as int)]
    } else if occurs_at(s, sep, i) {
        seq![s.subrange(start, i)] + split_from(s, sep, i + sep.len(), i + sep.len())
    } else {
        split_from(s, sep, start, i + 1)
    }
}

/// The pieces of `s` between the occurrences of `sep`, as `str::split` cuts
/// them: there is always one more piece than there are occurrences.
pub open spec fn pieces(s: Seq<char>, sep: Seq<char>) -> Seq<Seq<char>> {
    split_from(s, sep, 0, 0)
}

/// The first of `tokens` that is a number literal.
pub open spec fn first_number(tokens: Seq<Seq<char>>) -> Option<Seq<char>>
    decreases tokens.len(),
{
    if tokens.len() == 0 {
        None
    } else if is_float_literal(tokens[0]) {
        Some(tokens[0])
    } else {
        first_number(tokens.drop_first())
    }
}

/// The reading of one row: its first comma-separated token that is a number,
/// or none.
pub open spec fn row_value(row: Seq<char>) -> Option<Seq<char>> {
    first_number(pieces(row, seq![',']))
}

/// The readings of a payload, one per row, in order.
pub open spec fn payload_values(payload: Seq<char>) -> Seq<Option<Seq<char>>> {
    pieces(payload, row_separator()).map_values(|row: Seq<char>| row_value(row))
}

/// The series of a script: one per call, in order of appearance.
pub open spec fn series_of(script: Seq<char>) -> Seq<Seq<Option<Seq<char>>>> {
    payloads_from(script, 0).map_values(|p: Seq<char>| payload_values(p))
}

/// The view of a reading.
pub open spec fn reading_view(r: Option<String>) -> Option<Seq<char>> {
    match r {
        Some(t) => Some(t@),
        None => None,
    }
}

/// The view of a series.
pub open spec fn readings_view(v: Seq<Option<String>>) -> Seq<Option<Seq<char>>> {
    v.map_values(|r: Option<String>| reading_view(r))
}

/// Whether `w` occurs in `cs` at `i`.
fn occurs_at_index(cs: &Vec<char>, w: &Vec<char>, i: usize) -> (r: bool)
    ensures
        r == occurs_at(cs@, w@, i as int),
{
    if i > cs.len() || w.len() > cs.len() - i {
        return false;
    }
    let mut k: usize = 0;
    while k < w.len()
        invariant
            i <= cs.len(),
            i + w@.len() <= cs@.len(),
            k <= w@.len(),
            forall|m: int| 0 <= m < k ==> cs@[i + m] == w@[m],
        decreases w@.len() - k,
    {
        if cs[i + k] != w[k] {
            assert(cs@.subrange(i as int, i + w@.len())[k as int] != w@[k as int]);
            return false;
        }
        k = k + 1;
    }
    assert(cs@.subrange(i as int, i + w@.len()) =~= w@);
    true
}

/// The bounds of the pieces of `cs` between the occurrences of `sep`.
fn split_bounds(cs: &Vec<char>, sep: &Vec<char>) -> (r: Vec<(usize, usize)>)
    requires
        sep@.len() > 0,
    ensures
        r@.len() == pieces(cs@, sep@).len(),
        forall|k: int|
            0 <= k < r@.len() ==> (#[trigger] r@[k]).0 <= r@[k].1 <= cs@.len() && pieces(
                cs@,
                sep@,
            )[k] == cs@.subrange(r@[k].0 as int, r@[k].1 as int),
{
    let n = cs.len();
    let mut r: Vec<(usize, usize)> = Vec::new();
    let mut start: usize = 0;
    let mut i: usize = 0;
    let ghost done: Seq<Seq<char>> = Seq::empty();
    loop
        invariant
            n == cs@.len(),
            sep@.len() > 0,
            start <= i <= n,
            pieces(cs@, sep@) == done + split_from(cs@, sep@, start as int, i as int),
            r@.len() == done.len(),
            forall|k: int|
                0 <= k < r@.len() ==> (#[trigger] r@[k]).0 <= r@[k].1 <= n && done[k]
                    == cs@.subrange(r@[k].0 as int, r@[k].1 as int),
        decreases n - i,
    {
        if sep.len() > n - i {
            proof {
                done = done.push(cs@.subrange(start as int, n as int));
            }
            r.push((start, n));
            assert(pieces(cs@, sep@) =~= done);
            return r;
        }
        if occurs_at_index(cs, sep, i) {
            proof {
                done = done.push(cs@.subrange(start as int, i as int));
            }
            r.push((start, i));
            i = i + sep.len();
            start = i;
        } else {
            i = i + 1;
        }
    }
}

/// The characters `cs[lo..hi]`.
fn copy_range(cs: &Vec<char>, lo: usize, hi: usize) -> (r: Vec<char>)
    requires
        lo <= hi <= cs@.len(),
    ensures
        r@ == cs@.subrange(lo as int, hi as int),
{
    slice_to_vec(slice_subrange(cs.as_slice(), lo, hi))
}

/// The reading of one row: the first comma-separated token that is a number.
fn decode_row(row: &Vec<char>) -> (r: Option<String>)
    ensures
        reading_view(r) == row_value(row@),
{
    let comma = vec![','];
    assert(comma@ =~= seq![',']);
    let bounds = split_bounds(row, &comma);
    let ghost tokens = pieces(row@, seq![',']);
    assert(tokens.subrange(0, tokens.len() as int) =~= tokens);
    let mut k: usize = 0;
    while k < bounds.len()
        invariant
            tokens == pieces(row@, seq![',']),
            bounds@.len() == tokens.len(),
            forall|m: int|
                0 <= m < bounds@.len() ==> (#[trigger] bounds@[m]).0 <= bounds@[m].1 <= row@.len()
                    && tokens[m] == row@.subrange(bounds@[m].0 as int, bounds@[m].1 as int),
            k <= bounds@.len(),
            first_number(tokens) == first_number(tokens.subrange(k as int, tokens.len() as int)),
        decreases bounds@.len() - k,
    {
        let (a, b) = bounds[k];
        assert(tokens[k as int] == row@.subrange(a as int, b as int));
        assert(tokens.subrange(k as int, tokens.len() as int)[0] == tokens[k as int]);
        if float_literal_at(row, a, b) {
            return Some(string_of_range(row, a, b));
        }
        assert(tokens.subrange(k as int, tokens.len() as int).drop_first() =~= tokens.subrange(
            k + 1,
            tokens.len() as int,
        ));
        k = k + 1;
    }
    None
}

/// The readings of a call's payload, one per row in order.
pub fn decode_payload(payload: &str) -> (r: Vec<Option<String>>)
    ensures
        readings_view(r@) == payload_values(payload@),
{
    let cs = chars_of(payload);
    decode_payload_chars(&cs)
}

fn decode_payload_chars(cs: &Vec<char>) -> (r: Vec<Option<String>>)
    ensures
        readings_view(r@) == payload_values(cs@),
{
    let sep = vec![']', ',', '['];
    assert(sep@ =~= row_separator());
    let bounds = split_bounds(cs, &sep);
    let ghost rows = pieces(cs@, sep@);
    let mut r: Vec<Option<String>> = Vec::new();
    let mut k: usize = 0;
    while k < bounds.len()
        invariant
            rows == pieces(cs@, row_separator()),
            bounds@.len() == rows.len(),
            forall|m: int|
                0 <= m < bounds@.len() ==> (#[trigger] bounds@[m]).0 <= bounds@[m].1 <= cs@.len()
                    && rows[m] == cs@.subrange(bounds@[m].0 as int, bounds@[m].1 as int),
            k <= bounds@.len(),
            readings_view(r@) == rows.subrange(0, k as int).map_values(
                |row: Seq<char>| row_value(row),
            ),
        decreases bounds@.len() - k,
    {
        let (a, b) = bounds[k];
        assert(rows[k as int] == cs@.subrange(a as int, b as int));
        let row = copy_range(cs, a, b);
        let v = decode_row(&row);
        let ghost before = r@;
        r.push(v);
        assert(readings_view(r@) =~= readings_view(before).push(reading_view(v)));
        assert(rows.subrange(0, k + 1).map_values(|row: Seq<char>| row_value(row)) =~= rows.subrange(
            0,
            k as int,
        ).map_values(|row: Seq<char>| row_value(row)).push(row_value(rows[k as int])));
        k = k + 1;
    }
    assert(rows.subrange(0, k as int) =~= rows);
    r
}

/// The view of the series of several calls.
pub open spec fn series_view(v: Seq<Vec<Option<String>>>) -> Seq<Seq<Option<Seq<char>>>> {
    v.map_values(|x: Vec<Option<String>>| readings_view(x@))
}

/// The first `]);` at or after `from`.
fn find_call_close(cs: &Vec<char>, close: &Vec<char>, from: usize) -> (r: Option<usize>)
    requires
        from <= cs@.len(),
        close@ == call_close(),
    ensures
        match r {
            Some(j) => j as int == next_call_close(cs@, from as int) && from <= j && j + 3
                <= cs@.len(),
            None => next_call_close(cs@, from as int) == -1,
        },
{
    let mut k: usize = from;
    while k < cs.len() && cs.len() - k >= 3
        invariant
            from <= k <= cs@.len(),
            close@ == call_close(),
            next_call_close(cs@, from as int) == next_call_close(cs@, k as int),
        decreases cs@.len() - k,
    {
        if occurs_at_index(cs, close, k) {
            return Some(k);
        }
        k = k + 1;
    }
    None
}

/// Decodes the chart-seeding calls of a script (`addRows([[...],[...]]);`):
/// one series per call, in order of appearance, with one reading per row of
/// the call's payload, which runs from `addRows([` to the first `]);` after it. A row's reading is its first comma-separated token that
/// is a number literal; a row without one reads as none, and its neighbours are
/// unaffected. Rows are neither dropped nor padded.
pub fn decode_series(script: &str) -> (r: Vec<Vec<Option<String>>>)
    ensures
        series_view(r@) == series_of(script@),
{
    let cs = chars_of(script);
    let n = cs.len();
    let open = vec!['a', 'd', 'd', 'R', 'o', 'w', 's', '(', '['];
    let close = vec![']', ')', ';'];
    assert(open@ =~= call_open());
    assert(close@ =~= call_close());
    let mut r: Vec<Vec<Option<String>>> = Vec::new();
    let ghost done: Seq<Seq<char>> = Seq::empty();
    let mut i: usize = 0;
    while i < n
        invariant
            n == cs@.len(),
            cs@ == script@,
            open@ == call_open(),
            close@ == call_close(),
            i <= n,
            payloads_from(cs@, 0) == done + payloads_from(cs@, i as int),
            series_view(r@) == done.map_values(|p: Seq<char>| payload_values(p)),
        decreases n - i,
    {
        if occurs_at_index(&cs, &open, i) {
            match find_call_close(&cs, &close, i + 9) {
                Some(j) => {
                    let payload = copy_range(&cs, i + 9, j);
                    let values = decode_payload_chars(&payload);
                    let ghost before = r@;
                    r.push(values);
                    proof {
                        assert(series_view(r@) =~= series_view(before).push(
                            readings_view(values@),
                        ));
                        assert(done.push(payload@).map_values(|p: Seq<char>| payload_values(p))
                            =~= done.map_values(|p: Seq<char>| payload_values(p)).push(
                            payload_values(payload@),
                        ));
                        assert(done + payloads_from(cs@, i as int) =~= done.push(payload@)
                            + payloads_from(cs@, j + 3));
                        done = done.push(payload@);
                    }
                    i = j + 3;
                    continue ;
                },
                None => {},
            }
        }
        i = i + 1;
    }
    assert(done + payloads_from(cs@, n as int) =~= done);
    r
}

/// Rows written out as a payload, `],[` between each two.
pub open spec fn join_rows(rows: Seq<Seq<char>>) -> Seq<char>
    decreases rows.len(),
{
    if rows.len() == 0 {
        Seq::empty()
    } else if rows.len() == 1 {
        rows[0]
    } else {
        rows[0] + row_separator() + join_rows(rows.drop_first())
    }
}

/// Whether `row` holds a row separator.
pub open spec fn holds_separator(row: Seq<char>) -> bool {
    exists|i: int| occurs_at(row, row_separator(), i)
}

/// Within a row that holds no separator, and that is followed by a separator
/// or by the end, the split finds nothing to cut before the row's end.
proof fn lemma_split_passes_row(s: Seq<char>, start: int, end: int, i: int)
    requires
        0 <= start <= i <= end <= s.len(),
        !holds_separator(s.subrange(start, end)),
        end == s.len() || occurs_at(s, row_separator(), end),
    ensures
        split_from(s, row_separator(), start, i) == split_from(s, row_separator(), start, end),
    decreases end - i,
{
    let sep = row_separator();
    if i < end && i + 3 <= s.len() {
        if i + 3 <= end {
            if occurs_at(s, sep, i) {
                assert(s.subrange(start, end).subrange(i - start, i - start + 3) =~= s.subrange(
                    i,
                    i + 3,
                ));
                assert(occurs_at(s.subrange(start, end), sep, i - start));
            }
        } else {
            assert(s.subrange(end, end + 3)[0] == s[end]);
            assert(s.subrange(i, i + 3)[end - i] == s[end]);
        }
        lemma_split_passes_row(s, start, end, i + 1);
    }
}

proof fn lemma_split_joined(s: Seq<char>, start: int, rows: Seq<Seq<char>>)
    requires
        rows.len() >= 1,
        0 <= start <= s.len(),
        s.subrange(start, s.len() as int) == join_rows(rows),
        forall|k: int| 0 <= k < rows.len() ==> !holds_separator(#[trigger] rows[k]),
    ensures
        split_from(s, row_separator(), start, start) == rows,
    decreases rows.len(),
{
    let sep = row_separator();
    let end = start + rows[0].len();
    if rows.len() == 1 {
        assert(s.subrange(start, end) =~= rows[0]);
        lemma_split_passes_row(s, start, end, start);
        assert(seq![s.subrange(start, s.len() as int)] =~= rows);
    } else {
        let joined = rows[0] + sep + join_rows(rows.drop_first());
        let t = s.subrange(start, s.len() as int);
        assert(t == joined);
        let n0 = rows[0].len() as int;
        assert(s.subrange(start, end) =~= t.subrange(0, n0));
        assert(joined.subrange(0, n0) =~= rows[0]);
        assert(s.subrange(end, end + 3) =~= t.subrange(n0, n0 + 3));
        assert(joined.subrange(n0, n0 + 3) =~= sep);
        assert(s.subrange(end + 3, s.len() as int) =~= t.subrange(n0 + 3, t.len() as int));
        assert(joined.subrange(n0 + 3, joined.len() as int) =~= join_rows(rows.drop_first()));
        assert(s.subrange(start, end) =~= rows[0]);
        lemma_split_passes_row(s, start, end, start);
        let rest = rows.drop_first();
        assert forall|k: int| 0 <= k < rest.len() implies !holds_separator(#[trigger] rest[k]) by {
            assert(rest[k] == rows[k + 1]);
        }
        lemma_split_joined(s, end + 3, rest);
        assert(seq![rows[0]] + rest =~= rows);
    }
}

/// Decoding keeps the rows: a payload written from rows that hold no
/// separator decodes to one reading per row, in the same order, each reading
/// depending on its own row alone. A row with fewer or more entries than its
/// neighbours, or a payload of few rows, changes nothing of that.
pub proof fn lemma_rows_decode_in_order(rows: Seq<Seq<char>>)
    requires
        rows.len() >= 1,
        forall|k: int| 0 <= k < rows.len() ==> !holds_separator(#[trigger] rows[k]),
    ensures
        payload_values(join_rows(rows)) == rows.map_values(|row: Seq<char>| row_value(row)),
{
    let s = join_rows(rows);
    assert(s.subrange(0, s.len() as int) =~= s);
    lemma_split_joined(s, 0, rows);
}

/// A row none of whose tokens is a number reads as none.
pub proof fn lemma_row_without_number(row: Seq<char>)
    requires
        forall|k: int|
            0 <= k < pieces(row, seq![',']).len() ==> !is_float_literal(
                #[trigger] pieces(row, seq![','])[k],
            ),
    ensures
        row_value(row) is None,
{
    lemma_first_number_none(pieces(row, seq![',']));
}

proof fn lemma_first_number_none(tokens: Seq<Seq<char>>)
    requires
        forall|k: int| 0 <= k < tokens.len() ==> !is_float_literal(#[trigger] tokens[k]),
    ensures
        first_number(tokens) is None,
    decreases tokens.len(),
{
    if tokens.len() > 0 {
        let rest = tokens.drop_first();
        assert forall|k: int| 0 <= k < rest.len() implies !is_float_literal(#[trigger] rest[k]) by {
            assert(rest[k] == tokens[k + 1]);
        }
        lemma_first_number_none(rest);
    }
}

proof fn lemma_first_number_is_number(tokens: Seq<Seq<char>>)
    ensures
        first_number(tokens) matches Some(t) ==> is_float_literal(t),
    decreases tokens.len(),
{
    if tokens.len() > 0 && !is_float_literal(tokens[0]) {
        lemma_first_number_is_number(tokens.drop_first());
    }
}

/// Every reading of a script's series is a number literal: a token that is
/// not one never becomes a reading, and never becomes zero either.
pub proof fn lemma_readings_are_numbers(script: Seq<char>)
    ensures
        forall|i: int, j: int|
            0 <= i < series_of(script).len() && 0 <= j < series_of(script)[i].len() ==> (
            #[trigger] series_of(script)[i][j] matches Some(t) ==> is_float_literal(t)),
{
    assert forall|i: int, j: int|
        0 <= i < series_of(script).len() && 0 <= j < series_of(script)[i].len() implies (
    #[trigger] series_of(script)[i][j] matches Some(t) ==> is_float_literal(t)) by {
        let p = payloads_from(script, 0)[i];
        let row = pieces(p, row_separator())[j];
        lemma_first_number_is_number(pieces(row, seq![',']));
    }
}

/// Whether a call closes somewhere in `t`.
pub open spec fn holds_call_close(t: Seq<char>) -> bool {
    exists|j: int| occurs_at(t, call_close(), j)
}

/// Before the end of a payload that holds no `]);` and is followed by one, no
/// call closes.
proof fn lemma_close_passes_payload(s: Seq<char>, lo: int, end: int, j: int)
    requires
        0 <= lo <= j <= end,
        end + 3 <= s.len(),
        !holds_call_close(s.subrange(lo, end)),
        occurs_at(s, call_close(), end),
    ensures
        next_call_close(s, j) == end,
    decreases end - j,
{
    let close = call_close();
    if j < end {
        if occurs_at(s, close, j) {
            if j + 3 <= end {
                assert(s.subrange(lo, end).subrange(j - lo, j - lo + 3) =~= s.subrange(j, j + 3));
                assert(occurs_at(s.subrange(lo, end), close, j - lo));
            } else {
                assert(s.subrange(end, end + 3)[0] == s[end]);
                assert(s.subrange(j, j + 3)[end - j] == s[end]);
            }
        }
        lemma_close_passes_payload(s, lo, end, j + 1);
    } else {
        assert(s.subrange(end, end + 3) =~= close);
    }
}

/// A call written out at `i` as `addRows([`, its rows joined by `],[`, and
/// `]);` yields exactly one reading per row, in row order, each from its own
/// row; the scan then goes on right after the call. The rows hold neither a
/// row separator nor a call's closing.
pub proof fn lemma_written_call_decodes(s: Seq<char>, i: int, rows: Seq<Seq<char>>)
    requires
        0 <= i,
        rows.len() >= 1,
        forall|k: int| 0 <= k < rows.len() ==> !holds_separator(#[trigger] rows[k]),
        !holds_call_close(join_rows(rows)),
        i + 9 + join_rows(rows).len() + 3 <= s.len(),
        s.subrange(i, i + 9 + join_rows(rows).len() + 3) == call_open() + join_rows(rows)
            + call_close(),
    ensures
        payloads_from(s, i) == seq![join_rows(rows)] + payloads_from(
            s,
            i + 9 + join_rows(rows).len() + 3,
        ),
        payload_values(join_rows(rows)) == rows.map_values(|row: Seq<char>| row_value(row)),
        payload_values(join_rows(rows)).len() == rows.len(),
{
    let p = join_rows(rows);
    let n = p.len() as int;
    let end = i + 9 + n;
    let w = call_open() + p + call_close();
    assert(s.subrange(i, i + 9) =~= w.subrange(0, 9));
    assert(w.subrange(0, 9) =~= call_open());
    assert(s.subrange(i + 9, end) =~= w.subrange(9, 9 + n));
    assert(w.subrange(9, 9 + n) =~= p);
    assert(s.subrange(end, end + 3) =~= w.subrange(9 + n, 12 + n));
    assert(w.subrange(9 + n, 12 + n) =~= call_close());
    assert(occurs_at(s, call_open(), i));
    assert(occurs_at(s, call_close(), end));
    lemma_close_passes_payload(s, i + 9, end, i + 9);
    assert(call_end(s, i) == end);
    lemma_rows_decode_in_order(rows);
}

} // verus!
