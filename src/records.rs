//! What a range of the input means: its records, and the table they make.

use vstd::prelude::*;
use crate::stats::{Summary, single, combine, summary_wf, lemma_combine_wf, lemma_combine_associative, lemma_combine_commutative};
use crate::value::{value_spec, lemma_value_bounded};

verus! {

pub const NEWLINE: u8 = 10;

pub const SEMICOLON: u8 = 59;

/// Why a run fails on malformed input.
#[derive(Clone, Copy, Debug, PartialEq, Eq, Structural)]
pub enum FormatError {
    /// A record has no `;`.
    MissingDelimiter,
    /// A record's value is not of the shape `[-]d.d` or `[-]dd.d`.
    BadValue,
    /// A key is not valid UTF-8 text.
    BadKeyEncoding,
}

/// The index of the first `b` in `s` at or after `i`, or `s.len()` if none.
pub open spec fn find_from(s: Seq<u8>, b: u8, i: int) -> int
    decreases s.len() - i,
{
    if i < 0 || i >= s.len() {
        s.len() as int
    } else if s[i] == b {
        i
    } else {
        find_from(s, b, i + 1)
    }
}

pub proof fn lemma_find_from(s: Seq<u8>, b: u8, i: int)
    requires
        0 <= i <= s.len(),
    ensures
        i <= find_from(s, b, i) <= s.len(),
        find_from(s, b, i) < s.len() ==> s[find_from(s, b, i)] == b,
        forall|j: int| i <= j < find_from(s, b, i) ==> s[j] != b,
    decreases s.len() - i,
{
    if i < s.len() && s[i] != b {
        lemma_find_from(s, b, i + 1);
    }
}

pub proof fn lemma_find_before(s: Seq<u8>, b: u8, i: int, j: int)
    requires
        0 <= i <= j < s.len(),
        s[j] == b,
    ensures
        find_from(s, b, i) <= j,
    decreases j - i,
{
    if s[i] != b {
        lemma_find_before(s, b, i + 1, j);
    }
}

pub proof fn lemma_find_monotone(s: Seq<u8>, b: u8, i: int, j: int)
    requires
        0 <= i <= j <= s.len(),
    ensures
        find_from(s, b, i) <= find_from(s, b, j),
    decreases j - i,
{
    lemma_find_from(s, b, j);
    if i < j && s[i] != b {
        lemma_find_monotone(s, b, i + 1, j);
    }
}

/// The key and reading, in tenths, of one record line `key;value`.
pub open spec fn record_spec(line: Seq<u8>) -> Result<(Seq<u8>, int), FormatError> {
    let d = find_from(line, SEMICOLON, 0);
    if d >= line.len() {
        Err(FormatError::MissingDelimiter)
    } else {
        match value_spec(line.subrange(d + 1, line.len() as int)) {
            Some(v) => Ok((line.subrange(0, d), v)),
            None => Err(FormatError::BadValue),
        }
    }
}

/// Where the record that starts at `pos` ends: its newline, or the end of the buffer.
pub open spec fn line_end(buf: Seq<u8>, pos: int) -> int {
    find_from(buf, NEWLINE, pos)
}

/// Where the record after the one that starts at `pos` starts.
pub open spec fn next_start(buf: Seq<u8>, pos: int) -> int {
    if line_end(buf, pos) < buf.len() {
        line_end(buf, pos) + 1
    } else {
        buf.len() as int
    }
}

/// `m` with one more reading `v` for key `k`.
pub open spec fn add_reading(m: Map<Seq<u8>, Summary>, k: Seq<u8>, v: int) -> Map<Seq<u8>, Summary> {
    if m.contains_key(k) {
        m.insert(k, combine(m[k], single(v)))
    } else {
        m.insert(k, single(v))
    }
}

/// Adds to `acc` the records whose first byte lies in `[pos, end)`, in order,
/// and fails with the error of the first malformed one.
pub open spec fn scan(buf: Seq<u8>, pos: int, end: int, acc: Map<Seq<u8>, Summary>) -> Result<
    Map<Seq<u8>, Summary>,
    FormatError,
>
    decreases buf.len() - pos,
    via scan_decreases
{
    if pos < 0 || pos >= end || pos >= buf.len() {
        Ok(acc)
    } else {
        match record_spec(buf.subrange(pos, line_end(buf, pos))) {
            Err(e) => Err(e),
            Ok(r) => scan(buf, next_start(buf, pos), end, add_reading(acc, r.0, r.1)),
        }
    }
}

#[via_fn]
proof fn scan_decreases(buf: Seq<u8>, pos: int, end: int, acc: Map<Seq<u8>, Summary>) {
    if !(pos < 0 || pos >= end || pos >= buf.len()) {
        lemma_find_from(buf, NEWLINE, pos);
    }
}

/// The table of the records whose first byte lies in `[start, end)`.
pub open spec fn range_table(buf: Seq<u8>, start: int, end: int) -> Result<
    Map<Seq<u8>, Summary>,
    FormatError,
> {
    scan(buf, start, end, Map::empty())
}

/// The union of two tables, combining the entries of keys that both hold.
pub open spec fn merge_maps(a: Map<Seq<u8>, Summary>, b: Map<Seq<u8>, Summary>) -> Map<
    Seq<u8>,
    Summary,
> {
    Map::new(
        |k: Seq<u8>| a.contains_key(k) || b.contains_key(k),
        |k: Seq<u8>|
            if a.contains_key(k) && b.contains_key(k) {
                combine(a[k], b[k])
            } else if a.contains_key(k) {
                a[k]
            } else {
                b[k]
            },
    )
}

/// Each entry is well formed and holds at most `n` readings.
pub open spec fn bounded(m: Map<Seq<u8>, Summary>, n: int) -> bool {
    forall|k: Seq<u8>| #[trigger] m.contains_key(k) ==> summary_wf(m[k]) && m[k].count <= n
}

/// Merging tables gives the same table in either order.
pub proof fn lemma_merge_commutative(a: Map<Seq<u8>, Summary>, b: Map<Seq<u8>, Summary>)
    ensures
        merge_maps(a, b) == merge_maps(b, a),
{
    assert forall|k: Seq<u8>| #[trigger] merge_maps(a, b).contains_key(k) implies merge_maps(a, b)[k]
        == merge_maps(b, a)[k] by {
        if a.contains_key(k) && b.contains_key(k) {
            lemma_combine_commutative(a[k], b[k]);
        }
    }
    assert(merge_maps(a, b) =~= merge_maps(b, a));
}

/// Merging tables gives the same table in any grouping.
pub proof fn lemma_merge_associative(
    a: Map<Seq<u8>, Summary>,
    b: Map<Seq<u8>, Summary>,
    c: Map<Seq<u8>, Summary>,
)
    ensures
        merge_maps(merge_maps(a, b), c) == merge_maps(a, merge_maps(b, c)),
{
    assert forall|k: Seq<u8>| #[trigger] merge_maps(merge_maps(a, b), c).contains_key(k) implies merge_maps(
        merge_maps(a, b),
        c,
    )[k] == merge_maps(a, merge_maps(b, c))[k] by {
        if a.contains_key(k) && b.contains_key(k) && c.contains_key(k) {
            lemma_combine_associative(a[k], b[k], c[k]);
        }
    }
    assert(merge_maps(merge_maps(a, b), c) =~= merge_maps(a, merge_maps(b, c)));
}

pub proof fn lemma_merge_empty(a: Map<Seq<u8>, Summary>)
    ensures
        merge_maps(a, Map::empty()) == a,
{
    assert(merge_maps(a, Map::empty()) =~= a);
}

proof fn lemma_add_merge(acc: Map<Seq<u8>, Summary>, m: Map<Seq<u8>, Summary>, k: Seq<u8>, v: int)
    ensures
        add_reading(merge_maps(acc, m), k, v) == merge_maps(acc, add_reading(m, k, v)),
{
    if acc.contains_key(k) && m.contains_key(k) {
        lemma_combine_associative(acc[k], m[k], single(v));
    }
    assert(add_reading(merge_maps(acc, m), k, v) =~= merge_maps(acc, add_reading(m, k, v)));
}

proof fn lemma_scan_merge(
    buf: Seq<u8>,
    pos: int,
    end: int,
    acc: Map<Seq<u8>, Summary>,
    m0: Map<Seq<u8>, Summary>,
)
    ensures
        scan(buf, pos, end, merge_maps(acc, m0)) == (match scan(buf, pos, end, m0) {
            Ok(m) => Ok(merge_maps(acc, m)),
            Err(e) => Err::<Map<Seq<u8>, Summary>, FormatError>(e),
        }),
    decreases buf.len() - pos,
{
    if !(pos < 0 || pos >= end || pos >= buf.len()) {
        lemma_find_from(buf, NEWLINE, pos);
        match record_spec(buf.subrange(pos, line_end(buf, pos))) {
            Err(e) => {},
            Ok(r) => {
                lemma_add_merge(acc, m0, r.0, r.1);
                lemma_scan_merge(buf, next_start(buf, pos), end, acc, add_reading(m0, r.0, r.1));
            },
        }
    }
}

/// Scanning onto a table `acc` is merging `acc` with the scan onto an empty table.
pub proof fn lemma_scan_onto(buf: Seq<u8>, pos: int, end: int, acc: Map<Seq<u8>, Summary>)
    ensures
        scan(buf, pos, end, acc) == (match range_table(buf, pos, end) {
            Ok(m) => Ok(merge_maps(acc, m)),
            Err(e) => Err::<Map<Seq<u8>, Summary>, FormatError>(e),
        }),
{
    lemma_merge_empty(acc);
    lemma_scan_merge(buf, pos, end, acc, Map::empty());
}

/// A position at which no record is cut: the start, the end, or just after a newline.
pub open spec fn is_boundary(buf: Seq<u8>, b: int) -> bool {
    b == 0 || b == buf.len() || (0 < b < buf.len() && buf[b - 1] == NEWLINE)
}

/// Scanning up to a boundary `b` and then on from `b` is one scan.
pub proof fn lemma_scan_split(buf: Seq<u8>, a: int, b: int, c: int, acc: Map<Seq<u8>, Summary>)
    requires
        0 <= a <= b <= c <= buf.len(),
        a == b || is_boundary(buf, b),
    ensures
        scan(buf, a, c, acc) == (match scan(buf, a, b, acc) {
            Ok(m) => scan(buf, b, c, m),
            Err(e) => Err::<Map<Seq<u8>, Summary>, FormatError>(e),
        }),
    decreases buf.len() - a,
{
    if a < b {
        lemma_find_from(buf, NEWLINE, a);
        if b < buf.len() {
            lemma_find_before(buf, NEWLINE, a, b - 1);
        }
        match record_spec(buf.subrange(a, line_end(buf, a))) {
            Err(e) => {},
            Ok(r) => {
                lemma_scan_split(buf, next_start(buf, a), b, c, add_reading(acc, r.0, r.1));
            },
        }
    }
}

/// A scan from `pos` adds at most one reading per byte from `pos` on.
pub proof fn lemma_scan_bounded(buf: Seq<u8>, pos: int, end: int, acc: Map<Seq<u8>, Summary>, n: int)
    requires
        0 <= pos <= buf.len(),
        0 <= n,
        bounded(acc, n),
    ensures
        scan(buf, pos, end, acc) matches Ok(m) ==> bounded(m, n + buf.len() - pos),
    decreases buf.len() - pos,
{
    if !(pos >= end || pos >= buf.len()) {
        lemma_find_from(buf, NEWLINE, pos);
        let line = buf.subrange(pos, line_end(buf, pos));
        match record_spec(line) {
            Err(e) => {},
            Ok(r) => {
                let d = find_from(line, SEMICOLON, 0);
                lemma_find_from(line, SEMICOLON, 0);
                lemma_value_bounded(line.subrange(d + 1, line.len() as int));
                let acc2 = add_reading(acc, r.0, r.1);
                assert(-999 <= r.1 <= 999);
                assert(bounded(acc2, n + 1)) by {
                    if acc.contains_key(r.0) {
                        lemma_combine_wf(acc[r.0], single(r.1));
                    }
                    assert forall|k: Seq<u8>| #[trigger] acc2.contains_key(k) implies summary_wf(acc2[k])
                        && acc2[k].count <= n + 1 by {
                        if k != r.0 {
                            assert(acc.contains_key(k));
                        }
                    }
                }
                lemma_scan_bounded(buf, next_start(buf, pos), end, acc2, n + 1);
            },
        }
    } else {
        assert(bounded(acc, n + buf.len() - pos));
    }
}

/// Merges, in order, the tables of the ranges `[bounds[j], bounds[j + 1])` for `j < i`,
/// and fails with the error of the first range that fails.
pub open spec fn fold_ranges(buf: Seq<u8>, bounds: Seq<int>, i: int) -> Result<
    Map<Seq<u8>, Summary>,
    FormatError,
>
    decreases i,
{
    if i <= 0 {
        Ok(Map::empty())
    } else {
        match fold_ranges(buf, bounds, i - 1) {
            Err(e) => Err(e),
            Ok(m) => match range_table(buf, bounds[i - 1], bounds[i]) {
                Err(e) => Err(e),
                Ok(t) => Ok(merge_maps(m, t)),
            },
        }
    }
}

/// Boundaries that cut the buffer into ranges in order, none of them inside a record.
pub open spec fn is_partition(buf: Seq<u8>, bounds: Seq<int>) -> bool {
    &&& bounds.len() >= 1
    &&& bounds[0] == 0
    &&& bounds[bounds.len() - 1] == buf.len()
    &&& forall|j: int| 0 <= j < bounds.len() - 1 ==> #[trigger] bounds[j] <= bounds[j + 1]
    &&& forall|j: int| 0 <= j < bounds.len() ==> #[trigger] is_boundary(buf, bounds[j])
}

proof fn lemma_fold_prefix(buf: Seq<u8>, bounds: Seq<int>, i: int)
    requires
        is_partition(buf, bounds),
        0 <= i < bounds.len(),
    ensures
        fold_ranges(buf, bounds, i) == range_table(buf, 0, bounds[i]),
    decreases i,
{
    if i > 0 {
        lemma_fold_prefix(buf, bounds, i - 1);
        assert(is_boundary(buf, bounds[i - 1]));
        assert(is_boundary(buf, bounds[i]));
        assert(bounds[i - 1] <= bounds[i]);
        lemma_scan_split(buf, 0, bounds[i - 1], bounds[i], Map::empty());
        match range_table(buf, 0, bounds[i - 1]) {
            Ok(m) => lemma_scan_onto(buf, bounds[i - 1], bounds[i], m),
            Err(e) => {},
        }
    }
}

/// However the buffer is cut into ranges at record boundaries, merging the
/// ranges' tables in order gives the table of the whole buffer.
pub proof fn lemma_partition_whole(buf: Seq<u8>, bounds: Seq<int>)
    requires
        is_partition(buf, bounds),
    ensures
        fold_ranges(buf, bounds, bounds.len() - 1) == range_table(buf, 0, buf.len() as int),
{
    lemma_fold_prefix(buf, bounds, bounds.len() - 1);
}

/// The merged table does not depend on how many ranges the buffer was cut into,
/// nor where, so long as no cut falls inside a record.
pub proof fn lemma_partition_invariant(buf: Seq<u8>, b1: Seq<int>, b2: Seq<int>)
    requires
        is_partition(buf, b1),
        is_partition(buf, b2),
    ensures
        fold_ranges(buf, b1, b1.len() - 1) == fold_ranges(buf, b2, b2.len() - 1),
{
    lemma_partition_whole(buf, b1);
    lemma_partition_whole(buf, b2);
}

/// The number of readings of key `k` in the table `m`.
pub open spec fn count_in(m: Map<Seq<u8>, Summary>, k: Seq<u8>) -> int {
    if m.contains_key(k) {
        m[k].count
    } else {
        0
    }
}

/// The number of records with key `k` among those whose first byte lies in `[pos, end)`.
pub open spec fn lines_with_key(buf: Seq<u8>, pos: int, end: int, k: Seq<u8>) -> int
    decreases buf.len() - pos,
    via lines_with_key_decreases
{
    if pos < 0 || pos >= end || pos >= buf.len() {
        0
    } else {
        match record_spec(buf.subrange(pos, line_end(buf, pos))) {
            Err(e) => 0,
            Ok(r) => (if r.0 == k {
                1int
            } else {
                0int
            }) + lines_with_key(buf, next_start(buf, pos), end, k),
        }
    }
}

#[via_fn]
proof fn lines_with_key_decreases(buf: Seq<u8>, pos: int, end: int, k: Seq<u8>) {
    if !(pos < 0 || pos >= end || pos >= buf.len()) {
        lemma_find_from(buf, NEWLINE, pos);
    }
}

proof fn lemma_scan_count(buf: Seq<u8>, pos: int, end: int, acc: Map<Seq<u8>, Summary>, k: Seq<u8>)
    ensures
        scan(buf, pos, end, acc) matches Ok(m) ==> count_in(m, k) == count_in(acc, k) + lines_with_key(
            buf,
            pos,
            end,
            k,
        ),
    decreases buf.len() - pos,
{
    if !(pos < 0 || pos >= end || pos >= buf.len()) {
        lemma_find_from(buf, NEWLINE, pos);
        match record_spec(buf.subrange(pos, line_end(buf, pos))) {
            Err(e) => {},
            Ok(r) => {
                lemma_scan_count(buf, next_start(buf, pos), end, add_reading(acc, r.0, r.1), k);
            },
        }
    }
}

/// The count of a key in the table of the whole buffer is the number of
/// records that bear that key.
pub proof fn lemma_count_is_lines(buf: Seq<u8>, k: Seq<u8>)
    ensures
        range_table(buf, 0, buf.len() as int) matches Ok(m) ==> count_in(m, k) == lines_with_key(
            buf,
            0,
            buf.len() as int,
            k,
        ),
{
    lemma_scan_count(buf, 0, buf.len() as int, Map::empty(), k);
}

} // verus!
