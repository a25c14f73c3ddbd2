//! Cutting the input into ranges, aggregating each range, and merging the tables.

use vstd::prelude::*;
use itertools::Itertools;
use crate::records::{
    FormatError, NEWLINE, SEMICOLON, find_from, lemma_find_from, lemma_find_monotone,
    next_start, scan, range_table, add_reading, merge_maps, bounded, is_boundary,
    lemma_scan_split, lemma_scan_onto, lemma_scan_bounded,
};
use crate::stats::{Stats, Summary, MAX_COUNT, combine};
use crate::table::{StatsTable, table_contents, lemma_view_insert};
use crate::value::{parse_tenths, lemma_value_bounded};
use vstd::arithmetic::div_mod::{lemma_div_is_ordered, lemma_div_multiples_vanish};
use vstd::arithmetic::mul::lemma_mul_inequality;

verus! {

/// Splits `s` at the first `delim` into what comes before and what comes after it.
pub fn split_once(s: &[u8], delim: u8) -> (r: Option<(&[u8], &[u8])>)
    ensures
        find_from(s@, delim, 0) < s@.len() ==> (r matches Some(p) && p.0@ == s@.subrange(
            0,
            find_from(s@, delim, 0),
        ) && p.1@ == s@.subrange(find_from(s@, delim, 0) + 1, s@.len() as int)),
        find_from(s@, delim, 0) >= s@.len() ==> r is None,
{
    let i = find_byte(s, delim, 0);
    if i < s.len() {
        Some((vstd::slice::slice_subrange(s, 0, i), vstd::slice::slice_subrange(s, i + 1, s.len())))
    } else {
        None
    }
}

/// The index of the first `b` in `s` at or after `from`, or `s.len()` if none.
pub fn find_byte(s: &[u8], b: u8, from: usize) -> (r: usize)
    requires
        from <= s@.len(),
    ensures
        r == find_from(s@, b, from as int),
{
    let mut p = from;
    while p < s.len() && s[p] != b
        invariant
            from <= p <= s@.len(),
            find_from(s@, b, from as int) == find_from(s@, b, p as int),
        decreases s@.len() - p,
    {
        p = p + 1;
    }
    p
}

/// Where the record after the one that starts at `pos` starts.
fn next_record(buf: &[u8], pos: usize) -> (r: usize)
    requires
        pos <= buf@.len(),
    ensures
        r == next_start(buf@, pos as int),
        pos < buf@.len() ==> pos < r,
        r <= buf@.len(),
{
    proof {
        lemma_find_from(buf@, NEWLINE, pos as int);
    }
    let nl = find_byte(buf, NEWLINE, pos);
    if nl < buf.len() {
        nl + 1
    } else {
        buf.len()
    }
}

/// The table of the records whose first byte lies in `range`; a record may run
/// past the range's end up to its newline.
pub fn chunk_stats(buf: &[u8], range: (usize, usize)) -> (r: Result<StatsTable, FormatError>)
    requires
        range.0 <= range.1 <= buf@.len(),
        buf@.len() <= MAX_COUNT,
    ensures
        r matches Ok(t) ==> range_table(buf@, range.0 as int, range.1 as int) == Ok::<
            Map<Seq<u8>, Summary>,
            FormatError,
        >(t@) && t.wf(),
        r matches Err(e) ==> range_table(buf@, range.0 as int, range.1 as int) == Err::<
            Map<Seq<u8>, Summary>,
            FormatError,
        >(e),
{
    let (start, end) = range;
    let mut stats = StatsTable::empty();
    let mut pos = start;
    while pos < end
        invariant
            start == range.0,
            end == range.1,
            start <= pos <= buf@.len(),
            end <= buf@.len(),
            buf@.len() <= MAX_COUNT,
            range_table(buf@, start as int, end as int) == scan(buf@, pos as int, end as int, stats@),
            bounded(stats@, pos - start),
            stats.wf(),
        decreases buf@.len() - pos,
    {
        proof {
            lemma_find_from(buf@, NEWLINE, pos as int);
        }
        let nl = find_byte(buf, NEWLINE, pos);
        let line = vstd::slice::slice_subrange(buf, pos, nl);
        proof {
            lemma_find_from(line@, SEMICOLON, 0);
        }
        let (name, value) = match split_once(line, SEMICOLON) {
            Some(p) => p,
            None => return Err(FormatError::MissingDelimiter),
        };
        let v = match parse_tenths(value) {
            Some(v) => v,
            None => return Err(FormatError::BadValue),
        };
        proof {
            lemma_value_bounded(value@);
        }
        let ghost before = stats@;
        let ghost k = name@;
        let entry = match stats.get(name) {
            None => Stats::singleton(v),
            Some(st) => {
                let mut st = st;
                assert(before.contains_key(k) && before[k] == st@);
                st.update(v);
                st
            },
        };
        assert(entry.wf());
        let ghost old_stats = stats;
        stats.insert(vstd::slice::slice_to_vec(name), entry);
        proof {
            lemma_view_insert(old_stats, stats, k, entry);
            assert(stats@ == add_reading(before, k, v as int));
            assert forall|key: Seq<u8>| #[trigger]
                table_contents(stats).dom().contains(key) implies table_contents(stats)[key].wf() by {
                if key != k {
                    assert(table_contents(old_stats).dom().contains(key));
                }
            }
            assert(bounded(stats@, pos + 1 - start)) by {
                assert forall|key: Seq<u8>| #[trigger] stats@.contains_key(key) implies stats@[key].count
                    <= pos + 1 - start by {
                    if key != k {
                        assert(before.contains_key(key));
                    }
                }
            }
        }
        pos = next_record(buf, pos);
    }
    Ok(stats)
}

/// The `i`-th of `n` evenly spaced offsets into a buffer of `len` bytes.
pub open spec fn planned_offset(len: int, i: int, n: int) -> int {
    len * i / n
}

proof fn lemma_offsets_ordered(len: int, i: int, j: int, n: int)
    requires
        0 <= len,
        0 <= i <= j <= n,
        1 <= n,
    ensures
        0 <= planned_offset(len, i, n) <= planned_offset(len, j, n) <= len,
{
    lemma_mul_inequality(i, j, len);
    lemma_mul_inequality(j, n, len);
    lemma_mul_inequality(0, i, len);
    assert(len * i == i * len) by (nonlinear_arith);
    assert(len * j == j * len) by (nonlinear_arith);
    assert(len * n == n * len) by (nonlinear_arith);
    lemma_div_is_ordered(0, len * i, n);
    lemma_div_is_ordered(len * i, len * j, n);
    lemma_div_is_ordered(len * j, len * n, n);
    lemma_div_multiples_vanish(len, n);
}

proof fn lemma_next_start(buf: Seq<u8>, a: int, b: int)
    requires
        0 <= a <= b <= buf.len(),
    ensures
        a <= next_start(buf, a) <= next_start(buf, b) <= buf.len(),
        is_boundary(buf, next_start(buf, a)),
{
    lemma_find_from(buf, NEWLINE, a);
    lemma_find_from(buf, NEWLINE, b);
    lemma_find_monotone(buf, NEWLINE, a, b);
}

/// Relies on itertools' `tuple_windows`: each pair of neighbouring items, in order.
#[verifier::external_body]
fn windows(items: &Vec<usize>) -> (r: Vec<(usize, usize)>)
    requires
        items@.len() >= 2,
    ensures
        r@.len() + 1 == items@.len(),
        forall|i: int| 0 <= i < r@.len() ==> #[trigger] r@[i] == (items@[i], items@[i + 1]),
{
    items.iter().copied().tuple_windows().collect()
}

/// Cuts a buffer into `n` ranges `(start, end)` in order. Each inner cut lies just
/// after the first newline at or after an evenly spaced offset, or at the end.
pub fn chunks(buf: &[u8], n: usize) -> (r: Vec<(usize, usize)>)
    requires
        n >= 1,
    ensures
        r@.len() == n,
        r@[0].0 == 0,
        r@[n - 1].1 == buf@.len(),
        forall|i: int| 0 <= i < n - 1 ==> #[trigger] r@[i].1 == r@[i + 1].0,
        forall|i: int|
            0 <= i < n - 1 ==> #[trigger] r@[i].1 == next_start(
                buf@,
                planned_offset(buf@.len() as int, i + 1, n as int),
            ),
        forall|i: int|
            0 <= i < n ==> #[trigger] r@[i].0 <= r@[i].1 && is_boundary(buf@, r@[i].1 as int),
{
    let len = buf.len();
    let mut boundaries: Vec<usize> = Vec::new();
    boundaries.push(0);
    let mut i: usize = 1;
    while i < n
        invariant
            1 <= i <= n,
            len == buf@.len(),
            boundaries@.len() == i,
            boundaries@[0] == 0,
            forall|j: int|
                1 <= j < i ==> #[trigger] boundaries@[j] == next_start(
                    buf@,
                    planned_offset(len as int, j, n as int),
                ),
        decreases n - i,
    {
        proof {
            lemma_offsets_ordered(len as int, i as int, n as int, n as int);
            assert((len as int) * (i as int) <= (len as int) * (n as int)) by (nonlinear_arith)
                requires i <= n;
            assert((len as int) * (n as int) <= 0xffff_ffff_ffff_ffff * 0xffff_ffff_ffff_ffff) by (nonlinear_arith)
                requires len <= 0xffff_ffff_ffff_ffff, n <= 0xffff_ffff_ffff_ffff;
        }
        let offset = ((len as u128) * (i as u128) / (n as u128)) as usize;
        assert(offset == planned_offset(len as int, i as int, n as int));
        let b = next_record(buf, offset);
        boundaries.push(b);
        i = i + 1;
    }
    let ghost inner = boundaries@;
    boundaries.push(len);
    proof {
        assert forall|j: int| 1 <= j < n implies boundaries@[j] == next_start(
            buf@,
            planned_offset(len as int, j, n as int),
        ) && is_boundary(buf@, #[trigger] boundaries@[j] as int) && boundaries@[j] <= len by {
            assert(boundaries@[j] == inner[j]);
            lemma_offsets_ordered(len as int, j, j, n as int);
            let o = planned_offset(len as int, j, n as int);
            lemma_next_start(buf@, o, o);
        }
        assert forall|j: int| 0 <= j < n implies boundaries@[j] <= boundaries@[j + 1] && is_boundary(
            buf@,
            #[trigger] boundaries@[j + 1] as int,
        ) by {
            if 1 <= j && j + 1 < n {
                lemma_offsets_ordered(len as int, j, j + 1, n as int);
                lemma_next_start(
                    buf@,
                    planned_offset(len as int, j, n as int),
                    planned_offset(len as int, j + 1, n as int),
                );
            }
            if j + 1 == n {
                assert(boundaries@[j + 1] == len);
            }
        }
    }
    windows(&boundaries)
}

/// Folds the table `local` into `global`: every key of either, with the
/// statistics of a key that both hold combined.
pub fn merge_into(global: &mut StatsTable, local: StatsTable)
    requires
        old(global).wf(),
        local.wf(),
        forall|k: Seq<u8>|
            old(global)@.contains_key(k) && local@.contains_key(k) ==> #[trigger] old(global)@[k].count
                + local@[k].count <= MAX_COUNT,
    ensures
        final(global)@ == merge_maps(old(global)@, local@),
        final(global).wf(),
{
    let ghost g0 = global@;
    let ghost lv = local@;
    let ghost lc = table_contents(local);
    let entries = local.into_entries();
    let ghost mut done = Map::<Seq<u8>, Summary>::empty();
    let mut i: usize = 0;
    while i < entries.len()
        invariant
            0 <= i <= entries@.len(),
            global.wf(),
            global@ == merge_maps(g0, done),
            forall|k: Seq<u8>|
                g0.contains_key(k) && lv.contains_key(k) ==> #[trigger] g0[k].count + lv[k].count
                    <= MAX_COUNT,
            forall|k: Seq<u8>| #[trigger] lc.dom().contains(k) ==> lc[k].wf(),
            forall|k: Seq<u8>| #[trigger] lv.contains_key(k) <==> lc.dom().contains(k),
            forall|k: Seq<u8>| #[trigger] lv.contains_key(k) ==> lv[k] == lc[k]@,
            forall|j: int|
                0 <= j < entries@.len() ==> #[trigger] lc.dom().contains(entries@[j].0@)
                    && lc[entries@[j].0@] == entries@[j].1,
            forall|k: Seq<u8>|
                #[trigger] lc.dom().contains(k) ==> exists|j: int|
                    0 <= j < entries@.len() && entries@[j].0@ == k,
            forall|a: int, b: int|
                0 <= a < b < entries@.len() ==> entries@[a].0@ != entries@[b].0@,
            forall|k: Seq<u8>| #[trigger] done.contains_key(k) ==> lv.contains_key(k) && done[k] == lv[k],
            forall|k: Seq<u8>|
                #[trigger] done.contains_key(k) ==> exists|j: int| 0 <= j < i && entries@[j].0@ == k,
            forall|j: int| 0 <= j < i ==> #[trigger] done.contains_key(entries@[j].0@),
        decreases entries@.len() - i,
    {
        let key = &entries[i].0;
        let value = entries[i].1;
        let ghost k = key@;
        assert(lc.dom().contains(entries@[i as int].0@));
        assert(!done.contains_key(k));
        assert(lc[k] == value);
        assert(lv.contains_key(k));
        assert(lv[k] == value@);
        let ghost before = *global;
        let entry = match global.get(key.as_slice()) {
            None => {
                assert(!global@.contains_key(k));
                assert(!g0.contains_key(k));
                value
            },
            Some(st) => {
                let mut st = st;
                assert(global@.contains_key(k) && global@[k] == st@);
                assert(g0.contains_key(k) && g0[k] == st@);
                st.merge(value);
                st
            },
        };
        global.insert(key.clone(), entry);
        proof {
            lemma_view_insert(before, *global, k, entry);
            let done2 = done.insert(k, value@);
            assert(entry@ == (if g0.contains_key(k) {
                combine(g0[k], value@)
            } else {
                value@
            }));
            assert forall|key2: Seq<u8>| #[trigger] global@.contains_key(key2) <==> merge_maps(
                g0,
                done2,
            ).contains_key(key2) by {}
            assert forall|key2: Seq<u8>| #[trigger] global@.contains_key(key2) implies global@[key2]
                == merge_maps(g0, done2)[key2] by {
                if key2 != k {
                    assert(before@.contains_key(key2));
                    assert(before@[key2] == merge_maps(g0, done)[key2]);
                }
            }
            assert(global@ =~= merge_maps(g0, done2));
            assert forall|key2: Seq<u8>| #[trigger]
                table_contents(*global).dom().contains(key2) implies table_contents(*global)[key2].wf() by {
                if key2 != k {
                    assert(table_contents(before).dom().contains(key2));
                }
            }
            assert forall|key2: Seq<u8>| #[trigger] done2.contains_key(key2) implies exists|j: int|
                0 <= j < i + 1 && entries@[j].0@ == key2 by {
                if key2 == k {
                    assert(entries@[i as int].0@ == key2);
                } else {
                    assert(done.contains_key(key2));
                }
            }
            done = done2;
        }
        i = i + 1;
    }
    proof {
        assert forall|k: Seq<u8>| #[trigger] lv.contains_key(k) implies done.contains_key(k) by {
            assert(lc.dom().contains(k));
            let j = choose|j: int| 0 <= j < entries@.len() && entries@[j].0@ == k;
            assert(done.contains_key(entries@[j].0@));
        }
        assert(done =~= lv);
    }
}

/// The table of every record of `buf`, computed range by range over `n`
/// ranges and merged; fails with the error of the first malformed record.
pub fn aggregate(buf: &[u8], n: usize) -> (r: Result<StatsTable, FormatError>)
    requires
        n >= 1,
        buf@.len() <= MAX_COUNT,
    ensures
        r matches Ok(t) ==> range_table(buf@, 0, buf@.len() as int) == Ok::<
            Map<Seq<u8>, Summary>,
            FormatError,
        >(t@) && t.wf(),
        r matches Err(e) ==> range_table(buf@, 0, buf@.len() as int) == Err::<
            Map<Seq<u8>, Summary>,
            FormatError,
        >(e),
{
    let ranges = chunks(buf, n);
    let mut global = StatsTable::empty();
    let mut i: usize = 0;
    while i < ranges.len()
        invariant
            ranges@.len() == n,
            0 <= i <= n,
            buf@.len() <= MAX_COUNT,
            ranges@[0].0 == 0,
            ranges@[n - 1].1 == buf@.len(),
            forall|j: int| 0 <= j < n - 1 ==> #[trigger] ranges@[j].1 == ranges@[j + 1].0,
            forall|j: int|
                0 <= j < n ==> #[trigger] ranges@[j].0 <= ranges@[j].1 && is_boundary(
                    buf@,
                    ranges@[j].1 as int,
                ),
            global.wf(),
            i < n ==> range_table(buf@, 0, ranges@[i as int].0 as int) == Ok::<
                Map<Seq<u8>, Summary>,
                FormatError,
            >(global@),
            i == n ==> range_table(buf@, 0, buf@.len() as int) == Ok::<
                Map<Seq<u8>, Summary>,
                FormatError,
            >(global@),
        decreases n - i,
    {
        let range = ranges[i];
        let ghost start = range.0 as int;
        let ghost end = range.1 as int;
        proof {
            if i > 0 {
                assert(ranges@[i - 1].1 == ranges@[i as int].0);
                assert(ranges@[i - 1].0 <= ranges@[i - 1].1);
            }
            assert(ranges@[i as int].0 <= ranges@[i as int].1);
            assert(start == 0 || is_boundary(buf@, start));
            lemma_scan_split(buf@, 0, start, end, Map::empty());
            lemma_scan_onto(buf@, start, end, global@);
            lemma_scan_bounded(buf@, 0, end, Map::empty(), 0);
            if i + 1 < n {
                assert(ranges@[i as int].1 == ranges@[i + 1].0);
            }
        }
        let table = match chunk_stats(buf, range) {
            Ok(t) => t,
            Err(e) => {
                proof {
                    lemma_scan_split(buf@, 0, end, buf@.len() as int, Map::empty());
                }
                return Err(e);
            },
        };
        proof {
            let merged = merge_maps(global@, table@);
            assert(bounded(merged, buf@.len() as int));
            assert forall|k: Seq<u8>|
                global@.contains_key(k) && table@.contains_key(k) implies #[trigger] global@[k].count
                    + table@[k].count <= MAX_COUNT by {
                assert(merged.contains_key(k));
            }
        }
        merge_into(&mut global, table);
        i = i + 1;
    }
    Ok(global)
}

} // verus!
