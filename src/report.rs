//! The output line: `{key=min/avg/max, ...}` with keys in ascending byte order.

use vstd::prelude::*;
use crate::records::FormatError;
use crate::stats::{Stats, Summary, MAX_COUNT};
use crate::table::{StatsTable, table_contents};
use crate::value::{ZERO, DOT, MINUS};
use vstd::arithmetic::div_mod::{lemma_fundamental_div_mod, lemma_fundamental_div_mod_converse, lemma_mod_bound};

verus! {

/// Whether `a` comes strictly before `b` in byte order.
pub open spec fn lex_lt(a: Seq<u8>, b: Seq<u8>) -> bool
    decreases a.len(),
{
    if b.len() == 0 {
        false
    } else if a.len() == 0 {
        true
    } else if a[0] != b[0] {
        a[0] < b[0]
    } else {
        lex_lt(a.drop_first(), b.drop_first())
    }
}

/// Of two different byte strings, one comes first.
pub proof fn lemma_lex_total(a: Seq<u8>, b: Seq<u8>)
    requires
        a != b,
    ensures
        lex_lt(a, b) || lex_lt(b, a),
    decreases a.len(),
{
    if a.len() > 0 && b.len() > 0 && a[0] == b[0] {
        assert(a =~= seq![a[0]] + a.drop_first());
        assert(b =~= seq![b[0]] + b.drop_first());
        lemma_lex_total(a.drop_first(), b.drop_first());
    } else if a.len() == 0 && b.len() == 0 {
        assert(a =~= b);
    }
}

/// Byte order is asymmetric.
pub proof fn lemma_lex_asymmetric(a: Seq<u8>, b: Seq<u8>)
    ensures
        lex_lt(a, b) ==> !lex_lt(b, a),
    decreases a.len(),
{
    if a.len() > 0 && b.len() > 0 && a[0] == b[0] {
        lemma_lex_asymmetric(a.drop_first(), b.drop_first());
    }
}

/// Byte order is transitive.
pub proof fn lemma_lex_transitive(a: Seq<u8>, b: Seq<u8>, c: Seq<u8>)
    requires
        lex_lt(a, b),
        lex_lt(b, c),
    ensures
        lex_lt(a, c),
    decreases a.len(),
{
    if a.len() > 0 && a[0] == b[0] && b[0] == c[0] {
        lemma_lex_transitive(a.drop_first(), b.drop_first(), c.drop_first());
    }
}

/// Whether `a` comes strictly before `b` in byte order.
pub fn key_less(a: &[u8], b: &[u8]) -> (r: bool)
    ensures
        r == lex_lt(a@, b@),
{
    let mut i: usize = 0;
    assert(a@.skip(0) =~= a@);
    assert(b@.skip(0) =~= b@);
    while i < a.len() && i < b.len() && a[i] == b[i]
        invariant
            i <= a@.len(),
            i <= b@.len(),
            lex_lt(a@, b@) == lex_lt(a@.skip(i as int), b@.skip(i as int)),
        decreases a@.len() - i,
    {
        assert(a@.skip(i as int).drop_first() =~= a@.skip(i + 1));
        assert(b@.skip(i as int).drop_first() =~= b@.skip(i + 1));
        i = i + 1;
    }
    if i == b.len() {
        false
    } else if i == a.len() {
        true
    } else {
        a[i] < b[i]
    }
}

/// The numbers `0..=9` as ASCII digits.
pub open spec fn digit_char(d: int) -> u8 {
    (ZERO + d) as u8
}

/// The decimal digits of `n`.
pub open spec fn decimal(n: nat) -> Seq<u8>
    decreases n,
{
    if n < 10 {
        seq![digit_char(n as int)]
    } else {
        decimal(n / 10) + seq![digit_char((n % 10) as int)]
    }
}

pub open spec fn abs(t: int) -> nat {
    if t < 0 {
        (-t) as nat
    } else {
        t as nat
    }
}

/// A number of tenths written with one fractional digit, as `-12.3` or `4.0`.
pub open spec fn tenths_text(t: int) -> Seq<u8> {
    (if t < 0 {
        seq![MINUS]
    } else {
        Seq::empty()
    }) + decimal(abs(t) / 10) + seq![DOT, digit_char((abs(t) % 10) as int)]
}

/// `sum / count` rounded to the nearest whole number, ties to the even one.
pub open spec fn round_div(sum: int, count: int) -> int {
    let q = sum / count;
    let rem = sum % count;
    if 2 * rem > count {
        q + 1
    } else if 2 * rem < count {
        q
    } else if q % 2 == 0 {
        q
    } else {
        q + 1
    }
}

pub const SLASH: u8 = 47;

pub const EQUALS: u8 = 61;

pub const COMMA: u8 = 44;

pub const SPACE: u8 = 32;

pub const OPEN_BRACE: u8 = 123;

pub const CLOSE_BRACE: u8 = 125;

/// `min/avg/max`, each in tenths with one fractional digit.
pub open spec fn stats_text(s: Summary) -> Seq<u8> {
    tenths_text(s.min) + seq![SLASH] + tenths_text(round_div(s.sum, s.count)) + seq![SLASH]
        + tenths_text(s.max)
}

/// `key=min/avg/max` for each entry, joined by `, `.
pub open spec fn entries_text(es: Seq<(Seq<u8>, Summary)>) -> Seq<u8>
    decreases es.len(),
{
    if es.len() == 0 {
        Seq::empty()
    } else {
        let last = es[es.len() - 1];
        let item = last.0 + seq![EQUALS] + stats_text(last.1);
        if es.len() == 1 {
            item
        } else {
            entries_text(es.drop_last()) + seq![COMMA, SPACE] + item
        }
    }
}

/// The whole output line, without its newline.
pub open spec fn report_text(es: Seq<(Seq<u8>, Summary)>) -> Seq<u8> {
    seq![OPEN_BRACE] + entries_text(es) + seq![CLOSE_BRACE]
}

/// `es` lists the entries of `m`, each once, keys strictly ascending.
pub open spec fn is_sorted_listing(m: Map<Seq<u8>, Summary>, es: Seq<(Seq<u8>, Summary)>) -> bool {
    &&& forall|i: int| 0 <= i < es.len() ==> #[trigger] m.contains_key(es[i].0) && m[es[i].0] == es[i].1
    &&& forall|k: Seq<u8>| #[trigger] m.contains_key(k) ==> exists|i: int| 0 <= i < es.len() && es[i].0 == k
    &&& forall|i: int| 0 <= i < es.len() - 1 ==> #[trigger] lex_lt(es[i].0, es[i + 1].0)
    &&& forall|i: int, j: int| 0 <= i < j < es.len() ==> es[i].0 != es[j].0
}

proof fn lemma_listing_ordered(es: Seq<(Seq<u8>, Summary)>, i: int, j: int)
    requires
        0 <= i < j < es.len(),
        forall|a: int| 0 <= a < es.len() - 1 ==> #[trigger] lex_lt(es[a].0, es[a + 1].0),
    ensures
        lex_lt(es[i].0, es[j].0),
    decreases j - i,
{
    if i + 1 < j {
        lemma_listing_ordered(es, i + 1, j);
        lemma_lex_transitive(es[i].0, es[i + 1].0, es[j].0);
    }
}

/// A table has exactly one listing of its entries in ascending key order.
pub proof fn lemma_listing_unique(
    m: Map<Seq<u8>, Summary>,
    e1: Seq<(Seq<u8>, Summary)>,
    e2: Seq<(Seq<u8>, Summary)>,
)
    requires
        is_sorted_listing(m, e1),
        is_sorted_listing(m, e2),
    ensures
        e1 == e2,
    decreases e1.len(),
{
    if e1.len() == 0 {
        if e2.len() > 0 {
            assert(m.contains_key(e2[0].0));
        }
        assert(e1 =~= e2);
    } else {
        assert(m.contains_key(e1[0].0));
        let k1 = e1[0].0;
        let i2 = choose|i: int| 0 <= i < e2.len() && e2[i].0 == k1;
        let k2 = e2[0].0;
        assert(m.contains_key(k2));
        let i1 = choose|i: int| 0 <= i < e1.len() && e1[i].0 == k2;
        if k1 != k2 {
            lemma_listing_ordered(e1, 0, i1);
            lemma_listing_ordered(e2, 0, i2);
            lemma_lex_asymmetric(k1, k2);
        }
        let m2 = m.remove(k1);
        let t1 = e1.drop_first();
        let t2 = e2.drop_first();
        assert forall|k: Seq<u8>| #[trigger] m2.contains_key(k) implies exists|i: int|
            0 <= i < t1.len() && t1[i].0 == k by {
            let i = choose|i: int| 0 <= i < e1.len() && e1[i].0 == k;
            assert(t1[i - 1].0 == k);
        }
        assert forall|k: Seq<u8>| #[trigger] m2.contains_key(k) implies exists|i: int|
            0 <= i < t2.len() && t2[i].0 == k by {
            let i = choose|i: int| 0 <= i < e2.len() && e2[i].0 == k;
            assert(t2[i - 1].0 == k);
        }
        assert forall|i: int| 0 <= i < t1.len() implies #[trigger] m2.contains_key(t1[i].0) && m2[t1[i].0]
            == t1[i].1 by {
            assert(e1[i + 1].0 != e1[0].0);
            assert(m.contains_key(e1[i + 1].0));
        }
        assert forall|i: int| 0 <= i < t2.len() implies #[trigger] m2.contains_key(t2[i].0) && m2[t2[i].0]
            == t2[i].1 by {
            assert(e2[i + 1].0 != e2[0].0);
            assert(m.contains_key(e2[i + 1].0));
        }
        assert forall|a: int| 0 <= a < t1.len() - 1 implies #[trigger] lex_lt(t1[a].0, t1[a + 1].0) by {
            let b = a + 1;
            assert(lex_lt(e1[b].0, e1[b + 1].0));
        }
        assert forall|a: int| 0 <= a < t2.len() - 1 implies #[trigger] lex_lt(t2[a].0, t2[a + 1].0) by {
            let b = a + 1;
            assert(lex_lt(e2[b].0, e2[b + 1].0));
        }
        lemma_listing_unique(m2, t1, t2);
        assert(e1 =~= e2) by {
            assert(e1 =~= seq![e1[0]] + t1);
            assert(e2 =~= seq![e2[0]] + t2);
        }
    }
}

/// The output line of a table is determined by the table.
pub proof fn lemma_report_unique(o1: Seq<u8>, o2: Seq<u8>, m: Map<Seq<u8>, Summary>)
    requires
        is_report_of(o1, m),
        is_report_of(o2, m),
    ensures
        o1 == o2,
{
    let e1 = choose|es: Seq<(Seq<u8>, Summary)>| is_sorted_listing(m, es) && o1 == report_text(es);
    let e2 = choose|es: Seq<(Seq<u8>, Summary)>| is_sorted_listing(m, es) && o2 == report_text(es);
    lemma_listing_unique(m, e1, e2);
}

/// Every key of `m` is valid UTF-8 text.
pub open spec fn keys_text(m: Map<Seq<u8>, Summary>) -> bool {
    forall|k: Seq<u8>| #[trigger] m.contains_key(k) ==> utf8_valid(k)
}

/// `out` is the output line of the table `m`: its entries listed in key order.
pub open spec fn is_report_of(out: Seq<u8>, m: Map<Seq<u8>, Summary>) -> bool {
    exists|es: Seq<(Seq<u8>, Summary)>| is_sorted_listing(m, es) && out == report_text(es)
}

/// Whether `b` is valid UTF-8, as `std::str::from_utf8` decides it.
pub uninterp spec fn utf8_valid(b: Seq<u8>) -> bool;

/// Relies on `std::str::from_utf8`: `Ok` exactly for valid UTF-8.
#[verifier::external_body]
fn is_text(b: &[u8]) -> (r: bool)
    ensures
        r == utf8_valid(b@),
{
    std::str::from_utf8(b).is_ok()
}

/// Appends the decimal digits of `n`.
fn push_decimal(out: &mut Vec<u8>, n: u64)
    ensures
        final(out)@ == old(out)@ + decimal(n as nat),
    decreases n,
{
    if n >= 10 {
        push_decimal(out, n / 10);
    }
    out.push(ZERO + (n % 10) as u8);
    proof {
        if n < 10 {
            assert(final(out)@ =~= old(out)@ + decimal(n as nat));
        } else {
            assert(final(out)@ =~= old(out)@ + decimal(n as nat));
        }
    }
}

/// Appends a number of tenths with one fractional digit.
fn push_tenths(out: &mut Vec<u8>, t: i64)
    requires
        t > i64::MIN,
    ensures
        final(out)@ == old(out)@ + tenths_text(t as int),
{
    let ghost start = old(out)@;
    if t < 0 {
        out.push(MINUS);
    }
    let a: u64 = if t < 0 {
        (-t) as u64
    } else {
        t as u64
    };
    assert(a as nat == abs(t as int));
    push_decimal(out, a / 10);
    out.push(DOT);
    out.push(ZERO + (a % 10) as u8);
    assert(final(out)@ =~= start + tenths_text(t as int));
}

impl Stats {
    /// The mean reading in tenths, rounded to the nearest tenth, ties to even.
    pub fn avg(&self) -> (r: i64)
        requires
            self.wf(),
        ensures
            r == round_div(self.sum as int, self.count as int),
            r > i64::MIN,
    {
        let c = self.count as i64;
        proof {
            assert(self.sum >= -999 * self.count) by (nonlinear_arith)
                requires self.min * self.count <= self.sum, self.min >= -999, self.count >= 1;
            assert(self.sum <= 999 * self.count) by (nonlinear_arith)
                requires self.sum <= self.max * self.count, self.max <= 999, self.count >= 1;
        }
        let (q, rem) = if self.sum >= 0 {
            let q = self.sum / c;
            let rem = self.sum % c;
            proof {
                lemma_fundamental_div_mod(self.sum as int, c as int);
                lemma_mod_bound(self.sum as int, c as int);
                assert(q <= self.sum) by (nonlinear_arith)
                    requires self.sum == c * q + rem, 0 <= rem < c, c >= 1, self.sum >= 0;
            }
            (q, rem)
        } else {
            let a = -self.sum;
            let q0 = a / c;
            let r0 = a % c;
            proof {
                lemma_fundamental_div_mod(a as int, c as int);
                lemma_mod_bound(a as int, c as int);
                assert(a == q0 * c + r0) by (nonlinear_arith)
                    requires a == c * q0 + r0;
                assert(q0 <= a) by (nonlinear_arith)
                    requires a == c * q0 + r0, 0 <= r0 < c, c >= 1, a >= 0;
            }
            if r0 == 0 {
                proof {
                    assert(self.sum == (-q0) * c + 0) by (nonlinear_arith)
                        requires a == q0 * c + r0, r0 == 0, self.sum == -a;
                    lemma_fundamental_div_mod_converse(self.sum as int, c as int, -q0 as int, 0);
                }
                assert(-q0 <= 0);
                (-q0, 0)
            } else {
                proof {
                    assert(self.sum == (-q0 - 1) * c + (c - r0)) by (nonlinear_arith)
                        requires a == q0 * c + r0, self.sum == -a;
                    lemma_fundamental_div_mod_converse(
                        self.sum as int,
                        c as int,
                        -q0 - 1 as int,
                        c - r0 as int,
                    );
                }
                assert(-q0 - 1 <= 0);
                (-q0 - 1, c - r0)
            }
        };
        assert(q < 9_000_000_000_000_000_000i64) by (nonlinear_arith)
            requires self.sum <= 999 * self.count, self.count <= MAX_COUNT, q <= self.sum || q <= 0;
        if 2 * rem > c {
            q + 1
        } else if 2 * rem < c {
            q
        } else if q % 2 == 0 {
            q
        } else {
            q + 1
        }
    }
}

/// The keys and summaries of a list of entries.
pub open spec fn listing(v: Seq<(Vec<u8>, Stats)>) -> Seq<(Seq<u8>, Summary)> {
    v.map_values(|p: (Vec<u8>, Stats)| (p.0@, p.1@))
}

/// Inserts `(key, stats)` into `sorted` before the first key that comes after `key`.
fn insert_sorted(sorted: &mut Vec<(Vec<u8>, Stats)>, key: Vec<u8>, stats: Stats)
    requires
        forall|i: int| 0 <= i < old(sorted)@.len() - 1 ==> #[trigger] lex_lt(
            old(sorted)@[i].0@,
            old(sorted)@[i + 1].0@,
        ),
        forall|i: int| 0 <= i < old(sorted)@.len() ==> #[trigger] old(sorted)@[i].0@ != key@,
    ensures
        exists|j: int|
            0 <= j <= old(sorted)@.len() && final(sorted)@ == old(sorted)@.insert(j, (key, stats)),
        forall|i: int| 0 <= i < final(sorted)@.len() - 1 ==> #[trigger] lex_lt(
            final(sorted)@[i].0@,
            final(sorted)@[i + 1].0@,
        ),
{
    let ghost before = sorted@;
    let mut j: usize = 0;
    while j < sorted.len() && !key_less(key.as_slice(), sorted[j].0.as_slice())
        invariant
            sorted@ == before,
            j <= sorted@.len(),
            forall|m: int| 0 <= m < j ==> !lex_lt(key@, #[trigger] sorted@[m].0@),
        decreases sorted@.len() - j,
    {
        j = j + 1;
    }
    proof {
        if j > 0 {
            assert(before[j - 1].0@ != key@);
            lemma_lex_total(before[j - 1].0@, key@);
        }
    }
    sorted.insert(j, (key, stats));
    proof {
        assert forall|i: int| 0 <= i < sorted@.len() - 1 implies #[trigger] lex_lt(
            sorted@[i].0@,
            sorted@[i + 1].0@,
        ) by {
            if i + 1 < j {
                assert(lex_lt(before[i].0@, before[i + 1].0@));
            } else if i > j {
                let k = i - 1;
                assert(lex_lt(before[k].0@, before[k + 1].0@));
            }
        }
    }
}

/// Whether every key of `entries` is valid UTF-8.
fn keys_are_text(entries: &Vec<(Vec<u8>, Stats)>) -> (r: bool)
    ensures
        r == forall|j: int| 0 <= j < entries@.len() ==> utf8_valid(#[trigger] entries@[j].0@),
{
    let mut i: usize = 0;
    while i < entries.len()
        invariant
            i <= entries@.len(),
            forall|j: int| 0 <= j < i ==> utf8_valid(#[trigger] entries@[j].0@),
        decreases entries@.len() - i,
    {
        if !is_text(entries[i].0.as_slice()) {
            return false;
        }
        i = i + 1;
    }
    true
}

/// `src[a]` is the entry that stands at `a` in `sorted`, and `dst[j]` is where entry `j` stands.
pub open spec fn placed(
    entries: Seq<(Vec<u8>, Stats)>,
    sorted: Seq<(Vec<u8>, Stats)>,
    src: Seq<int>,
    dst: Seq<int>,
    i: int,
) -> bool {
    &&& src.len() == sorted.len()
    &&& dst.len() == i
    &&& forall|a: int|
        0 <= a < sorted.len() ==> 0 <= #[trigger] src[a] < i && entries[src[a]].0@ == sorted[a].0@
            && entries[src[a]].1 == sorted[a].1
    &&& forall|j: int| 0 <= j < i ==> 0 <= #[trigger] dst[j] < sorted.len() && sorted[dst[j]].0@ == entries[j].0@
}

/// The entries, each once, in ascending byte order of their distinct keys.
fn sort_entries(entries: &Vec<(Vec<u8>, Stats)>) -> (r: (
    Vec<(Vec<u8>, Stats)>,
    Ghost<Seq<int>>,
    Ghost<Seq<int>>,
))
    requires
        forall|a: int, b: int| 0 <= a < b < entries@.len() ==> entries@[a].0@ != entries@[b].0@,
    ensures
        placed(entries@, r.0@, r.1@, r.2@, entries@.len() as int),
        forall|a: int| 0 <= a < r.0@.len() - 1 ==> #[trigger] lex_lt(r.0@[a].0@, r.0@[a + 1].0@),
        forall|a: int, b: int| 0 <= a < b < r.0@.len() ==> r.0@[a].0@ != r.0@[b].0@,
{
    let mut list: Vec<(Vec<u8>, Stats)> = Vec::new();
    let ghost mut src: Seq<int> = Seq::empty();
    let ghost mut dst: Seq<int> = Seq::empty();
    let mut i: usize = 0;
    while i < entries.len()
        invariant
            i <= entries@.len(),
            forall|a: int, b: int| 0 <= a < b < entries@.len() ==> entries@[a].0@ != entries@[b].0@,
            placed(entries@, list@, src, dst, i as int),
            forall|a: int| 0 <= a < list@.len() - 1 ==> #[trigger] lex_lt(list@[a].0@, list@[a + 1].0@),
            forall|a: int, b: int| 0 <= a < b < list@.len() ==> list@[a].0@ != list@[b].0@,
        decreases entries@.len() - i,
    {
        let key = entries[i].0.clone();
        let stats = entries[i].1;
        let ghost before = list@;
        proof {
            assert forall|a: int| 0 <= a < before.len() implies #[trigger] before[a].0@ != key@ by {
                assert(entries@[src[a]].0@ == before[a].0@);
                assert(src[a] != i);
            }
        }
        insert_sorted(&mut list, key, stats);
        proof {
            let pos = choose|pos: int| 0 <= pos <= before.len() && list@ == before.insert(pos, (key, stats));
            let src2 = src.insert(pos, i as int);
            let dst2 = Seq::new(
                (i + 1) as nat,
                |j: int|
                    if j == i {
                        pos
                    } else if dst[j] >= pos {
                        dst[j] + 1
                    } else {
                        dst[j]
                    },
            );
            assert forall|a: int| 0 <= a < list@.len() implies 0 <= #[trigger] src2[a] < i + 1
                && entries@[src2[a]].0@ == list@[a].0@ && entries@[src2[a]].1 == list@[a].1 by {
                if a < pos {
                    assert(list@[a] == before[a]);
                    assert(src2[a] == src[a]);
                } else if a > pos {
                    assert(list@[a] == before[a - 1]);
                    assert(src2[a] == src[a - 1]);
                }
            }
            assert forall|j: int| 0 <= j < i + 1 implies 0 <= #[trigger] dst2[j] < list@.len()
                && list@[dst2[j]].0@ == entries@[j].0@ by {
                if j < i {
                    let d = dst[j];
                    if d >= pos {
                        assert(list@[d + 1] == before[d]);
                    } else {
                        assert(list@[d] == before[d]);
                    }
                }
            }
            assert forall|a: int, b: int| 0 <= a < b < list@.len() implies list@[a].0@
                != list@[b].0@ by {
                if a != pos && b != pos {
                    let a0 = if a < pos { a } else { a - 1 };
                    let b0 = if b < pos { b } else { b - 1 };
                    assert(list@[a] == before[a0]);
                    assert(list@[b] == before[b0]);
                } else if a == pos {
                    assert(list@[b] == before[b - 1]);
                } else {
                    assert(list@[a] == before[a]);
                }
            }
            src = src2;
            dst = dst2;
        }
        i = i + 1;
    }
    (list, Ghost(src), Ghost(dst))
}

/// The output line of entries already in order.
#[verifier::rlimit(80)]
fn write_entries(sorted: &Vec<(Vec<u8>, Stats)>) -> (out: Vec<u8>)
    requires
        forall|a: int| 0 <= a < sorted@.len() ==> (#[trigger] sorted@[a]).1.wf(),
    ensures
        out@ == report_text(listing(sorted@)),
{
    let ghost es = listing(sorted@);
    let mut out: Vec<u8> = Vec::new();
    out.push(OPEN_BRACE);
    let mut i: usize = 0;
    while i < sorted.len()
        invariant
            i <= sorted@.len(),
            es == listing(sorted@),
            out@ == seq![OPEN_BRACE] + entries_text(es.take(i as int)),
            forall|a: int| 0 <= a < sorted@.len() ==> (#[trigger] sorted@[a]).1.wf(),
        decreases sorted@.len() - i,
    {
        let ghost prev = out@;
        if i > 0 {
            out.push(COMMA);
            out.push(SPACE);
        }
        let key = &sorted[i].0;
        let st = sorted[i].1;
        let mut b: usize = 0;
        while b < key.len()
            invariant
                b <= key@.len(),
                out@ == prev + (if i > 0 { seq![COMMA, SPACE] } else { Seq::empty() }) + key@.take(b as int),
            decreases key@.len() - b,
        {
            out.push(key[b]);
            assert(key@.take(b + 1) =~= key@.take(b as int).push(key@[b as int]));
            b = b + 1;
        }
        out.push(EQUALS);
        push_tenths(&mut out, st.min as i64);
        out.push(SLASH);
        let avg = st.avg();
        push_tenths(&mut out, avg);
        out.push(SLASH);
        push_tenths(&mut out, st.max as i64);
        proof {
            assert(key@.take(key@.len() as int) =~= key@);
            assert(es.take(i + 1).drop_last() =~= es.take(i as int));
            assert(es[i as int] == (key@, st@));
            assert(out@ =~= seq![OPEN_BRACE] + entries_text(es.take(i + 1)));
        }
        i = i + 1;
    }
    out.push(CLOSE_BRACE);
    proof {
        assert(es.take(es.len() as int) =~= es);
        assert(out@ =~= report_text(es));
    }
    out
}

/// The output line, without its newline, of a table: its entries as
/// `key=min/avg/max` in ascending byte order of the keys, joined by `, `,
/// within braces. Fails when a key is not valid UTF-8.
pub fn render_stats(table: StatsTable) -> (r: Result<Vec<u8>, FormatError>)
    requires
        table.wf(),
    ensures
        r is Ok <==> keys_text(table@),
        r matches Err(e) ==> e == FormatError::BadKeyEncoding,
        r matches Ok(out) ==> is_report_of(out@, table@),
{
    let ghost m = table@;
    let ghost tc = table_contents(table);
    let entries = table.into_entries();
    if !keys_are_text(&entries) {
        proof {
            let j = choose|j: int| 0 <= j < entries@.len() && !utf8_valid(#[trigger] entries@[j].0@);
            assert(tc.dom().contains(entries@[j].0@));
            assert(m.contains_key(entries@[j].0@));
        }
        return Err(FormatError::BadKeyEncoding);
    }
    proof {
        assert forall|k: Seq<u8>| #[trigger] m.contains_key(k) implies utf8_valid(k) by {
            assert(tc.dom().contains(k));
            let j = choose|j: int| 0 <= j < entries@.len() && entries@[j].0@ == k;
            assert(utf8_valid(entries@[j].0@));
        }
    }
    let (sorted, Ghost(src), Ghost(dst)) = sort_entries(&entries);
    let ghost es = listing(sorted@);
    proof {
        assert forall|a: int| 0 <= a < sorted@.len() implies m.contains_key((#[trigger] sorted@[a]).0@)
            && m[sorted@[a].0@] == sorted@[a].1@ && sorted@[a].1.wf() by {
            let j = src[a];
            assert(tc.dom().contains(entries@[j].0@));
        }
        assert forall|i: int| 0 <= i < es.len() implies #[trigger] m.contains_key(es[i].0) && m[es[i].0]
            == es[i].1 by {
            assert(m.contains_key(sorted@[i].0@));
        }
        assert forall|k: Seq<u8>| #[trigger] m.contains_key(k) implies exists|a: int|
            0 <= a < es.len() && es[a].0 == k by {
            assert(tc.dom().contains(k));
            let j = choose|j: int| 0 <= j < entries@.len() && entries@[j].0@ == k;
            let a = dst[j];
            assert(es[a].0 == k);
        }
        assert forall|a: int| 0 <= a < es.len() - 1 implies #[trigger] lex_lt(es[a].0, es[a + 1].0) by {
            assert(lex_lt(sorted@[a].0@, sorted@[a + 1].0@));
        }
        assert forall|a: int, b: int| 0 <= a < b < es.len() implies es[a].0 != es[b].0 by {
            assert(sorted@[a].0@ != sorted@[b].0@);
        }
        assert(is_sorted_listing(m, es));
    }
    Ok(write_entries(&sorted))
}

} // verus!
