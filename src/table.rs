//! The table from key bytes to `Stats`, held in an ahash map.

use vstd::prelude::*;
use crate::stats::{Stats, Summary};
use ahash::HashMapExt;

verus! {

/// A table from key bytes to statistics, keys unique, in no order.
#[verifier::external_body]
pub struct StatsTable {
    map: ahash::HashMap<Vec<u8>, Stats>,
}

/// What a table holds: each key's bytes and its statistics.
pub uninterp spec fn table_contents(t: StatsTable) -> Map<Seq<u8>, Stats>;

impl View for StatsTable {
    type V = Map<Seq<u8>, Summary>;

    open spec fn view(&self) -> Map<Seq<u8>, Summary> {
        Map::new(
            |k: Seq<u8>| table_contents(*self).dom().contains(k),
            |k: Seq<u8>| table_contents(*self)[k]@,
        )
    }
}

/// `es` holds each entry of `tc` once.
pub open spec fn lists_contents(tc: Map<Seq<u8>, Stats>, es: Seq<(Vec<u8>, Stats)>) -> bool {
    &&& forall|j: int|
        0 <= j < es.len() ==> #[trigger] tc.dom().contains(es[j].0@) && tc[es[j].0@] == es[j].1
    &&& forall|k: Seq<u8>|
        #[trigger] tc.dom().contains(k) ==> exists|j: int| 0 <= j < es.len() && es[j].0@ == k
    &&& forall|a: int, b: int| 0 <= a < b < es.len() ==> es[a].0@ != es[b].0@
}

impl StatsTable {
    /// Each entry holds well-formed statistics.
    pub open spec fn wf(&self) -> bool {
        forall|k: Seq<u8>| #[trigger]
            table_contents(*self).dom().contains(k) ==> table_contents(*self)[k].wf()
    }

    /// Relies on ahash's `HashMapExt::new`: a new map is empty.
    #[verifier::external_body]
    pub(crate) fn new() -> (r: Self)
        ensures
            table_contents(r).dom().is_empty(),
    {
        StatsTable { map: ahash::HashMap::new() }
    }

    /// Relies on `HashMap::get`: the value stored under `key`, if any.
    #[verifier::external_body]
    pub(crate) fn get(&self, key: &[u8]) -> (r: Option<Stats>)
        ensures
            r == (if table_contents(*self).dom().contains(key@) {
                Some(table_contents(*self)[key@])
            } else {
                None::<Stats>
            }),
    {
        self.map.get(key).copied()
    }

    /// Relies on `HashMap::insert`: `key` then maps to `value`, the rest is kept.
    #[verifier::external_body]
    pub(crate) fn insert(&mut self, key: Vec<u8>, value: Stats)
        ensures
            table_contents(*final(self)) == table_contents(*old(self)).insert(key@, value),
    {
        self.map.insert(key, value);
    }

    /// Relies on `HashMap::into_iter`: every entry once, in some order.
    #[verifier::external_body]
    pub(crate) fn into_entries(self) -> (r: Vec<(Vec<u8>, Stats)>)
        ensures
            lists_contents(table_contents(self), r@),
    {
        self.map.into_iter().collect()
    }
}

impl StatsTable {
    /// A table with no entries.
    pub fn empty() -> (r: Self)
        ensures
            r@ == Map::<Seq<u8>, Summary>::empty(),
            r.wf(),
    {
        let t = Self::new();
        proof {
            lemma_view_empty(t);
        }
        t
    }

    /// The statistics of `key`, if the table holds it.
    pub fn stats_of(&self, key: &[u8]) -> (r: Option<Stats>)
        ensures
            r is None <==> !self@.contains_key(key@),
            r matches Some(s) ==> s@ == self@[key@],
    {
        self.get(key)
    }
}

pub proof fn lemma_view_insert(t: StatsTable, u: StatsTable, k: Seq<u8>, s: Stats)
    requires
        table_contents(u) == table_contents(t).insert(k, s),
    ensures
        u@ == t@.insert(k, s@),
{
    assert(u@ =~= t@.insert(k, s@));
}

pub proof fn lemma_view_empty(t: StatsTable)
    requires
        table_contents(t).dom().is_empty(),
    ensures
        t@ == Map::<Seq<u8>, Summary>::empty(),
{
    assert(t@ =~= Map::<Seq<u8>, Summary>::empty()) by {
        assert forall|k: Seq<u8>| !t@.dom().contains(k) by {
            assert(!table_contents(t).dom().contains(k));
        }
    }
}

} // verus!
