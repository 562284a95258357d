//! The merged table of all workers, kept in ascending order of station name.
use vstd::prelude::*;
use std::cmp::Ordering;
use crate::order::{compare_names, lex_lt, lemma_lex_irreflexive, lemma_lex_transitive};
use crate::stats::{CityStats, Summary, summary_ok, combine};
use crate::table::{LocalTable, absorb, merge_maps, table_ok, counts_within};

verus! {

/// Station names with their aggregates, in strictly ascending lexicographic
/// order of name.
pub struct SortedTable {
    names: Vec<Vec<u8>>,
    stats: Vec<CityStats>,
    model: Ghost<Map<Seq<u8>, Summary>>,
}

impl SortedTable {
    pub closed spec fn len_spec(&self) -> nat {
        self.names@.len()
    }

    pub closed spec fn name_at(&self, i: int) -> Seq<u8> {
        self.names@[i]@
    }

    pub closed spec fn stats_at(&self, i: int) -> Summary {
        self.stats@[i]@
    }

    /// Each station name with its aggregate.
    pub closed spec fn view(&self) -> Map<Seq<u8>, Summary> {
        self.model@
    }

    /// The entries are in strictly ascending order and are exactly the
    /// stations of the table, each with its aggregate.
    pub closed spec fn wf(&self) -> bool {
        &&& self.names@.len() == self.stats@.len()
        &&& forall|a: int, b: int|
            0 <= a < b < self.names@.len() ==> lex_lt(#[trigger] self.name_at(a), #[trigger] self.name_at(b))
        &&& forall|i: int|
            0 <= i < self.names@.len() ==> self.model@.contains_key(#[trigger] self.name_at(i))
                && self.model@[self.name_at(i)] == self.stats_at(i)
        &&& forall|k: Seq<u8>| #[trigger]
            self.model@.contains_key(k) ==> exists|i: int|
                0 <= i < self.names@.len() && #[trigger] self.name_at(i) == k
    }

    /// What `wf` states, for callers: the entries at positions `0..len` are in
    /// strictly ascending order of name and are exactly the table's stations.
    pub proof fn lemma_entries(&self)
        requires
            self.wf(),
        ensures
            forall|a: int, b: int|
                0 <= a < b < self.len_spec() ==> lex_lt(#[trigger] self.name_at(a), #[trigger] self.name_at(b)),
            forall|i: int|
                0 <= i < self.len_spec() ==> self.view().contains_key(#[trigger] self.name_at(i))
                    && self.view()[self.name_at(i)] == self.stats_at(i),
            forall|k: Seq<u8>| #[trigger]
                self.view().contains_key(k) ==> exists|i: int|
                    0 <= i < self.len_spec() && #[trigger] self.name_at(i) == k,
    {
    }

    pub fn new() -> (r: SortedTable)
        ensures
            r.wf(),
            r.view() == Map::<Seq<u8>, Summary>::empty(),
            r.len_spec() == 0,
    {
        SortedTable { names: Vec::new(), stats: Vec::new(), model: Ghost(Map::empty()) }
    }

    /// Number of stations.
    pub fn len(&self) -> (r: usize)
        ensures
            r == self.len_spec(),
    {
        self.names.len()
    }

    /// The `i`-th station name in ascending order.
    pub fn name(&self, i: usize) -> (r: &Vec<u8>)
        requires
            self.wf(),
            i < self.len_spec(),
        ensures
            r@ == self.name_at(i as int),
    {
        &self.names[i]
    }

    /// The aggregate of the `i`-th station in ascending order.
    pub fn stats(&self, i: usize) -> (r: CityStats)
        requires
            self.wf(),
            i < self.len_spec(),
        ensures
            r@ == self.stats_at(i as int),
    {
        self.stats[i]
    }

    /// The largest count of readings of any station (0 for an empty table).
    pub fn max_count(&self) -> (r: u64)
        requires
            self.wf(),
        ensures
            counts_within(self.view(), r as int),
            self.len_spec() > 0 ==> exists|k: Seq<u8>| #[trigger]
                self.view().contains_key(k) && self.view()[k].count == r,
    {
        let mut m: u64 = 0;
        let mut i: usize = 0;
        while i < self.stats.len()
            invariant
                self.wf(),
                i <= self.stats@.len(),
                forall|j: int| 0 <= j < i ==> self.stats_at(j).count <= m,
                i > 0 ==> exists|j: int| 0 <= j < i && self.stats_at(j).count == m,
            decreases self.stats@.len() - i,
        {
            if self.stats[i].count > m || i == 0 {
                m = self.stats[i].count;
                assert(self.stats_at(i as int).count == m);
            }
            assert(exists|j: int| 0 <= j < i + 1 && self.stats_at(j).count == m);
            i = i + 1;
        }
        proof {
            assert forall|k: Seq<u8>| #[trigger] self.view().contains_key(k) implies self.view()[k].count
                <= m by {
                let j = choose|j: int| 0 <= j < self.names@.len() && #[trigger] self.name_at(j) == k;
            }
            if self.len_spec() > 0 {
                let j = choose|j: int| 0 <= j < i && self.stats_at(j).count == m;
                assert(self.view().contains_key(self.name_at(j)));
            }
        }
        m
    }

    /// Combines aggregate `s` into the entry of station `name`, adding the
    /// station in its place in the order if it is new.
    pub fn absorb(&mut self, name: &[u8], s: CityStats)
        requires
            old(self).wf(),
            table_ok(old(self).view()),
            summary_ok(s@),
            old(self).view().contains_key(name@) ==> old(self).view()[name@].count + s.count
                <= u64::MAX,
        ensures
            final(self).wf(),
            final(self).view() == absorb(old(self).view(), name@, s@),
            table_ok(final(self).view()),
    {
        let ghost t0 = *self;
        let mut lo: usize = 0;
        let mut hi: usize = self.names.len();
        while lo < hi
            invariant
                *self == t0,
                t0 == *old(self),
                self.wf(),
                table_ok(t0.view()),
                summary_ok(s@),
                t0.view().contains_key(name@) ==> t0.view()[name@].count + s.count <= u64::MAX,
                lo <= hi <= self.names@.len(),
                forall|a: int| 0 <= a < lo ==> lex_lt(#[trigger] self.name_at(a), name@),
                forall|b: int| hi <= b < self.names@.len() ==> lex_lt(name@, #[trigger] self.name_at(b)),
            decreases hi - lo,
        {
            let mid = lo + (hi - lo) / 2;
            match compare_names(self.names[mid].as_slice(), name) {
                Ordering::Less => {
                    assert forall|a: int| 0 <= a <= mid implies lex_lt(#[trigger] self.name_at(a), name@) by {
                        if a < mid {
                            lemma_lex_transitive(self.name_at(a), self.name_at(mid as int), name@);
                        }
                    }
                    lo = mid + 1;
                },
                Ordering::Greater => {
                    assert forall|b: int| mid <= b < self.names@.len() implies lex_lt(name@, #[trigger] self.name_at(b)) by {
                        if b > mid {
                            lemma_lex_transitive(name@, self.name_at(mid as int), self.name_at(b));
                        }
                    }
                    hi = mid;
                },
                Ordering::Equal => {
                    assert(self.name_at(mid as int) == name@);
                    assert(self.model@.contains_key(self.name_at(mid as int)));
                    assert(summary_ok(self.model@[name@]));
                    let mut merged = self.stats[mid];
                    merged.merge(&s);
                    self.stats.set(mid, merged);
                    self.model = Ghost(absorb(t0.model@, name@, s@));
                    proof {
                        assert forall|i: int| 0 <= i < self.names@.len() implies self.model@.contains_key(
                            #[trigger] self.name_at(i),
                        ) && self.model@[self.name_at(i)] == self.stats_at(i) by {
                            if i != mid {
                                assert(t0.name_at(i) == self.name_at(i));
                                if i < mid {
                                    assert(lex_lt(t0.name_at(i), t0.name_at(mid as int)));
                                } else {
                                    assert(lex_lt(t0.name_at(mid as int), t0.name_at(i)));
                                }
                                lemma_lex_irreflexive(name@);
                            }
                        }
                        assert forall|k: Seq<u8>| #[trigger] self.model@.contains_key(k) implies exists|i: int|
                            0 <= i < self.names@.len() && #[trigger] self.name_at(i) == k by {
                            assert(t0.model@.contains_key(k));
                            let i = choose|i: int| 0 <= i < t0.names@.len() && #[trigger] t0.name_at(i) == k;
                            assert(self.name_at(i) == k);
                        }
                        crate::stats::lemma_combine_ok(t0.model@[name@], s@);
                        assert(self.names@.len() == self.stats@.len());
                        assert(self.view() == absorb(t0.view(), name@, s@));
                        assert(self.names == t0.names);
                        assert forall|a: int, b: int|
                            0 <= a < b < self.names@.len() implies lex_lt(#[trigger] self.name_at(a), #[trigger] self.name_at(b)) by {
                            assert(lex_lt(t0.name_at(a), t0.name_at(b)));
                        }
                        assert(forall|i: int|
                            0 <= i < self.names@.len() ==> self.model@.contains_key(#[trigger] self.name_at(i))
                                && self.model@[self.name_at(i)] == self.stats_at(i));
                        assert(forall|k: Seq<u8>| #[trigger]
                            self.model@.contains_key(k) ==> exists|i: int|
                                0 <= i < self.names@.len() && #[trigger] self.name_at(i) == k);
                        assert(self.wf());
                    }
                    return;
                },
            }
        }
        proof {
            // the name is new: every entry sorts strictly before or after it
            lemma_lex_irreflexive(name@);
            if t0.model@.contains_key(name@) {
                let i = choose|i: int| 0 <= i < t0.names@.len() && #[trigger] t0.name_at(i) == name@;
                assert(lex_lt(t0.name_at(i), name@) || lex_lt(name@, t0.name_at(i)));
            }
        }
        self.names.insert(lo, vstd::slice::slice_to_vec(name));
        self.stats.insert(lo, s);
        self.model = Ghost(t0.model@.insert(name@, s@));
        proof {
            assert(self.name_at(lo as int) == name@);
            assert forall|i: int| 0 <= i < self.names@.len() implies #[trigger] self.name_at(i) == if i < lo {
                t0.name_at(i)
            } else if i == lo {
                name@
            } else {
                t0.name_at(i - 1)
            } by {}
            assert forall|i: int| 0 <= i < self.names@.len() implies #[trigger] self.stats_at(i) == if i < lo {
                t0.stats_at(i)
            } else if i == lo {
                s@
            } else {
                t0.stats_at(i - 1)
            } by {}
            assert forall|a: int, b: int|
                0 <= a < b < self.names@.len() implies lex_lt(#[trigger] self.name_at(a), #[trigger] self.name_at(b)) by {
                if a < lo && b > lo {
                    lemma_lex_transitive(t0.name_at(a), name@, t0.name_at(b - 1));
                } else if a < lo && b < lo {
                    assert(lex_lt(t0.name_at(a), t0.name_at(b)));
                } else if a > lo {
                    assert(lex_lt(t0.name_at(a - 1), t0.name_at(b - 1)));
                }
            }
            assert forall|i: int| 0 <= i < self.names@.len() implies self.model@.contains_key(
                #[trigger] self.name_at(i),
            ) && self.model@[self.name_at(i)] == self.stats_at(i) by {
                if i < lo {
                    assert(t0.model@.contains_key(t0.name_at(i)));
                } else if i > lo {
                    assert(t0.model@.contains_key(t0.name_at(i - 1)));
                }
            }
            assert forall|k: Seq<u8>| #[trigger] self.model@.contains_key(k) implies exists|i: int|
                0 <= i < self.names@.len() && #[trigger] self.name_at(i) == k by {
                if k != name@ {
                    assert(t0.model@.contains_key(k));
                    let i = choose|i: int| 0 <= i < t0.names@.len() && #[trigger] t0.name_at(i) == k;
                    if i < lo {
                        assert(self.name_at(i) == k);
                    } else {
                        assert(self.name_at(i + 1) == k);
                    }
                } else {
                    assert(self.name_at(lo as int) == k);
                }
            }
        }
    }

    /// Merges a worker's table into this one: a station in both gets the
    /// combined aggregate, one in either keeps its own.
    pub fn merge_local(&mut self, t: &LocalTable)
        requires
            old(self).wf(),
            table_ok(old(self).view()),
            t.wf(),
            table_ok(t.view()),
            forall|k: Seq<u8>|
                old(self).view().contains_key(k) && t.view().contains_key(k) ==> #[trigger] old(
                    self,
                ).view()[k].count + t.view()[k].count <= u64::MAX,
        ensures
            final(self).wf(),
            table_ok(final(self).view()),
            final(self).view() == merge_maps(old(self).view(), t.view()),
    {
        let ghost g0 = self.view();
        proof {
            t.lemma_entries();
            assert(merge_maps(g0, partial(t, 0)) =~= g0);
        }
        let n = t.len();
        let mut i: usize = 0;
        while i < n
            invariant
                n == t.len_spec(),
                i <= n,
                t.wf(),
                table_ok(t.view()),
                self.wf(),
                table_ok(self.view()),
                self.view() == merge_maps(g0, partial(t, i as int)),
                forall|k: Seq<u8>|
                    g0.contains_key(k) && t.view().contains_key(k) ==> #[trigger] g0[k].count
                        + t.view()[k].count <= u64::MAX,
            decreases n - i,
        {
            let ghost p = partial(t, i as int);
            let ghost k = t.name_at(i as int);
            proof {
                t.lemma_entries();
                assert(!p.contains_key(k)) by {
                    if p.contains_key(k) {
                        let j = choose|j: int| 0 <= j < i && #[trigger] t.name_at(j) == k;
                    }
                }
                assert(partial(t, i + 1) =~= p.insert(k, t.stats_at(i as int))) by {
                    assert forall|x: Seq<u8>| p.contains_key(x) implies partial(t, i + 1).contains_key(x) by {
                        let j = choose|j: int| 0 <= j < i && #[trigger] t.name_at(j) == x;
                    }
                }
                assert(merge_maps(g0, partial(t, i + 1)) =~= absorb(merge_maps(g0, p), k, t.stats_at(i as int)));
            }
            self.absorb(t.name(i).as_slice(), t.stats(i));
            i = i + 1;
        }
        proof {
            t.lemma_entries();
            assert(partial(t, n as int) =~= t.view());
        }
    }
}

/// The stations of `t` among its first `i` positions, with their aggregates.
pub open spec fn partial(t: &LocalTable, i: int) -> Map<Seq<u8>, Summary> {
    Map::new(
        |k: Seq<u8>| t.view().contains_key(k) && exists|j: int| 0 <= j < i && #[trigger] t.name_at(j) == k,
        |k: Seq<u8>| t.view()[k],
    )
}

} // verus!
