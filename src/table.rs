//! Station tables: the model of folding readings into per-station aggregates,
//! the laws of merging tables, and the hashed table one worker fills.
use vstd::prelude::*;
use rustc_hash::FxHashMap;
use rustc_hash::FxBuildHasher;
use crate::stats::{CityStats, Summary, single, combine, summary_ok};

verus! {

/// The aggregate table after folding reading `r` (station name, tenths) into `m`.
pub open spec fn add_reading(m: Map<Seq<u8>, Summary>, r: (Seq<u8>, int)) -> Map<Seq<u8>, Summary> {
    absorb(m, r.0, single(r.1))
}

/// `m` with aggregate `s` combined into the entry of station `k`.
pub open spec fn absorb(m: Map<Seq<u8>, Summary>, k: Seq<u8>, s: Summary) -> Map<Seq<u8>, Summary> {
    if m.contains_key(k) {
        m.insert(k, combine(m[k], s))
    } else {
        m.insert(k, s)
    }
}

/// The table of aggregates of a sequence of readings, folded in order.
pub open spec fn fold_readings(rs: Seq<(Seq<u8>, int)>) -> Map<Seq<u8>, Summary>
    decreases rs.len(),
{
    if rs.len() == 0 {
        Map::empty()
    } else {
        add_reading(fold_readings(rs.drop_last()), rs.last())
    }
}

/// Two tables merged: a station in both gets the combined aggregate, a station
/// in one of them keeps its own.
pub open spec fn merge_maps(a: Map<Seq<u8>, Summary>, b: Map<Seq<u8>, Summary>) -> Map<
    Seq<u8>,
    Summary,
> {
    Map::new(
        |k: Seq<u8>| a.contains_key(k) || b.contains_key(k),
        |k: Seq<u8>|
            if a.contains_key(k) && b.contains_key(k) {
                combine(a[k], b[k])
            } else if a.contains_key(k) {
                a[k]
            } else {
                b[k]
            },
    )
}

/// Every aggregate of the table is one of readings within -99.9 ..= 99.9.
pub open spec fn table_ok(m: Map<Seq<u8>, Summary>) -> bool {
    forall|k: Seq<u8>| #[trigger] m.contains_key(k) ==> summary_ok(m[k])
}

/// No station of the table has more than `bound` readings.
pub open spec fn counts_within(m: Map<Seq<u8>, Summary>, bound: int) -> bool {
    forall|k: Seq<u8>| #[trigger] m.contains_key(k) ==> m[k].count <= bound
}

/// Merging two tables does not depend on their order.
pub proof fn lemma_merge_commutative(a: Map<Seq<u8>, Summary>, b: Map<Seq<u8>, Summary>)
    ensures
        merge_maps(a, b) == merge_maps(b, a),
{
    assert(merge_maps(a, b) =~= merge_maps(b, a));
}

/// Merging tables does not depend on their grouping.
pub proof fn lemma_merge_associative(
    a: Map<Seq<u8>, Summary>,
    b: Map<Seq<u8>, Summary>,
    c: Map<Seq<u8>, Summary>,
)
    ensures
        merge_maps(merge_maps(a, b), c) == merge_maps(a, merge_maps(b, c)),
{
    assert(merge_maps(merge_maps(a, b), c) =~= merge_maps(a, merge_maps(b, c)));
}

/// Folding a sequence of readings cut in two, then merging the two tables,
/// gives the table of the whole sequence.
pub proof fn lemma_fold_concat(r1: Seq<(Seq<u8>, int)>, r2: Seq<(Seq<u8>, int)>)
    ensures
        fold_readings(r1 + r2) == merge_maps(fold_readings(r1), fold_readings(r2)),
    decreases r2.len(),
{
    if r2.len() == 0 {
        assert(r1 + r2 =~= r1);
        assert(merge_maps(fold_readings(r1), Map::empty()) =~= fold_readings(r1));
    } else {
        let r2p = r2.drop_last();
        lemma_fold_concat(r1, r2p);
        assert((r1 + r2).drop_last() =~= r1 + r2p);
        assert((r1 + r2).last() == r2.last());
        let f1 = fold_readings(r1);
        let f2 = fold_readings(r2p);
        let x = r2.last();
        assert(add_reading(merge_maps(f1, f2), x) =~= merge_maps(f1, add_reading(f2, x)));
    }
}

/// The table of readings within -99.9 ..= 99.9 holds valid aggregates, none
/// with more readings than the sequence has.
pub proof fn lemma_fold_ok(rs: Seq<(Seq<u8>, int)>)
    requires
        forall|i: int| 0 <= i < rs.len() ==> -999 <= #[trigger] rs[i].1 <= 999,
    ensures
        table_ok(fold_readings(rs)),
        counts_within(fold_readings(rs), rs.len() as int),
    decreases rs.len(),
{
    if rs.len() > 0 {
        let p = rs.drop_last();
        assert forall|i: int| 0 <= i < p.len() implies -999 <= #[trigger] p[i].1 <= 999 by {
            assert(p[i] == rs[i]);
        }
        lemma_fold_ok(p);
        let m = fold_readings(p);
        let x = rs.last();
        assert(-999 <= x.1 <= 999);
        if m.contains_key(x.0) {
            crate::stats::lemma_combine_ok(m[x.0], single(x.1));
        }
    }
}

/// Merging two valid tables gives a valid table.
pub proof fn lemma_merge_ok(a: Map<Seq<u8>, Summary>, b: Map<Seq<u8>, Summary>, na: int, nb: int)
    requires
        table_ok(a),
        table_ok(b),
        counts_within(a, na),
        counts_within(b, nb),
        0 <= na,
        0 <= nb,
    ensures
        table_ok(merge_maps(a, b)),
        counts_within(merge_maps(a, b), na + nb),
{
    let m = merge_maps(a, b);
    assert forall|k: Seq<u8>| #[trigger] m.contains_key(k) implies summary_ok(m[k]) && m[k].count
        <= na + nb by {
        if a.contains_key(k) && b.contains_key(k) {
            crate::stats::lemma_combine_ok(a[k], b[k]);
        }
    }
}

/// Which position each station name of a table has, held in a hash map.
#[verifier::external_body]
pub struct NameIndex {
    map: FxHashMap<Vec<u8>, usize>,
}

/// The names a `NameIndex` holds, each with its position.
pub uninterp spec fn index_contents(ix: NameIndex) -> Map<Seq<u8>, usize>;

impl NameIndex {
    /// Relies on `HashMap::with_capacity_and_hasher`: a new map is empty.
    #[verifier::external_body]
    fn with_capacity(capacity: usize) -> (r: NameIndex)
        ensures
            index_contents(r) =~= Map::empty(),
    {
        NameIndex { map: FxHashMap::with_capacity_and_hasher(capacity, FxBuildHasher) }
    }

    /// Relies on `HashMap::get`: the value stored under a key equal to `key`.
    #[verifier::external_body]
    fn get(&self, key: &[u8]) -> (r: Option<usize>)
        ensures
            match r {
                Some(i) => index_contents(*self).contains_key(key@) && index_contents(*self)[key@]
                    == i,
                None => !index_contents(*self).contains_key(key@),
            },
    {
        self.map.get(key).copied()
    }

    /// Relies on `HashMap::insert`: the key now maps to `i`, other keys keep theirs.
    #[verifier::external_body]
    fn insert(&mut self, key: &[u8], i: usize)
        ensures
            index_contents(*final(self)) == index_contents(*old(self)).insert(key@, i),
    {
        self.map.insert(key.to_vec(), i);
    }
}

/// Distinct station names a worker's table is sized for.
pub const MAX_CITIES: usize = 8893;

/// One worker's table: names and aggregates in order of first sighting, and a
/// hash index from name to position.
pub struct LocalTable {
    index: NameIndex,
    names: Vec<Vec<u8>>,
    stats: Vec<CityStats>,
}

impl LocalTable {
    pub closed spec fn len_spec(&self) -> nat {
        self.names@.len()
    }

    pub closed spec fn name_at(&self, i: int) -> Seq<u8> {
        self.names@[i]@
    }

    pub closed spec fn stats_at(&self, i: int) -> Summary {
        self.stats@[i]@
    }

    pub closed spec fn position_of(&self) -> Map<Seq<u8>, usize> {
        index_contents(self.index)
    }

    /// The index maps each name to its position and holds no other name.
    pub closed spec fn wf(&self) -> bool {
        &&& self.names@.len() == self.stats@.len()
        &&& forall|i: int|
            0 <= i < self.names@.len() ==> self.position_of().contains_key(#[trigger] self.name_at(i))
                && self.position_of()[self.name_at(i)] == i
        &&& forall|k: Seq<u8>| #[trigger]
            self.position_of().contains_key(k) ==> self.position_of()[k] < self.names@.len()
                && self.name_at(self.position_of()[k] as int) == k
    }

    /// Each station name with its aggregate.
    pub closed spec fn view(&self) -> Map<Seq<u8>, Summary> {
        Map::new(
            |k: Seq<u8>| self.position_of().contains_key(k),
            |k: Seq<u8>| self.stats_at(self.position_of()[k] as int),
        )
    }

    /// The stations of the table are those at positions `0..len`, each with
    /// the aggregate at its position.
    pub proof fn lemma_entries(&self)
        requires
            self.wf(),
        ensures
            forall|i: int|
                0 <= i < self.len_spec() ==> self.view().contains_key(#[trigger] self.name_at(i))
                    && self.view()[self.name_at(i)] == self.stats_at(i),
            forall|k: Seq<u8>| #[trigger]
                self.view().contains_key(k) ==> exists|i: int|
                    0 <= i < self.len_spec() && #[trigger] self.name_at(i) == k,
            forall|i: int, j: int|
                0 <= i < j < self.len_spec() ==> #[trigger] self.name_at(i) != #[trigger] self.name_at(j),
    {
        assert forall|k: Seq<u8>| #[trigger] self.view().contains_key(k) implies exists|i: int|
            0 <= i < self.len_spec() && #[trigger] self.name_at(i) == k by {
            let i = self.position_of()[k] as int;
            assert(self.name_at(i) == k);
        }
    }

    pub fn new() -> (r: LocalTable)
        ensures
            r.wf(),
            r.view() == Map::<Seq<u8>, Summary>::empty(),
            r.len_spec() == 0,
    {
        let r = LocalTable {
            index: NameIndex::with_capacity(MAX_CITIES),
            names: Vec::new(),
            stats: Vec::new(),
        };
        assert(r.view() =~= Map::<Seq<u8>, Summary>::empty());
        r
    }

    /// Number of distinct stations.
    pub fn len(&self) -> (r: usize)
        ensures
            r == self.len_spec(),
    {
        self.names.len()
    }

    /// The name of the `i`-th station, in order of first sighting.
    pub fn name(&self, i: usize) -> (r: &Vec<u8>)
        requires
            self.wf(),
            i < self.len_spec(),
        ensures
            r@ == self.name_at(i as int),
    {
        &self.names[i]
    }

    /// The aggregate of the `i`-th station, in order of first sighting.
    pub fn stats(&self, i: usize) -> (r: CityStats)
        requires
            self.wf(),
            i < self.len_spec(),
        ensures
            r@ == self.stats_at(i as int),
    {
        self.stats[i]
    }

    /// Folds reading `temp` of station `name` into the table.
    pub fn add(&mut self, name: &[u8], temp: i16)
        requires
            old(self).wf(),
            table_ok(old(self).view()),
            -999 <= temp <= 999,
            counts_within(old(self).view(), u64::MAX - 1),
        ensures
            final(self).wf(),
            final(self).view() == add_reading(old(self).view(), (name@, temp as int)),
    {
        let ghost v0 = self.view();
        match self.index.get(name) {
            Some(i) => {
                let ghost t0 = *self;
                let mut s = self.stats[i];
                assert(v0.contains_key(name@));
                s.add_temp(temp);
                self.stats.set(i, s);
                assert(self.position_of() == t0.position_of());
                assert forall|j: int| 0 <= j < self.names@.len() implies #[trigger] self.name_at(j)
                    == t0.name_at(j) by {}
                assert(self.wf());
                assert(self.view() =~= add_reading(v0, (name@, temp as int)));
            },
            None => {
                let ghost t0 = *self;
                let i = self.names.len();
                self.index.insert(name, i);
                self.names.push(vstd::slice::slice_to_vec(name));
                self.stats.push(CityStats::from_temp(temp));
                assert(self.name_at(i as int) == name@);
                assert forall|j: int| 0 <= j < self.names@.len() implies self.position_of().contains_key(
                    #[trigger] self.name_at(j),
                ) && self.position_of()[self.name_at(j)] == j by {
                    if j < i {
                        assert(self.name_at(j) == t0.name_at(j));
                        assert(t0.position_of().contains_key(t0.name_at(j)));
                        assert(self.name_at(j) != name@);
                    }
                }
                assert forall|k: Seq<u8>| #[trigger]
                    self.position_of().contains_key(k) implies self.position_of()[k]
                    < self.names@.len() && self.name_at(self.position_of()[k] as int) == k by {
                    if k != name@ {
                        assert(t0.position_of().contains_key(k));
                    }
                }
                assert(self.view() =~= add_reading(v0, (name@, temp as int)));
                assert(self.wf());
            },
        }
    }
}

} // verus!
