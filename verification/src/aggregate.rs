//! The aggregate map: per-key running statistics, keys unique and held in
//! ascending lexicographic order (the order of the emitted output).
//!
//! Each worker fills one map from its own records; maps are then combined
//! pairwise with [`AggregateMap::merge_from`], whose spec-level counterpart
//! [`merge_model`] is associative and commutative.

use vstd::pervasive::VecAdditionalExecFns;
use vstd::prelude::*;
use vstd::utf8::valid_utf8;

verus! {

use crate::order::KeyOrder;
use crate::order::lemma_lex_asym;
use crate::order::lemma_lex_trans;
use crate::order::lex_cmp;
use crate::order::lex_lt;
use crate::stats::Stats;
use crate::stats::StatsModel;
use crate::stats::VALUE_LIMIT;
use crate::stats::lemma_stats_merge_one;
use crate::stats::stats_add;
use crate::stats::stats_merge;
use crate::stats::stats_one;
use crate::stats::stats_wf;

/// Keys strictly ascending: no duplicates, output order ready.
pub open spec fn sorted_keys(ks: Seq<Seq<u8>>) -> bool {
    forall|a: int, b: int| 0 <= a < b < ks.len() ==> lex_lt(#[trigger] ks[a], #[trigger] ks[b])
}

/// Some position holds the key `k`.
pub open spec fn has_key(ks: Seq<Seq<u8>>, k: Seq<u8>) -> bool {
    exists|t: int| 0 <= t < ks.len() && ks[t] == k
}

/// The position holding the key `k`, when there is one.
pub open spec fn idx_of(ks: Seq<Seq<u8>>, k: Seq<u8>) -> int {
    choose|t: int| 0 <= t < ks.len() && ks[t] == k
}

/// The mapping that a key column and a statistics column represent.
pub open spec fn map_of(ks: Seq<Seq<u8>>, ss: Seq<StatsModel>) -> Map<Seq<u8>, StatsModel> {
    Map::new(|k: Seq<u8>| has_key(ks, k), |k: Seq<u8>| ss[idx_of(ks, k)])
}

/// Absorb one key's statistics into a mapping: combine with the present
/// entry, or insert the statistics as they are.
pub open spec fn merge_step(m: Map<Seq<u8>, StatsModel>, k: Seq<u8>, s: StatsModel) -> Map<
    Seq<u8>,
    StatsModel,
> {
    m.insert(k, if m.contains_key(k) { stats_merge(m[k], s) } else { s })
}

/// Record one reading into a mapping.
pub open spec fn agg_step(m: Map<Seq<u8>, StatsModel>, k: Seq<u8>, v: int) -> Map<
    Seq<u8>,
    StatsModel,
> {
    m.insert(k, if m.contains_key(k) { stats_add(m[k], v) } else { stats_one(v) })
}

/// The combination of two mappings: the union of their keys, shared keys
/// merged pointwise.
pub open spec fn merge_model(a: Map<Seq<u8>, StatsModel>, b: Map<Seq<u8>, StatsModel>) -> Map<
    Seq<u8>,
    StatsModel,
> {
    Map::new(
        |k: Seq<u8>| a.contains_key(k) || b.contains_key(k),
        |k: Seq<u8>|
            if a.contains_key(k) && b.contains_key(k) {
                stats_merge(a[k], b[k])
            } else if b.contains_key(k) {
                b[k]
            } else {
                a[k]
            },
    )
}

/// No shared key's counts overflow when the two mappings are combined.
pub open spec fn mergeable(a: Map<Seq<u8>, StatsModel>, b: Map<Seq<u8>, StatsModel>) -> bool {
    forall|k: Seq<u8>|
        #[trigger] a.contains_key(k) && #[trigger] b.contains_key(k) ==> a[k].count + b[k].count
            <= u64::MAX
}

/// Recording a reading is absorbing a one-reading statistic.
pub proof fn lemma_agg_step_is_merge_step(m: Map<Seq<u8>, StatsModel>, k: Seq<u8>, v: int)
    ensures
        agg_step(m, k, v) == merge_step(m, k, stats_one(v)),
{
    if m.contains_key(k) {
        lemma_stats_merge_one(m[k], v);
    }
}

/// In a sorted key column every key sits at exactly one position.
proof fn lemma_idx_of_unique(ks: Seq<Seq<u8>>, t: int)
    requires
        sorted_keys(ks),
        0 <= t < ks.len(),
    ensures
        has_key(ks, ks[t]),
        idx_of(ks, ks[t]) == t,
{
    assert(has_key(ks, ks[t]));
    let t2 = idx_of(ks, ks[t]);
    assert(0 <= t2 < ks.len() && ks[t2] == ks[t]);
    if t2 < t {
        lemma_lex_asym(ks[t2], ks[t]);
    }
    if t < t2 {
        lemma_lex_asym(ks[t], ks[t2]);
    }
}

/// Each position of the columns is an entry of the mapping.
proof fn lemma_map_of_index(ks: Seq<Seq<u8>>, ss: Seq<StatsModel>, t: int)
    requires
        sorted_keys(ks),
        ss.len() == ks.len(),
        0 <= t < ks.len(),
    ensures
        map_of(ks, ss).contains_key(ks[t]),
        map_of(ks, ss)[ks[t]] == ss[t],
{
    lemma_idx_of_unique(ks, t);
}

/// Replacing one position's statistics is a mapping insert at its key.
proof fn lemma_map_of_update(ks: Seq<Seq<u8>>, ss: Seq<StatsModel>, t: int, s2: StatsModel)
    requires
        sorted_keys(ks),
        ss.len() == ks.len(),
        0 <= t < ks.len(),
    ensures
        map_of(ks, ss.update(t, s2)) == map_of(ks, ss).insert(ks[t], s2),
{
    let lhs = map_of(ks, ss.update(t, s2));
    let rhs = map_of(ks, ss).insert(ks[t], s2);
    lemma_idx_of_unique(ks, t);
    assert forall|k: Seq<u8>| lhs.contains_key(k) implies rhs.contains_key(k) && lhs[k] == rhs[k] by {
        let u = idx_of(ks, k);
        assert(0 <= u < ks.len() && ks[u] == k);
        lemma_idx_of_unique(ks, u);
        if u == t {
            assert(lhs[k] == s2);
        } else {
            assert(k != ks[t]);
        }
    }
    assert forall|k: Seq<u8>| rhs.contains_key(k) implies lhs.contains_key(k) by {}
    assert(lhs =~= rhs);
}

/// Inserting a fresh key at its ordered position keeps the column sorted
/// and is a mapping insert.
proof fn lemma_map_of_insert(
    ks: Seq<Seq<u8>>,
    ss: Seq<StatsModel>,
    t: int,
    k2: Seq<u8>,
    s2: StatsModel,
)
    requires
        sorted_keys(ks),
        ss.len() == ks.len(),
        0 <= t <= ks.len(),
        forall|j: int| 0 <= j < t ==> lex_lt(#[trigger] ks[j], k2),
        t < ks.len() ==> lex_lt(k2, ks[t]),
    ensures
        sorted_keys(ks.insert(t, k2)),
        map_of(ks.insert(t, k2), ss.insert(t, s2)) == map_of(ks, ss).insert(k2, s2),
{
    let ks2 = ks.insert(t, k2);
    let ss2 = ss.insert(t, s2);
    ks.insert_ensures(t, k2);
    ss.insert_ensures(t, s2);
    assert forall|a: int, b: int| 0 <= a < b < ks2.len() implies lex_lt(ks2[a], ks2[b]) by {
        if a < t && b < t {
        } else if a < t && b == t {
        } else if a < t && b > t {
            if t < ks.len() && b - 1 > t {
                lemma_lex_trans(ks[a], k2, ks[t]);
            }
            assert(ks2[b] == ks[b - 1]);
            if b - 1 == t {
            } else {
                lemma_lex_trans(ks[a], ks[t], ks[b - 1]);
            }
        } else if a == t {
            assert(ks2[b] == ks[b - 1]);
            if b - 1 == t {
            } else {
                lemma_lex_trans(k2, ks[t], ks[b - 1]);
            }
        } else {
            assert(ks2[a] == ks[a - 1]);
            assert(ks2[b] == ks[b - 1]);
        }
    }
    let lhs = map_of(ks2, ss2);
    let rhs = map_of(ks, ss).insert(k2, s2);
    assert forall|k: Seq<u8>| lhs.contains_key(k) implies rhs.contains_key(k) && lhs[k] == rhs[k] by {
        let u = idx_of(ks2, k);
        assert(0 <= u < ks2.len() && ks2[u] == k);
        lemma_idx_of_unique(ks2, u);
        if u == t {
            assert(lhs[k] == s2);
        } else if u < t {
            lemma_lex_asym(ks[u], k2);
            lemma_idx_of_unique(ks, u);
            assert(has_key(ks, k));
            assert(lhs[k] == ss[u]);
        } else {
            assert(ks2[u] == ks[u - 1]);
            lemma_lex_asym(k2, ks2[u]);
            lemma_idx_of_unique(ks, u - 1);
            assert(has_key(ks, k));
            assert(lhs[k] == ss[u - 1]);
        }
    }
    assert forall|k: Seq<u8>| rhs.contains_key(k) implies lhs.contains_key(k) by {
        if k == k2 {
            assert(ks2[t] == k);
        } else {
            let u = idx_of(ks, k);
            assert(0 <= u < ks.len() && ks[u] == k);
            if u < t {
                assert(ks2[u] == k);
            } else {
                assert(ks2[u + 1] == k);
            }
        }
    }
    assert(lhs =~= rhs);
}

/// Absorbing the first `t` positions of a pair of columns, left to right.
pub open spec fn merge_seq(
    m: Map<Seq<u8>, StatsModel>,
    ks: Seq<Seq<u8>>,
    ss: Seq<StatsModel>,
    t: int,
) -> Map<Seq<u8>, StatsModel>
    decreases t,
{
    if t <= 0 {
        m
    } else {
        merge_step(merge_seq(m, ks, ss, t - 1), ks[t - 1], ss[t - 1])
    }
}

/// A prefix of a sorted column is sorted.
proof fn lemma_sorted_take(ks: Seq<Seq<u8>>, t: int)
    requires
        sorted_keys(ks),
        0 <= t <= ks.len(),
    ensures
        sorted_keys(ks.take(t)),
{
    assert forall|a: int, b: int| 0 <= a < b < ks.take(t).len() implies lex_lt(
        #[trigger] ks.take(t)[a],
        #[trigger] ks.take(t)[b],
    ) by {
        assert(ks.take(t)[a] == ks[a]);
        assert(ks.take(t)[b] == ks[b]);
    }
}

/// Absorbing a sorted column entry by entry combines the two mappings
/// pointwise.
proof fn lemma_merge_seq_is_merge_model(
    m: Map<Seq<u8>, StatsModel>,
    ks: Seq<Seq<u8>>,
    ss: Seq<StatsModel>,
    t: int,
)
    requires
        sorted_keys(ks),
        ss.len() == ks.len(),
        0 <= t <= ks.len(),
    ensures
        merge_seq(m, ks, ss, t) == merge_model(m, map_of(ks.take(t), ss.take(t))),
    decreases t,
{
    if t == 0 {
        assert forall|k: Seq<u8>| !has_key(ks.take(0), k) by {}
        assert(map_of(ks.take(0), ss.take(0)) =~= Map::<Seq<u8>, StatsModel>::empty());
        assert(merge_model(m, Map::<Seq<u8>, StatsModel>::empty()) =~= m);
    } else {
        lemma_merge_seq_is_merge_model(m, ks, ss, t - 1);
        lemma_sorted_take(ks, t - 1);
        let kt = ks[t - 1];
        let st = ss[t - 1];
        let kprev = ks.take(t - 1);
        let sprev = ss.take(t - 1);
        let mprev = map_of(kprev, sprev);
        assert(!mprev.contains_key(kt)) by {
            if has_key(kprev, kt) {
                let u = choose|u: int| 0 <= u < kprev.len() && kprev[u] == kt;
                assert(ks[u] == kt);
                lemma_lex_asym(ks[u], ks[t - 1]);
            }
        }
        lemma_map_of_insert(kprev, sprev, t - 1, kt, st);
        assert(kprev.insert(t - 1, kt) =~= ks.take(t));
        assert(sprev.insert(t - 1, st) =~= ss.take(t));
        let lhs = merge_step(merge_model(m, mprev), kt, st);
        let rhs = merge_model(m, mprev.insert(kt, st));
        assert(lhs =~= rhs);
    }
}

/// The aggregate map.  The key column ascends strictly; position `t` of the
/// statistics column belongs to position `t` of the key column.
pub struct AggregateMap {
    keys: Vec<Vec<u8>>,
    stats: Vec<Stats>,
}

impl View for AggregateMap {
    type V = Map<Seq<u8>, StatsModel>;

    closed spec fn view(&self) -> Map<Seq<u8>, StatsModel> {
        map_of(self.key_seq(), self.stats_seq())
    }
}

impl AggregateMap {
    /// The keys present, in storage (and output) order.
    pub closed spec fn key_seq(&self) -> Seq<Seq<u8>> {
        self.keys@.map_values(|k: Vec<u8>| k@)
    }

    /// The statistics, in the order of `key_seq`.
    pub closed spec fn stats_seq(&self) -> Seq<StatsModel> {
        self.stats@.map_values(|s: Stats| s@)
    }

    /// Well-formedness: columns of equal length, keys strictly ascending
    /// and valid UTF-8, every statistic reachable from bounded readings.
    pub closed spec fn wf(&self) -> bool {
        &&& self.keys@.len() == self.stats@.len()
        &&& sorted_keys(self.key_seq())
        &&& forall|t: int| 0 <= t < self.stats@.len() ==> stats_wf(#[trigger] self.stats_seq()[t])
        &&& forall|t: int| 0 <= t < self.keys@.len() ==> valid_utf8(#[trigger] self.key_seq()[t])
    }

    /// What `wf` guarantees about the visible state: the key column lists
    /// the mapping's domain exactly once, in strictly ascending order, and
    /// every entry is a well-formed UTF-8-keyed statistic.
    pub proof fn lemma_view_keys(&self)
        requires
            self.wf(),
        ensures
            self.key_seq().len() == self.stats_seq().len(),
            sorted_keys(self.key_seq()),
            forall|t: int| 0 <= t < self.key_seq().len() ==> self@.contains_key(
                #[trigger] self.key_seq()[t],
            ) && self@[self.key_seq()[t]] == self.stats_seq()[t],
            forall|k: Seq<u8>| #[trigger] self@.contains_key(k) ==> has_key(self.key_seq(), k)
                && stats_wf(self@[k]) && valid_utf8(k),
            self@.dom() =~= self.key_seq().to_set(),
    {
        assert forall|t: int| 0 <= t < self.key_seq().len() implies self@.contains_key(
            #[trigger] self.key_seq()[t],
        ) && self@[self.key_seq()[t]] == self.stats_seq()[t] by {
            lemma_map_of_index(self.key_seq(), self.stats_seq(), t);
        }
        assert forall|k: Seq<u8>| #[trigger] self@.contains_key(k) implies has_key(self.key_seq(), k)
            && stats_wf(self@[k]) && valid_utf8(k) by {
            let u = idx_of(self.key_seq(), k);
            assert(0 <= u < self.key_seq().len() && self.key_seq()[u] == k);
            lemma_idx_of_unique(self.key_seq(), u);
        }
        assert forall|k: Seq<u8>| self.key_seq().to_set().contains(k) implies self@.contains_key(k) by {
            let u = choose|u: int| 0 <= u < self.key_seq().len() && self.key_seq()[u] == k;
            assert(has_key(self.key_seq(), k));
        }
        assert(self@.dom() =~= self.key_seq().to_set());
    }

    /// The empty map.
    pub fn new() -> (m: AggregateMap)
        ensures
            m.wf(),
            m@ == Map::<Seq<u8>, StatsModel>::empty(),
            m.key_seq() == Seq::<Seq<u8>>::empty(),
    {
        let m = AggregateMap { keys: Vec::new(), stats: Vec::new() };
        proof {
            assert(m.key_seq() =~= Seq::<Seq<u8>>::empty());
            assert(m@ =~= Map::<Seq<u8>, StatsModel>::empty());
        }
        m
    }

    /// Number of distinct keys seen.
    pub fn len(&self) -> (n: usize)
        ensures
            n == self.key_seq().len(),
    {
        self.keys.len()
    }

    /// The key at position `t` of the output order.
    pub fn key_at(&self, t: usize) -> (k: &Vec<u8>)
        requires
            t < self.key_seq().len(),
        ensures
            k@ == self.key_seq()[t as int],
    {
        &self.keys[t]
    }

    /// The statistics at position `t` of the output order.
    pub fn stats_at(&self, t: usize) -> (s: Stats)
        requires
            self.wf(),
            t < self.key_seq().len(),
        ensures
            s@ == self.stats_seq()[t as int],
    {
        self.stats[t]
    }

    /// Where `key` sits, or where it would be inserted: the first position
    /// not below it, and whether it is already present.
    fn locate(&self, key: &[u8]) -> (r: (usize, bool))
        requires
            self.wf(),
        ensures
            r.0 <= self.key_seq().len(),
            forall|j: int| 0 <= j < r.0 ==> lex_lt(#[trigger] self.key_seq()[j], key@),
            r.1 ==> r.0 < self.key_seq().len() && self.key_seq()[r.0 as int] == key@,
            !r.1 ==> (r.0 == self.key_seq().len() || lex_lt(key@, self.key_seq()[r.0 as int])),
            r.1 == self@.contains_key(key@),
    {
        let n = self.keys.len();
        let mut t: usize = 0;
        while t < n
            invariant
                self.wf(),
                n == self.keys@.len(),
                0 <= t <= n,
                forall|j: int| 0 <= j < t ==> lex_lt(#[trigger] self.key_seq()[j], key@),
            decreases n - t,
        {
            let c = lex_cmp(self.keys[t].as_slice(), key);
            match c {
                KeyOrder::Less => {
                    t = t + 1;
                },
                KeyOrder::Equal => {
                    proof {
                        lemma_idx_of_unique(self.key_seq(), t as int);
                    }
                    return (t, true);
                },
                KeyOrder::Greater => {
                    proof {
                        self.lemma_absent(key@, t as int);
                    }
                    return (t, false);
                },
            }
        }
        proof {
            self.lemma_absent(key@, n as int);
        }
        (t, false)
    }

    /// A key above everything before position `t` and below the key at `t`
    /// (if any) is absent.
    proof fn lemma_absent(&self, k: Seq<u8>, t: int)
        requires
            self.wf(),
            0 <= t <= self.key_seq().len(),
            forall|j: int| 0 <= j < t ==> lex_lt(#[trigger] self.key_seq()[j], k),
            t < self.key_seq().len() ==> lex_lt(k, self.key_seq()[t]),
        ensures
            !self@.contains_key(k),
    {
        let ks = self.key_seq();
        assert forall|j: int| 0 <= j < ks.len() implies ks[j] != k by {
            if j < t {
                lemma_lex_asym(ks[j], k);
            } else if j == t {
                lemma_lex_asym(k, ks[j]);
            } else {
                lemma_lex_trans(k, ks[t], ks[j]);
                lemma_lex_asym(k, ks[j]);
            }
        }
    }

    /// Absorb one key's statistics: combine with the present entry, or
    /// insert at the ordered position.
    fn upsert(&mut self, key: Vec<u8>, st: Stats)
        requires
            old(self).wf(),
            stats_wf(st@),
            valid_utf8(key@),
            old(self)@.contains_key(key@) ==> old(self)@[key@].count + st@.count <= u64::MAX,
        ensures
            final(self).wf(),
            final(self)@ == merge_step(old(self)@, key@, st@),
    {
        let ghost ks = old(self).key_seq();
        let ghost ss = old(self).stats_seq();
        let (t, eq) = self.locate(key.as_slice());
        if eq {
            proof {
                lemma_map_of_index(ks, ss, t as int);
            }
            let mut cur = self.stats[t];
            cur.merge_with(&st);
            self.stats.set(t, cur);
            proof {
                assert(self.key_seq() =~= ks);
                assert(self.stats_seq() =~= ss.update(t as int, cur@));
                lemma_map_of_update(ks, ss, t as int, cur@);
            }
        } else {
            self.keys.insert(t, key);
            self.stats.insert(t, st);
            proof {
                ks.insert_ensures(t as int, key@);
                ss.insert_ensures(t as int, st@);
                assert(self.key_seq() =~= ks.insert(t as int, key@));
                assert(self.stats_seq() =~= ss.insert(t as int, st@));
                lemma_map_of_insert(ks, ss, t as int, key@, st@);
            }
        }
    }

    /// Record one reading under `key`.  Succeeds unless that key's count is
    /// already saturated; on failure the map is unchanged.
    pub fn observe(&mut self, key: Vec<u8>, value: i64) -> (ok: bool)
        requires
            old(self).wf(),
            -VALUE_LIMIT <= value <= VALUE_LIMIT,
            valid_utf8(key@),
        ensures
            final(self).wf(),
            ok == !(old(self)@.contains_key(key@) && old(self)@[key@].count == u64::MAX),
            ok ==> final(self)@ == agg_step(old(self)@, key@, value as int),
            !ok ==> final(self)@ == old(self)@ && final(self).key_seq() == old(self).key_seq(),
    {
        let ghost ks = old(self).key_seq();
        let ghost ss = old(self).stats_seq();
        let (t, eq) = self.locate(key.as_slice());
        if eq {
            proof {
                lemma_map_of_index(ks, ss, t as int);
            }
            if self.stats[t].count == u64::MAX {
                return false;
            }
        }
        let st = Stats::new(value);
        proof {
            lemma_agg_step_is_merge_step(old(self)@, key@, value as int);
        }
        self.upsert(key, st);
        true
    }

    /// Fold another map into this one: shared keys get the weighted
    /// combination of their statistics, fresh keys are inserted at their
    /// ordered position.  Fails, leaving this map unchanged, only when some
    /// shared key's counts would overflow together.
    pub fn merge_from(&mut self, other: &AggregateMap) -> (ok: bool)
        requires
            old(self).wf(),
            other.wf(),
        ensures
            final(self).wf(),
            ok == mergeable(old(self)@, other@),
            ok ==> final(self)@ == merge_model(old(self)@, other@),
            !ok ==> final(self)@ == old(self)@ && final(self).key_seq() == old(self).key_seq(),
    {
        let ghost oks = other.key_seq();
        let ghost oss = other.stats_seq();
        let n = other.keys.len();
        let mut t: usize = 0;
        while t < n
            invariant
                self.wf(),
                other.wf(),
                self@ == old(self)@,
                self.key_seq() == old(self).key_seq(),
                n == other.keys@.len(),
                oks == other.key_seq(),
                oss == other.stats_seq(),
                0 <= t <= n,
                forall|j: int| 0 <= j < t ==> (self@.contains_key(#[trigger] oks[j])
                    ==> self@[oks[j]].count + oss[j].count <= u64::MAX),
            decreases n - t,
        {
            match self.get(other.keys[t].as_slice()) {
                Some(st) => {
                    let ost = other.stats[t];
                    if st.count > u64::MAX - ost.count {
                        proof {
                            lemma_map_of_index(oks, oss, t as int);
                        }
                        return false;
                    }
                },
                None => {},
            }
            t = t + 1;
        }
        proof {
            assert forall|k: Seq<u8>|
                #[trigger] self@.contains_key(k) && #[trigger] other@.contains_key(k) implies self@[k].count
                + other@[k].count <= u64::MAX by {
                let u = idx_of(oks, k);
                assert(0 <= u < oks.len() && oks[u] == k);
                lemma_map_of_index(oks, oss, u);
            }
        }
        let ghost m0 = self@;
        let mut t: usize = 0;
        while t < n
            invariant
                self.wf(),
                other.wf(),
                n == other.keys@.len(),
                oks == other.key_seq(),
                oss == other.stats_seq(),
                0 <= t <= n,
                self@ == merge_seq(m0, oks, oss, t as int),
                forall|j: int| t <= j < n ==> (self@.contains_key(#[trigger] oks[j])
                    ==> self@[oks[j]].count + oss[j].count <= u64::MAX),
            decreases n - t,
        {
            let kc = vstd::slice::slice_to_vec(other.keys[t].as_slice());
            let st = other.stats[t];
            proof {
                assert(stats_wf(oss[t as int]));
                assert(valid_utf8(oks[t as int]));
            }
            let ghost before = self@;
            self.upsert(kc, st);
            proof {
                assert forall|j: int| t + 1 <= j < n && self@.contains_key(#[trigger] oks[j]) implies
                    self@[oks[j]].count + oss[j].count <= u64::MAX by {
                    lemma_lex_asym(oks[t as int], oks[j]);
                    assert(oks[j] != oks[t as int]);
                    assert(self@.contains_key(oks[j]) == before.contains_key(oks[j]));
                }
            }
            t = t + 1;
        }
        proof {
            lemma_merge_seq_is_merge_model(m0, oks, oss, n as int);
            assert(oks.take(n as int) =~= oks);
            assert(oss.take(n as int) =~= oss);
        }
        true
    }

    /// The statistics recorded under `key`, if any.
    pub fn get(&self, key: &[u8]) -> (r: Option<Stats>)
        requires
            self.wf(),
        ensures
            match r {
                Some(st) => self@.contains_key(key@) && st@ == self@[key@] && stats_wf(st@),
                None => !self@.contains_key(key@),
            },
    {
        let (t, eq) = self.locate(key);
        if eq {
            proof {
                lemma_map_of_index(self.key_seq(), self.stats_seq(), t as int);
            }
            Some(self.stats[t])
        } else {
            None
        }
    }
}

} // verus!
