//! Bucket counters and their order-independent merge.
//!
//! A [`Dataset`] maps a rating-difference bucket to a [`Datapoint`]: how many
//! classified games fell into the bucket (`total`) and how many of them had
//! the outcome the dataset stands for (`value`). A [`WDLData`] holds three
//! such maps (wins, draws, losses), all from the lower-rated player's point
//! of view.

use vstd::prelude::*;
use vstd::set::axiom_set_insert_len;

verus! {

/// One bucket's counters: `value` successes out of `total` classified games.
#[derive(Clone, Copy, PartialEq, Eq, Structural, Debug)]
pub struct Datapoint {
    pub value: u32,
    pub total: u32,
}

impl View for Datapoint {
    type V = (nat, nat);

    open spec fn view(&self) -> (nat, nat) {
        (self.value as nat, self.total as nat)
    }
}

impl Datapoint {
    /// Field-wise addition of two counters.
    pub fn aggregate(self, other: Datapoint) -> (r: Datapoint)
        requires
            self.value + other.value <= u32::MAX,
            self.total + other.total <= u32::MAX,
        ensures
            r.value == self.value + other.value,
            r.total == self.total + other.total,
    {
        Datapoint { value: self.value + other.value, total: self.total + other.total }
    }
}

/// The mathematical content of a `Dataset`: bucket key to (value, total).
pub type BucketMap = Map<int, (nat, nat)>;

/// The counters stored for key `k`, with an absent key reading as `(0, 0)`.
pub open spec fn counters_at(m: BucketMap, k: int) -> (nat, nat) {
    if m.dom().contains(k) {
        m[k]
    } else {
        (0nat, 0nat)
    }
}

/// Union of two bucket maps with field-wise addition on common keys.
pub open spec fn ds_merge(a: BucketMap, b: BucketMap) -> BucketMap {
    Map::new(
        |k: int| a.dom().contains(k) || b.dom().contains(k),
        |k: int|
            (
                counters_at(a, k).0 + counters_at(b, k).0,
                counters_at(a, k).1 + counters_at(b, k).1,
            ),
    )
}

/// The merged counters can be held in `u32` fields: on every key of `b`
/// the field-wise sums stay representable.
pub open spec fn merge_fits(a: BucketMap, b: BucketMap) -> bool {
    forall|k: int| #[trigger]
        b.dom().contains(k) ==> counters_at(a, k).0 + counters_at(b, k).0 <= u32::MAX
            && counters_at(a, k).1 + counters_at(b, k).1 <= u32::MAX
}

/// Merging reads, on every key, as field-wise addition of the two sides'
/// counters (with absent keys reading as zero).
pub proof fn lemma_merge_counters(a: BucketMap, b: BucketMap, k: int)
    ensures
        counters_at(ds_merge(a, b), k) == (
            (counters_at(a, k).0 + counters_at(b, k).0) as nat,
            (counters_at(a, k).1 + counters_at(b, k).1) as nat,
        ),
{
}

/// Merging bucket maps is commutative.
pub proof fn lemma_ds_merge_commutative(a: BucketMap, b: BucketMap)
    ensures
        ds_merge(a, b) == ds_merge(b, a),
{
    assert(ds_merge(a, b) =~= ds_merge(b, a));
}

/// Merging bucket maps is associative.
pub proof fn lemma_ds_merge_associative(a: BucketMap, b: BucketMap, c: BucketMap)
    ensures
        ds_merge(ds_merge(a, b), c) == ds_merge(a, ds_merge(b, c)),
{
    assert forall|k: int| true implies counters_at(ds_merge(ds_merge(a, b), c), k) == counters_at(
        ds_merge(a, ds_merge(b, c)),
        k,
    ) by {
        lemma_merge_counters(a, b, k);
        lemma_merge_counters(b, c, k);
        lemma_merge_counters(ds_merge(a, b), c, k);
        lemma_merge_counters(a, ds_merge(b, c), k);
    }
    assert(ds_merge(ds_merge(a, b), c) =~= ds_merge(a, ds_merge(b, c)));
}

/// The empty bucket map is the identity of the merge.
pub proof fn lemma_ds_merge_empty(a: BucketMap)
    ensures
        ds_merge(a, Map::empty()) == a,
        ds_merge(Map::empty(), a) == a,
{
    assert(ds_merge(a, Map::empty()) =~= a);
    assert(ds_merge(Map::empty(), a) =~= a);
}

/// A map of unique bucket keys to counters, stored as a vector of pairs.
pub struct Dataset {
    entries: Vec<(i64, Datapoint)>,
}

/// No bucket key occurs twice in the stored entry list.
pub(crate) open spec fn keys_distinct(s: Seq<(i64, Datapoint)>) -> bool {
    forall|i: int, j: int| 0 <= i < j < s.len() ==> s[i].0 != s[j].0
}

/// The map described by an entry list (later entries would win, but under
/// `keys_distinct` each key occurs once).
pub(crate) open spec fn entry_map(s: Seq<(i64, Datapoint)>) -> BucketMap
    decreases s.len(),
{
    if s.len() == 0 {
        Map::empty()
    } else {
        entry_map(s.drop_last()).insert(s.last().0 as int, s.last().1@)
    }
}

proof fn lemma_entry_map_dom(s: Seq<(i64, Datapoint)>)
    ensures
        forall|k: int|
            entry_map(s).dom().contains(k) <==> exists|i: int|
                0 <= i < s.len() && #[trigger] s[i].0 as int == k,
    decreases s.len(),
{
    if s.len() == 0 {
    } else {
        lemma_entry_map_dom(s.drop_last());
        assert forall|k: int| entry_map(s).dom().contains(k) implies exists|i: int|
            0 <= i < s.len() && #[trigger] s[i].0 as int == k by {
            if k == s.last().0 as int {
                assert(s[s.len() - 1].0 as int == k);
            } else {
                assert(entry_map(s.drop_last()).dom().contains(k));
                let i = choose|i: int|
                    0 <= i < s.drop_last().len() && #[trigger] s.drop_last()[i].0 as int == k;
                assert(s.drop_last()[i] == s[i]);
                assert(s[i].0 as int == k);
            }
        }
        assert forall|k: int|
            (exists|i: int| 0 <= i < s.len() && #[trigger] s[i].0 as int == k) implies entry_map(
            s,
        ).dom().contains(k) by {
            let i = choose|i: int| 0 <= i < s.len() && #[trigger] s[i].0 as int == k;
            if i < s.len() - 1 {
                assert(s.drop_last()[i].0 as int == k);
                assert(exists|j: int|
                    0 <= j < s.drop_last().len() && #[trigger] s.drop_last()[j].0 as int == k);
                assert(entry_map(s.drop_last()).dom().contains(k));
            }
        }
    }
}

proof fn lemma_entry_map_index(s: Seq<(i64, Datapoint)>, i: int)
    requires
        keys_distinct(s),
        0 <= i < s.len(),
    ensures
        entry_map(s).dom().contains(s[i].0 as int),
        entry_map(s)[s[i].0 as int] == s[i].1@,
    decreases s.len(),
{
    if i == s.len() - 1 {
    } else {
        assert(keys_distinct(s.drop_last()));
        lemma_entry_map_index(s.drop_last(), i);
        assert(s[i].0 != s[s.len() - 1].0);
    }
}

proof fn lemma_entry_map_absent(s: Seq<(i64, Datapoint)>, k: int)
    requires
        forall|i: int| 0 <= i < s.len() ==> #[trigger] s[i].0 as int != k,
    ensures
        !entry_map(s).dom().contains(k),
    decreases s.len(),
{
    if s.len() == 0 {
    } else {
        assert(forall|i: int|
            0 <= i < s.drop_last().len() ==> #[trigger] s.drop_last()[i].0 as int != k);
        lemma_entry_map_absent(s.drop_last(), k);
        assert(s[s.len() - 1].0 as int != k);
    }
}

proof fn lemma_entry_map_push(s: Seq<(i64, Datapoint)>, key: i64, p: Datapoint)
    ensures
        entry_map(s.push((key, p))) == entry_map(s).insert(key as int, p@),
{
    assert(s.push((key, p)).drop_last() =~= s);
    assert(s.push((key, p)).last() == (key, p));
}

proof fn lemma_entry_map_update(s: Seq<(i64, Datapoint)>, i: int, p: Datapoint)
    requires
        keys_distinct(s),
        0 <= i < s.len(),
    ensures
        entry_map(s.update(i, (s[i].0, p))) == entry_map(s).insert(s[i].0 as int, p@),
        keys_distinct(s.update(i, (s[i].0, p))),
    decreases s.len(),
{
    let t = s.update(i, (s[i].0, p));
    assert forall|x: int, y: int| 0 <= x < y < t.len() implies t[x].0 != t[y].0 by {
        assert(t[x].0 == s[x].0 && t[y].0 == s[y].0);
    }
    let k = s[i].0 as int;
    if i == s.len() - 1 {
        assert(t.drop_last() =~= s.drop_last());
        assert(t.last() == (s[i].0, p));
        assert(entry_map(s.drop_last()).insert(k, s[i].1@).insert(k, p@) =~= entry_map(
            s.drop_last(),
        ).insert(k, p@));
    } else {
        assert(keys_distinct(s.drop_last()));
        assert(t.drop_last() =~= s.drop_last().update(i, (s[i].0, p)));
        lemma_entry_map_update(s.drop_last(), i, p);
        assert(t.last() == s.last());
        let lk = s.last().0 as int;
        assert(s[i].0 != s[s.len() - 1].0);
        assert(entry_map(s.drop_last()).insert(k, p@).insert(lk, s.last().1@) =~= entry_map(
            s.drop_last(),
        ).insert(lk, s.last().1@).insert(k, p@));
    }
}

proof fn lemma_entry_map_dom_len(s: Seq<(i64, Datapoint)>)
    requires
        keys_distinct(s),
    ensures
        entry_map(s).dom().finite(),
        entry_map(s).dom().len() == s.len(),
    decreases s.len(),
{
    if s.len() == 0 {
    } else {
        assert(keys_distinct(s.drop_last()));
        lemma_entry_map_dom_len(s.drop_last());
        let k = s.last().0 as int;
        assert(forall|i: int|
            0 <= i < s.drop_last().len() ==> #[trigger] s.drop_last()[i].0 as int != k);
        lemma_entry_map_absent(s.drop_last(), k);
        axiom_set_insert_len(entry_map(s.drop_last()).dom(), k);
    }
}

/// Merging with a map that lacks `k` and then adding counters for `k` is the
/// same as merging after the counters were added on the right.
proof fn lemma_merge_insert_fresh(a: BucketMap, m: BucketMap, k: int, p: (nat, nat))
    requires
        !m.dom().contains(k),
    ensures
        ds_merge(a, m.insert(k, p)) == ds_merge(a, m).insert(
            k,
            ((counters_at(a, k).0 + p.0) as nat, (counters_at(a, k).1 + p.1) as nat),
        ),
{
    assert(ds_merge(a, m.insert(k, p)) =~= ds_merge(a, m).insert(
        k,
        ((counters_at(a, k).0 + p.0) as nat, (counters_at(a, k).1 + p.1) as nat),
    ));
}

/// Report rows in strictly ascending key order.
pub open spec fn rows_sorted(s: Seq<(i64, u32, u32)>) -> bool {
    forall|x: int, y: int| 0 <= x < y < s.len() ==> (#[trigger] s[x]).0 < (#[trigger] s[y]).0
}

/// A report row copies one stored entry.
pub(crate) open spec fn row_is(row: (i64, u32, u32), ent: (i64, Datapoint)) -> bool {
    row.0 == ent.0 && row.1 == ent.1.value && row.2 == ent.1.total
}

/// Every row copies one of the first `i` stored entries.
pub(crate) open spec fn rows_match(
    s: Seq<(i64, u32, u32)>,
    entries: Seq<(i64, Datapoint)>,
    i: int,
) -> bool {
    forall|x: int|
        0 <= x < s.len() ==> exists|e: int| 0 <= e < i && row_is(#[trigger] s[x], entries[e])
}

#[verifier::rlimit(100)]
proof fn lemma_rows_insert(
    old_r: Seq<(i64, u32, u32)>,
    entries: Seq<(i64, Datapoint)>,
    i: int,
    pos: int,
)
    requires
        keys_distinct(entries),
        0 <= i < entries.len(),
        0 <= pos <= old_r.len(),
        rows_sorted(old_r),
        rows_match(old_r, entries, i),
        forall|x: int| 0 <= x < pos ==> (#[trigger] old_r[x]).0 < entries[i].0,
        pos < old_r.len() ==> old_r[pos].0 >= entries[i].0,
    ensures
        rows_sorted(old_r.insert(pos, (entries[i].0, entries[i].1.value, entries[i].1.total))),
        rows_match(
            old_r.insert(pos, (entries[i].0, entries[i].1.value, entries[i].1.total)),
            entries,
            i + 1,
        ),
{
    let key = entries[i].0;
    let row = (entries[i].0, entries[i].1.value, entries[i].1.total);
    let s = old_r.insert(pos, row);
    old_r.insert_ensures(pos, row);
    if pos < old_r.len() {
        // the element the scan rested on is strictly larger: distinct
        // stored keys forbid equality
        let e = choose|e: int| 0 <= e < i && row_is(#[trigger] old_r[pos], entries[e]);
        assert(entries[e].0 != entries[i].0);
        assert(old_r[pos].0 > key);
    }
    assert forall|x: int, y: int| 0 <= x < y < s.len() implies (#[trigger] s[x]).0 < (
    #[trigger] s[y]).0 by {
        if y < pos {
            assert(s[x] == old_r[x] && s[y] == old_r[y]);
        } else if x > pos {
            assert(s[x] == old_r[x - 1] && s[y] == old_r[y - 1]);
        } else if x == pos {
            assert(s[y] == old_r[y - 1]);
            if y - 1 > pos {
                assert(old_r[pos].0 < old_r[y - 1].0);
            }
        } else if y == pos {
            assert(s[x] == old_r[x]);
        } else {
            assert(s[x] == old_r[x] && s[y] == old_r[y - 1]);
            assert(old_r[x].0 < key);
            if y - 1 > pos {
                assert(old_r[pos].0 < old_r[y - 1].0);
            }
        }
    }
    assert forall|x: int| 0 <= x < s.len() implies exists|e: int|
        0 <= e < i + 1 && row_is(#[trigger] s[x], entries[e]) by {
        if x < pos {
            assert(s[x] == old_r[x]);
            let e = choose|e: int| 0 <= e < i && row_is(old_r[x], entries[e]);
            assert(row_is(s[x], entries[e]));
        } else if x == pos {
            assert(row_is(s[x], entries[i]));
        } else {
            assert(s[x] == old_r[x - 1]);
            let e = choose|e: int| 0 <= e < i && row_is(old_r[x - 1], entries[e]);
            assert(row_is(s[x], entries[e]));
        }
    }
}

impl View for Dataset {
    type V = BucketMap;

    closed spec fn view(&self) -> BucketMap {
        entry_map(self.entries@)
    }
}

impl Dataset {
    /// The stored entry list keeps each bucket key at most once.
    pub closed spec fn wf(&self) -> bool {
        keys_distinct(self.entries@)
    }

    /// An empty dataset.
    pub fn new() -> (r: Dataset)
        ensures
            r.wf(),
            r@ == Map::<int, (nat, nat)>::empty(),
    {
        Dataset { entries: Vec::new() }
    }

    fn find(&self, key: i64) -> (r: Option<usize>)
        ensures
            match r {
                Some(i) => i < self.entries@.len() && self.entries@[i as int].0 == key,
                None => forall|i: int|
                    0 <= i < self.entries@.len() ==> #[trigger] self.entries@[i].0 != key,
            },
    {
        let n = self.entries.len();
        let mut i: usize = 0;
        while i < n
            invariant
                n == self.entries@.len(),
                i <= n,
                forall|j: int| 0 <= j < i ==> #[trigger] self.entries@[j].0 != key,
            decreases n - i,
        {
            if self.entries[i].0 == key {
                return Some(i);
            }
            i += 1;
        }
        None
    }

    /// The counters stored for `key`, if the bucket exists.
    pub fn get(&self, key: i64) -> (r: Option<Datapoint>)
        requires
            self.wf(),
        ensures
            match r {
                Some(p) => self@.dom().contains(key as int) && self@[key as int] == p@,
                None => !self@.dom().contains(key as int),
            },
    {
        match self.find(key) {
            Some(i) => {
                proof {
                    lemma_entry_map_index(self.entries@, i as int);
                }
                Some(self.entries[i].1)
            },
            None => {
                proof {
                    lemma_entry_map_absent(self.entries@, key as int);
                }
                None
            },
        }
    }

    /// How many buckets the dataset holds.
    pub fn len(&self) -> (n: usize)
        requires
            self.wf(),
        ensures
            n == self@.dom().len(),
            self@.dom().finite(),
    {
        proof {
            lemma_entry_map_dom_len(self.entries@);
        }
        self.entries.len()
    }

    /// Adds `dv` to the stored value and `dt` to the stored total of `key`,
    /// creating the bucket at `(0, 0)` first when it is absent.
    pub fn add_counts(&mut self, key: i64, dv: u32, dt: u32)
        requires
            old(self).wf(),
            counters_at(old(self)@, key as int).0 + dv <= u32::MAX,
            counters_at(old(self)@, key as int).1 + dt <= u32::MAX,
        ensures
            final(self).wf(),
            final(self)@ == old(self)@.insert(
                key as int,
                (
                    (counters_at(old(self)@, key as int).0 + dv) as nat,
                    (counters_at(old(self)@, key as int).1 + dt) as nat,
                ),
            ),
    {
        match self.find(key) {
            Some(i) => {
                proof {
                    lemma_entry_map_index(self.entries@, i as int);
                }
                let p = self.entries[i].1;
                let np = Datapoint { value: p.value + dv, total: p.total + dt };
                proof {
                    lemma_entry_map_update(self.entries@, i as int, np);
                }
                self.entries[i] = (key, np);
            },
            None => {
                let np = Datapoint { value: dv, total: dt };
                proof {
                    lemma_entry_map_absent(self.entries@, key as int);
                    lemma_entry_map_push(self.entries@, key, np);
                    assert forall|x: int, y: int|
                        0 <= x < y < self.entries@.push((key, np)).len() implies self.entries@.push(
                        (key, np),
                    )[x].0 != self.entries@.push((key, np))[y].0 by {
                        if y < self.entries@.len() {
                        } else {
                            assert(self.entries@.push((key, np))[x].0 == self.entries@[x].0);
                        }
                    }
                }
                self.entries.push((key, np));
            },
        }
    }

    /// The report rows: every bucket with its value and total, sorted by
    /// bucket key ascending, each key exactly once.
    #[verifier::rlimit(100)]
    pub fn sorted_entries(&self) -> (r: Vec<(i64, u32, u32)>)
        requires
            self.wf(),
        ensures
            rows_sorted(r@),
            forall|x: int|
                0 <= x < r@.len() ==> self@.dom().contains((#[trigger] r@[x]).0 as int)
                    && self@[r@[x].0 as int] == (r@[x].1 as nat, r@[x].2 as nat),
            r@.len() == self@.dom().len(),
    {
        let n = self.entries.len();
        let mut r: Vec<(i64, u32, u32)> = Vec::new();
        let mut i: usize = 0;
        while i < n
            invariant
                n == self.entries@.len(),
                self.wf(),
                i <= n,
                rows_sorted(r@),
                rows_match(r@, self.entries@, i as int),
                r@.len() == i,
            decreases n - i,
        {
            let (key, p) = self.entries[i];
            let mut pos: usize = 0;
            while pos < r.len() && r[pos].0 < key
                invariant
                    pos <= r@.len(),
                    forall|x: int| 0 <= x < pos ==> (#[trigger] r@[x]).0 < key,
                decreases r@.len() - pos,
            {
                pos += 1;
            }
            let ghost old_r = r@;
            r.insert(pos, (key, p.value, p.total));
            proof {
                lemma_rows_insert(old_r, self.entries@, i as int, pos as int);
                assert(r@ == old_r.insert(
                    pos as int,
                    (
                        self.entries@[i as int].0,
                        self.entries@[i as int].1.value,
                        self.entries@[i as int].1.total,
                    ),
                ));
            }
            i += 1;
        }
        proof {
            assert forall|x: int|
                0 <= x < r@.len() implies self@.dom().contains((#[trigger] r@[x]).0 as int)
                && self@[r@[x].0 as int] == (r@[x].1 as nat, r@[x].2 as nat) by {
                assert(rows_match(r@, self.entries@, n as int));
                let e = choose|e: int|
                    0 <= e < n && row_is(#[trigger] r@[x], self.entries@[e]);
                lemma_entry_map_index(self.entries@, e);
            }
            lemma_entry_map_dom_len(self.entries@);
        }
        r
    }

    /// Union-with-summation: keys of either side survive, and counters on
    /// common keys are added field-wise.
    pub fn aggregate(self, other: Dataset) -> (r: Dataset)
        requires
            self.wf(),
            other.wf(),
            merge_fits(self@, other@),
        ensures
            r.wf(),
            r@ == ds_merge(self@, other@),
    {
        let ghost a = self@;
        let mut r = self;
        let n = other.entries.len();
        proof {
            lemma_ds_merge_empty(a);
            assert(other.entries@.take(0) =~= Seq::<(i64, Datapoint)>::empty());
        }
        let mut j: usize = 0;
        while j < n
            invariant
                n == other.entries@.len(),
                other.wf(),
                merge_fits(a, entry_map(other.entries@)),
                j <= n,
                r.wf(),
                r@ == ds_merge(a, entry_map(other.entries@.take(j as int))),
            decreases n - j,
        {
            let (key, p) = other.entries[j];
            proof {
                lemma_entry_map_index(other.entries@, j as int);
                assert forall|i: int|
                    0 <= i < other.entries@.take(j as int).len() implies #[trigger] other.entries@.take(
                    j as int,
                )[i].0 as int != key as int by {
                    assert(other.entries@[i].0 != other.entries@[j as int].0);
                }
                lemma_entry_map_absent(other.entries@.take(j as int), key as int);
                lemma_merge_counters(a, entry_map(other.entries@.take(j as int)), key as int);
            }
            r.add_counts(key, p.value, p.total);
            proof {
                assert(other.entries@.take(j as int + 1) =~= other.entries@.take(j as int).push(
                    (key, p),
                ));
                lemma_entry_map_push(other.entries@.take(j as int), key, p);
                lemma_merge_insert_fresh(
                    a,
                    entry_map(other.entries@.take(j as int)),
                    key as int,
                    p@,
                );
            }
            j += 1;
        }
        proof {
            assert(other.entries@.take(n as int) =~= other.entries@);
        }
        r
    }
}

/// Wins, draws and losses per bucket, from the lower-rated player's side.
pub struct WDLData {
    pub wins: Dataset,
    pub draws: Dataset,
    pub losses: Dataset,
}

impl View for WDLData {
    type V = (BucketMap, BucketMap, BucketMap);

    open spec fn view(&self) -> (BucketMap, BucketMap, BucketMap) {
        (self.wins@, self.draws@, self.losses@)
    }
}

/// Merge of the three bucket maps, each independently.
pub open spec fn wdl_merge(
    a: (BucketMap, BucketMap, BucketMap),
    b: (BucketMap, BucketMap, BucketMap),
) -> (BucketMap, BucketMap, BucketMap) {
    (ds_merge(a.0, b.0), ds_merge(a.1, b.1), ds_merge(a.2, b.2))
}

/// The triple of empty bucket maps.
pub open spec fn wdl_empty() -> (BucketMap, BucketMap, BucketMap) {
    (Map::empty(), Map::empty(), Map::empty())
}

/// Merging accumulators is associative: folding per-file results in any
/// grouping gives the same tallies.
pub proof fn lemma_wdl_merge_associative(
    a: (BucketMap, BucketMap, BucketMap),
    b: (BucketMap, BucketMap, BucketMap),
    c: (BucketMap, BucketMap, BucketMap),
)
    ensures
        wdl_merge(wdl_merge(a, b), c) == wdl_merge(a, wdl_merge(b, c)),
{
    lemma_ds_merge_associative(a.0, b.0, c.0);
    lemma_ds_merge_associative(a.1, b.1, c.1);
    lemma_ds_merge_associative(a.2, b.2, c.2);
}

/// Merging accumulators is commutative: the order of the two sides never
/// changes the tallies.
pub proof fn lemma_wdl_merge_commutative(
    a: (BucketMap, BucketMap, BucketMap),
    b: (BucketMap, BucketMap, BucketMap),
)
    ensures
        wdl_merge(a, b) == wdl_merge(b, a),
{
    lemma_ds_merge_commutative(a.0, b.0);
    lemma_ds_merge_commutative(a.1, b.1);
    lemma_ds_merge_commutative(a.2, b.2);
}

/// Merging with the empty accumulator is the identity.
pub proof fn lemma_wdl_merge_empty(a: (BucketMap, BucketMap, BucketMap))
    ensures
        wdl_merge(a, wdl_empty()) == a,
        wdl_merge(wdl_empty(), a) == a,
{
    lemma_ds_merge_empty(a.0);
    lemma_ds_merge_empty(a.1);
    lemma_ds_merge_empty(a.2);
}

impl WDLData {
    /// All three datasets are well formed.
    pub open spec fn wf(&self) -> bool {
        self.wins.wf() && self.draws.wf() && self.losses.wf()
    }

    /// An accumulator with no buckets at all.
    pub fn new() -> (r: WDLData)
        ensures
            r.wf(),
            r@ == wdl_empty(),
    {
        WDLData { wins: Dataset::new(), draws: Dataset::new(), losses: Dataset::new() }
    }

    /// Merges the three dataset pairs independently.
    pub fn aggregate(self, other: WDLData) -> (r: WDLData)
        requires
            self.wf(),
            other.wf(),
            merge_fits(self.wins@, other.wins@),
            merge_fits(self.draws@, other.draws@),
            merge_fits(self.losses@, other.losses@),
        ensures
            r.wf(),
            r@ == wdl_merge(self@, other@),
    {
        WDLData {
            wins: self.wins.aggregate(other.wins),
            draws: self.draws.aggregate(other.draws),
            losses: self.losses.aggregate(other.losses),
        }
    }
}

} // verus!
