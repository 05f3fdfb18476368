//! Rating vectors: finite maps from an identifier to a score ordinal,
//! stored in ascending key order.
use vstd::prelude::*;

verus! {

/// One stored pair: the identifier and the score ordinal.
pub type Pair = (u64, i64);

/// Keys grow strictly from left to right.
pub open spec fn ascending(s: Seq<Pair>) -> bool {
    forall|i: int, j: int| 0 <= i < j < s.len() ==> s[i].0 < s[j].0
}

/// Some pair of `s` carries the key `k`.
pub open spec fn has_key(s: Seq<Pair>, k: u64) -> bool {
    exists|i: int| 0 <= i < s.len() && s[i].0 == k
}

/// A position at which `k` occurs in `s`.
pub open spec fn index_of(s: Seq<Pair>, k: u64) -> int {
    choose|i: int| 0 <= i < s.len() && s[i].0 == k
}

/// The finite map that a sequence of pairs denotes.
pub open spec fn as_map(s: Seq<Pair>) -> Map<u64, i64> {
    Map::new(|k: u64| has_key(s, k), |k: u64| s[index_of(s, k)].1)
}

/// In an ascending sequence a key determines its position.
pub proof fn lemma_index_unique(s: Seq<Pair>, i: int)
    requires
        ascending(s),
        0 <= i < s.len(),
    ensures
        has_key(s, s[i].0),
        index_of(s, s[i].0) == i,
        as_map(s).contains_key(s[i].0),
        as_map(s)[s[i].0] == s[i].1,
{
    let k = s[i].0;
    assert(has_key(s, k));
    let j = index_of(s, k);
    assert(0 <= j < s.len() && s[j].0 == k);
    if j < i {
        assert(s[j].0 < s[i].0);
    } else if i < j {
        assert(s[i].0 < s[j].0);
    }
}

/// The part of `m` whose scores lie in the closed range from `lo` to `hi`.
pub open spec fn clipped(m: Map<u64, i64>, lo: i64, hi: i64) -> Map<u64, i64> {
    Map::new(|k: u64| m.contains_key(k) && lo <= m[k] <= hi, |k: u64| m[k])
}

/// A rating vector.
pub struct Ratings {
    entries: Vec<Pair>,
}

impl View for Ratings {
    type V = Map<u64, i64>;

    closed spec fn view(&self) -> Map<u64, i64> {
        as_map(self.entries@)
    }
}

impl Ratings {
    #[verifier::type_invariant]
    spec fn sorted(self) -> bool {
        ascending(self.entries@)
    }

    /// The stored pairs, in ascending key order.
    pub closed spec fn pairs(&self) -> Seq<Pair> {
        self.entries@
    }

    /// The vector is the map that its pairs denote.
    pub proof fn lemma_view(&self)
        ensures
            self@ == as_map(self.pairs()),
    {
    }

    /// The empty vector.
    pub fn new() -> (r: Ratings)
        ensures
            r@ == Map::<u64, i64>::empty(),
            r.pairs() == Seq::<Pair>::empty(),
    {
        let r = Ratings { entries: Vec::new() };
        assert(r@ =~= Map::<u64, i64>::empty());
        r
    }

    /// The pairs as a slice of the underlying storage.
    pub fn as_vec(&self) -> (r: &Vec<Pair>)
        ensures
            r@ == self.pairs(),
            ascending(r@),
            self@ == as_map(r@),
    {
        proof {
            use_type_invariant(self);
        }
        &self.entries
    }

    /// Number of rated keys.
    pub fn len(&self) -> (n: usize)
        ensures
            n == self.pairs().len(),
            n == self@.dom().len(),
            self@.dom().finite(),
    {
        proof {
            use_type_invariant(self);
            lemma_dom_len(self.entries@);
        }
        self.entries.len()
    }

    /// Whether nothing is rated.
    pub fn is_empty(&self) -> (b: bool)
        ensures
            b == (self@.dom() =~= Set::<u64>::empty()),
            b == (self.pairs().len() == 0),
    {
        proof {
            use_type_invariant(self);
            lemma_dom_len(self.entries@);
            if self.entries@.len() > 0 {
                lemma_index_unique(self.entries@, 0);
            }
        }
        self.entries.len() == 0
    }

    /// First position whose key is not below `key`.
    fn lower_bound(&self, key: u64) -> (p: usize)
        ensures
            p <= self.pairs().len(),
            forall|i: int| 0 <= i < p ==> self.pairs()[i].0 < key,
            forall|i: int| p <= i < self.pairs().len() ==> self.pairs()[i].0 >= key,
    {
        proof {
            use_type_invariant(self);
        }
        let mut lo: usize = 0;
        let mut hi: usize = self.entries.len();
        while lo < hi
            invariant
                lo <= hi <= self.entries@.len(),
                ascending(self.entries@),
                forall|i: int| 0 <= i < lo ==> self.entries@[i].0 < key,
                forall|i: int| hi <= i < self.entries@.len() ==> self.entries@[i].0 >= key,
            decreases hi - lo,
        {
            let mid: usize = lo + (hi - lo) / 2;
            if self.entries[mid].0 < key {
                assert forall|i: int| 0 <= i < mid + 1 implies self.entries@[i].0 < key by {
                    if i < mid {
                        assert(self.entries@[i].0 < self.entries@[mid as int].0);
                    }
                }
                lo = mid + 1;
            } else {
                assert forall|i: int| mid <= i < self.entries@.len() implies self.entries@[i].0
                    >= key by {
                    if mid < i {
                        assert(self.entries@[mid as int].0 < self.entries@[i].0);
                    }
                }
                hi = mid;
            }
        }
        lo
    }

    /// The score stored under `key`, if any.
    pub fn get(&self, key: u64) -> (r: Option<i64>)
        ensures
            r == (if self@.contains_key(key) {
                Some(self@[key])
            } else {
                None
            }),
    {
        proof {
            use_type_invariant(self);
        }
        let p: usize = self.lower_bound(key);
        if p < self.entries.len() && self.entries[p].0 == key {
            proof {
                lemma_index_unique(self.entries@, p as int);
            }
            Some(self.entries[p].1)
        } else {
            proof {
                if has_key(self.entries@, key) {
                    let j = index_of(self.entries@, key);
                    assert(self.entries@[j].0 == key);
                }
            }
            None
        }
    }

    /// Whether `key` is rated.
    pub fn contains_key(&self, key: u64) -> (b: bool)
        ensures
            b == self@.contains_key(key),
    {
        self.get(key).is_some()
    }

    /// A copy.
    pub fn duplicate(&self) -> (r: Ratings)
        ensures
            r@ == self@,
            r.pairs() == self.pairs(),
    {
        proof {
            use_type_invariant(self);
        }
        let mut entries: Vec<Pair> = Vec::new();
        let mut i: usize = 0;
        while i < self.entries.len()
            invariant
                i <= self.entries@.len(),
                entries@ == self.entries@.subrange(0, i as int),
            decreases self.entries@.len() - i,
        {
            entries.push(self.entries[i]);
            i = i + 1;
            assert(entries@ =~= self.entries@.subrange(0, i as int));
        }
        assert(entries@ =~= self.entries@);
        Ratings { entries }
    }

    /// The rated keys, ascending.
    pub fn keys(&self) -> (r: Vec<u64>)
        ensures
            r@.len() == self.pairs().len(),
            forall|i: int| 0 <= i < r@.len() ==> r@[i] == self.pairs()[i].0,
            forall|i: int, j: int| 0 <= i < j < r@.len() ==> r@[i] < r@[j],
            forall|k: u64| r@.contains(k) <==> self@.contains_key(k),
    {
        proof {
            use_type_invariant(self);
        }
        let mut r: Vec<u64> = Vec::new();
        let mut i: usize = 0;
        while i < self.entries.len()
            invariant
                i <= self.entries@.len(),
                r@.len() == i,
                forall|k: int| 0 <= k < i ==> r@[k] == self.entries@[k].0,
            decreases self.entries@.len() - i,
        {
            r.push(self.entries[i].0);
            i = i + 1;
        }
        proof {
            assert forall|k: u64| r@.contains(k) <==> self@.contains_key(k) by {
                if r@.contains(k) {
                    let p = choose|p: int| 0 <= p < r@.len() && r@[p] == k;
                    assert(self.entries@[p].0 == k);
                }
                if has_key(self.entries@, k) {
                    let p = index_of(self.entries@, k);
                    assert(r@[p] == k);
                }
            }
        }
        r
    }

    /// The ratings whose scores lie in the closed range from `lo` to `hi`.
    pub fn within(&self, lo: i64, hi: i64) -> (r: Ratings)
        ensures
            r@ == clipped(self@, lo, hi),
    {
        proof {
            use_type_invariant(self);
        }
        let mut kept: Vec<Pair> = Vec::new();
        let mut i: usize = 0;
        assert(as_map(kept@) =~= clipped(as_map(self.entries@.subrange(0, 0)), lo, hi));
        while i < self.entries.len()
            invariant
                i <= self.entries@.len(),
                ascending(self.entries@),
                ascending(kept@),
                forall|k: int|
                    0 <= k < kept@.len() && i < self.entries@.len() ==> kept@[k].0
                        < self.entries@[i as int].0,
                as_map(kept@) == clipped(as_map(self.entries@.subrange(0, i as int)), lo, hi),
            decreases self.entries@.len() - i,
        {
            let (key, value) = self.entries[i];
            let ghost done = self.entries@.subrange(0, i as int);
            let ghost next = self.entries@.subrange(0, i + 1);
            let ghost before = kept@;
            proof {
                assert(ascending(done));
                assert forall|k: int| 0 <= k < done.len() implies done[k].0 < key by {
                    assert(self.entries@[k].0 < self.entries@[i as int].0);
                }
                lemma_insert_map(done, i as int, key, value);
                assert(next =~= done.insert(i as int, (key, value)));
                assert(!as_map(done).contains_key(key)) by {
                    if has_key(done, key) {
                        let k = index_of(done, key);
                        assert(done[k].0 < key);
                    }
                }
            }
            if lo <= value && value <= hi {
                proof {
                    lemma_insert_map(before, before.len() as int, key, value);
                    assert(before.push((key, value)) =~= before.insert(
                        before.len() as int,
                        (key, value),
                    ));
                }
                kept.push((key, value));
            }
            proof {
                assert(as_map(kept@) =~= clipped(as_map(next), lo, hi));
                if i + 1 < self.entries@.len() {
                    assert forall|k: int| 0 <= k < kept@.len() implies kept@[k].0
                        < self.entries@[i + 1].0 by {
                        assert(self.entries@[i as int].0 < self.entries@[i + 1].0);
                    }
                }
            }
            i = i + 1;
        }
        assert(self.entries@.subrange(0, i as int) =~= self.entries@);
        Ratings { entries: kept }
    }

    /// Stores `value` under `key`, replacing what was there.
    pub fn insert(&mut self, key: u64, value: i64)
        ensures
            final(self)@ == old(self)@.insert(key, value),
    {
        proof {
            use_type_invariant(&*self);
        }
        let p: usize = self.lower_bound(key);
        let n: usize = self.entries.len();
        let replace: bool = p < n && self.entries[p].0 == key;
        let q: usize = if replace {
            p + 1
        } else {
            p
        };
        let ghost before = self.entries@;
        let mut fresh: Vec<Pair> = Vec::new();
        let mut i: usize = 0;
        while i < p
            invariant
                i <= p <= n,
                n == self.entries@.len(),
                self.entries@ == before,
                fresh@ == before.subrange(0, i as int),
            decreases p - i,
        {
            fresh.push(self.entries[i]);
            i = i + 1;
            assert(fresh@ =~= before.subrange(0, i as int));
        }
        fresh.push((key, value));
        let mut j: usize = q;
        while j < n
            invariant
                p <= q <= j <= n,
                n == self.entries@.len(),
                self.entries@ == before,
                fresh@ == before.subrange(0, p as int).push((key, value)) + before.subrange(
                    q as int,
                    j as int,
                ),
            decreases n - j,
        {
            fresh.push(self.entries[j]);
            j = j + 1;
            assert(fresh@ =~= before.subrange(0, p as int).push((key, value)) + before.subrange(
                q as int,
                j as int,
            ));
        }
        proof {
            if replace {
                assert(fresh@ =~= before.update(p as int, (key, value)));
                lemma_update_map(before, p as int, value);
            } else {
                assert(fresh@ =~= before.insert(p as int, (key, value)));
                lemma_insert_map(before, p as int, key, value);
            }
        }
        *self = Ratings { entries: fresh };
    }
}

/// The domain of the denoted map has as many keys as the sequence has pairs.
pub proof fn lemma_dom_len(s: Seq<Pair>)
    requires
        ascending(s),
    ensures
        as_map(s).dom().finite(),
        as_map(s).dom().len() == s.len(),
    decreases s.len(),
{
    if s.len() == 0 {
        assert(as_map(s).dom() =~= Set::<u64>::empty());
    } else {
        let t = s.drop_last();
        let last = s.last();
        assert(ascending(t));
        lemma_dom_len(t);
        assert(as_map(s).dom() =~= as_map(t).dom().insert(last.0)) by {
            assert forall|k: u64| as_map(s).dom().contains(k) == as_map(t).dom().insert(
                last.0,
            ).contains(k) by {
                if has_key(s, k) {
                    let i = index_of(s, k);
                    if i < s.len() - 1 {
                        assert(t[i].0 == k);
                    }
                }
                if has_key(t, k) {
                    let i = index_of(t, k);
                    assert(s[i].0 == k);
                }
                if k == last.0 {
                    assert(s[s.len() - 1].0 == k);
                }
            }
        }
        assert(!as_map(t).dom().contains(last.0)) by {
            if has_key(t, last.0) {
                let i = index_of(t, last.0);
                assert(s[i].0 < s[s.len() - 1].0);
            }
        }
    }
}

/// Replacing the score at one position replaces it in the denoted map.
pub proof fn lemma_update_map(s: Seq<Pair>, p: int, value: i64)
    requires
        ascending(s),
        0 <= p < s.len(),
    ensures
        ascending(s.update(p, (s[p].0, value))),
        as_map(s.update(p, (s[p].0, value))) == as_map(s).insert(s[p].0, value),
{
    let key = s[p].0;
    let t = s.update(p, (key, value));
    assert(ascending(t)) by {
        assert forall|i: int, j: int| 0 <= i < j < t.len() implies t[i].0 < t[j].0 by {
            assert(s[i].0 < s[j].0);
        }
    }
    assert forall|k: u64| as_map(t).dom().contains(k) == as_map(s).insert(
        key,
        value,
    ).dom().contains(k) by {
        if has_key(t, k) {
            let i = index_of(t, k);
            assert(s[i].0 == k);
        }
        if has_key(s, k) {
            let i = index_of(s, k);
            assert(t[i].0 == k);
        }
    }
    assert forall|k: u64| as_map(t).dom().contains(k) implies as_map(t)[k] == as_map(s).insert(
        key,
        value,
    )[k] by {
        let i = index_of(t, k);
        lemma_index_unique(t, i);
        if i != p {
            assert(s[i].0 == k);
            lemma_index_unique(s, i);
        }
    }
    assert(as_map(t) =~= as_map(s).insert(key, value));
}

/// Inserting a fresh key at its ordered position inserts it in the denoted map.
pub proof fn lemma_insert_map(s: Seq<Pair>, p: int, key: u64, value: i64)
    requires
        ascending(s),
        0 <= p <= s.len(),
        forall|i: int| 0 <= i < p ==> s[i].0 < key,
        forall|i: int| p <= i < s.len() ==> s[i].0 > key,
    ensures
        ascending(s.insert(p, (key, value))),
        as_map(s.insert(p, (key, value))) == as_map(s).insert(key, value),
{
    let t = s.insert(p, (key, value));
    assert(ascending(t)) by {
        assert forall|i: int, j: int| 0 <= i < j < t.len() implies t[i].0 < t[j].0 by {
            if j < p {
                assert(s[i].0 < s[j].0);
            } else if j == p {
            } else if i < p {
                assert(s[i].0 < s[j - 1].0);
            } else if i == p {
            } else {
                assert(s[i - 1].0 < s[j - 1].0);
            }
        }
    }
    assert forall|k: u64| as_map(t).dom().contains(k) == as_map(s).insert(
        key,
        value,
    ).dom().contains(k) by {
        if has_key(t, k) {
            let i = index_of(t, k);
            if i < p {
                assert(s[i].0 == k);
            } else if i > p {
                assert(s[i - 1].0 == k);
            }
        }
        if has_key(s, k) {
            let i = index_of(s, k);
            if i < p {
                assert(t[i].0 == k);
            } else {
                assert(t[i + 1].0 == k);
            }
        }
        if k == key {
            assert(t[p].0 == k);
        }
    }
    assert forall|k: u64| as_map(t).dom().contains(k) implies as_map(t)[k] == as_map(s).insert(
        key,
        value,
    )[k] by {
        let i = index_of(t, k);
        lemma_index_unique(t, i);
        if i < p {
            assert(s[i].0 == k);
            lemma_index_unique(s, i);
        } else if i > p {
            assert(s[i - 1].0 == k);
            lemma_index_unique(s, i - 1);
        }
    }
    assert(as_map(t) =~= as_map(s).insert(key, value));
}

} // verus!
