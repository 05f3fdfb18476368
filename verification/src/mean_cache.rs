//! The cache of per-user rating means, bounded by evicting the entries that
//! were read least often.
use crate::config::Ratio;
use crate::ratings::{has_key, Pair, Ratings};
use vstd::prelude::*;

verus! {

/// One cached mean with the number of times it was read.
#[derive(Clone, Copy, Debug)]
pub struct MeanEntry {
    pub user: u64,
    pub mean: i64,
    pub accesses: u32,
}

/// Some entry of `s` belongs to `user`.
pub open spec fn holds(s: Seq<MeanEntry>, user: u64) -> bool {
    exists|i: int| 0 <= i < s.len() && s[i].user == user
}

/// No user has two entries.
pub open spec fn distinct(s: Seq<MeanEntry>) -> bool {
    forall|i: int, j: int| 0 <= i < j < s.len() ==> s[i].user != s[j].user
}

/// The entry is one of `s`.
pub open spec fn member(s: Seq<MeanEntry>, e: MeanEntry) -> bool {
    exists|i: int| 0 <= i < s.len() && s[i] == e
}

/// The mean cached for `user`, if any.
pub open spec fn mean_of(s: Seq<MeanEntry>, user: u64) -> Option<i64> {
    if holds(s, user) {
        Some(s[choose|i: int| 0 <= i < s.len() && s[i].user == user].mean)
    } else {
        None
    }
}

/// `t` is `s` after some reads: the same users and means at the same
/// places, no read counter lower than before.
pub open spec fn refreshed(s: Seq<MeanEntry>, t: Seq<MeanEntry>) -> bool {
    &&& t.len() == s.len()
    &&& forall|i: int|
        0 <= i < s.len() ==> (#[trigger] t[i]).user == s[i].user && t[i].mean == s[i].mean
            && t[i].accesses >= s[i].accesses
}

/// Where users are distinct, the entry at a position gives its user's mean.
pub proof fn lemma_mean_at(s: Seq<MeanEntry>, i: int)
    requires
        distinct(s),
        0 <= i < s.len(),
    ensures
        holds(s, s[i].user),
        mean_of(s, s[i].user) == Some(s[i].mean),
{
    let user = s[i].user;
    let j = choose|j: int| 0 <= j < s.len() && s[j].user == user;
    if j < i {
        assert(s[j].user != s[i].user);
    } else if i < j {
        assert(s[i].user != s[j].user);
    }
}

/// Reads change no mean and forget none.
pub proof fn lemma_refreshed_means(s: Seq<MeanEntry>, t: Seq<MeanEntry>)
    requires
        distinct(s),
        refreshed(s, t),
    ensures
        distinct(t),
        forall|u: u64| holds(t, u) == holds(s, u),
        forall|u: u64| mean_of(t, u) == mean_of(s, u),
{
    assert(distinct(t)) by {
        assert forall|i: int, j: int| 0 <= i < j < t.len() implies t[i].user != t[j].user by {
            assert(s[i].user != s[j].user);
        }
    }
    assert forall|u: u64| holds(t, u) == holds(s, u) && mean_of(t, u) == mean_of(s, u) by {
        if holds(t, u) {
            let i = choose|i: int| 0 <= i < t.len() && t[i].user == u;
            assert(s[i].user == u);
            lemma_mean_at(s, i);
            lemma_mean_at(t, i);
        }
        if holds(s, u) {
            let i = choose|i: int| 0 <= i < s.len() && s[i].user == u;
            assert(t[i].user == u);
            lemma_mean_at(s, i);
            lemma_mean_at(t, i);
        }
    }
}

/// The read counter after one more read; it stops at the largest value.
pub open spec fn bump(accesses: u32) -> u32 {
    if accesses == u32::MAX {
        accesses
    } else {
        (accesses + 1) as u32
    }
}

/// The entry after one more read.
pub open spec fn touched(e: MeanEntry) -> MeanEntry {
    MeanEntry { user: e.user, mean: e.mean, accesses: bump(e.accesses) }
}

/// The cache after one read of `user`'s mean: the read counter of the
/// user's entry is bumped; a user without an entry leaves the cache as it
/// is.
pub open spec fn read(s: Seq<MeanEntry>, user: u64) -> Seq<MeanEntry> {
    if holds(s, user) {
        let i = choose|i: int| 0 <= i < s.len() && s[i].user == user;
        s.update(i, touched(s[i]))
    } else {
        s
    }
}

/// Where users are distinct, a read bumps the entry at the user's place.
pub proof fn lemma_read_at(s: Seq<MeanEntry>, i: int)
    requires
        distinct(s),
        0 <= i < s.len(),
    ensures
        read(s, s[i].user) == s.update(i, touched(s[i])),
        refreshed(s, read(s, s[i].user)),
{
    let user = s[i].user;
    let j = choose|j: int| 0 <= j < s.len() && s[j].user == user;
    if j < i {
        assert(s[j].user != s[i].user);
    } else if i < j {
        assert(s[i].user != s[j].user);
    }
}

/// Position of the oldest entry among those read least often.
pub open spec fn first_min(s: Seq<MeanEntry>) -> int
    decreases s.len(),
{
    if s.len() <= 1 {
        0
    } else {
        let r = first_min(s.drop_last());
        if s.last().accesses < s[r].accesses {
            s.len() - 1
        } else {
            r
        }
    }
}

/// Evicts the least-read entry, oldest first among equals, until at most
/// `keep` entries remain.
pub open spec fn evict(s: Seq<MeanEntry>, keep: nat) -> Seq<MeanEntry>
    decreases s.len(),
    via evict_shortens
{
    if s.len() <= keep {
        s
    } else {
        evict(s.remove(first_min(s)), keep)
    }
}

#[via_fn]
proof fn evict_shortens(s: Seq<MeanEntry>, keep: nat) {
    if s.len() > keep {
        lemma_first_min(s);
    }
}

/// Appends, in batch order, a fresh entry for every batch key that has none.
pub open spec fn absorb(s: Seq<MeanEntry>, batch: Seq<Pair>) -> Seq<MeanEntry>
    decreases batch.len(),
{
    if batch.len() == 0 {
        s
    } else {
        let prev = absorb(s, batch.drop_last());
        let last = batch.last();
        if holds(prev, last.0) {
            prev
        } else {
            prev.push(MeanEntry { user: last.0, mean: last.1, accesses: 0 })
        }
    }
}

/// `first_min` is a position of `s`, nothing is read less often than the
/// entry there, and everything older is read strictly more often.
pub proof fn lemma_first_min(s: Seq<MeanEntry>)
    requires
        s.len() > 0,
    ensures
        0 <= first_min(s) < s.len(),
        forall|i: int| 0 <= i < s.len() ==> s[first_min(s)].accesses <= (#[trigger] s[i]).accesses,
        forall|i: int| 0 <= i < first_min(s) ==> s[first_min(s)].accesses < (#[trigger] s[i]).accesses,
    decreases s.len(),
{
    if s.len() > 1 {
        let t = s.drop_last();
        lemma_first_min(t);
        let r = first_min(t);
        assert(t[r] == s[r]);
        assert forall|i: int| 0 <= i < s.len() implies s[first_min(s)].accesses
            <= (#[trigger] s[i]).accesses by {
            if i < s.len() - 1 {
                assert(t[i] == s[i]);
            }
        }
        assert forall|i: int| 0 <= i < first_min(s) implies s[first_min(s)].accesses
            < (#[trigger] s[i]).accesses by {
            if i < s.len() - 1 {
                assert(t[i] == s[i]);
            }
        }
    }
}

/// Eviction leaves `keep` entries, or all of them where there were fewer.
pub proof fn lemma_evict_len(s: Seq<MeanEntry>, keep: nat)
    ensures
        evict(s, keep).len() == if s.len() <= keep {
            s.len()
        } else {
            keep
        },
    decreases s.len(),
{
    if s.len() > keep {
        lemma_first_min(s);
        lemma_evict_len(s.remove(first_min(s)), keep);
    }
}

/// Eviction drops entries and changes none: what remains was there before,
/// in the same order, and no user appears twice.
pub proof fn lemma_evict_subset(s: Seq<MeanEntry>, keep: nat)
    requires
        distinct(s),
    ensures
        distinct(evict(s, keep)),
        forall|j: int|
            0 <= j < evict(s, keep).len() ==> member(s, #[trigger] evict(s, keep)[j]),
    decreases s.len(),
{
    let r = evict(s, keep);
    if s.len() > keep {
        lemma_first_min(s);
        let m = first_min(s);
        let t = s.remove(m);
        assert(distinct(t)) by {
            assert forall|i: int, j: int| 0 <= i < j < t.len() implies t[i].user
                != t[j].user by {
                let a = if i < m {
                    i
                } else {
                    i + 1
                };
                let b = if j < m {
                    j
                } else {
                    j + 1
                };
                assert(t[i] == s[a] && t[j] == s[b]);
            }
        }
        lemma_evict_subset(t, keep);
        assert forall|j: int| 0 <= j < r.len() implies member(s, #[trigger] r[j]) by {
            assert(member(t, r[j]));
            let i = choose|i: int| 0 <= i < t.len() && t[i] == r[j];
            let a = if i < m {
                i
            } else {
                i + 1
            };
            assert(s[a] == r[j]);
        }
    } else {
        assert forall|j: int| 0 <= j < r.len() implies member(s, #[trigger] r[j]) by {
            assert(s[j] == r[j]);
        }
    }
}

/// Eviction keeps the entries that were read most: no evicted entry was read
/// more often than one that stayed.
pub proof fn lemma_evict_keeps_most_read(s: Seq<MeanEntry>, keep: nat)
    requires
        distinct(s),
    ensures
        forall|i: int, j: int|
            0 <= i < s.len() && 0 <= j < evict(s, keep).len() && !holds(
                evict(s, keep),
                (#[trigger] s[i]).user,
            ) ==> s[i].accesses <= (#[trigger] evict(s, keep)[j]).accesses,
    decreases s.len(),
{
    let r = evict(s, keep);
    if s.len() > keep {
        lemma_first_min(s);
        let m = first_min(s);
        let t = s.remove(m);
        lemma_evict_subset(s, keep);
        lemma_evict_subset(t, keep);
        assert(distinct(t)) by {
            assert forall|i: int, j: int| 0 <= i < j < t.len() implies t[i].user
                != t[j].user by {
                let a = if i < m {
                    i
                } else {
                    i + 1
                };
                let b = if j < m {
                    j
                } else {
                    j + 1
                };
                assert(t[i] == s[a] && t[j] == s[b]);
            }
        }
        lemma_evict_keeps_most_read(t, keep);
        assert forall|i: int, j: int|
            0 <= i < s.len() && 0 <= j < r.len() && !holds(r, (#[trigger] s[i]).user) implies s[i].accesses
            <= (#[trigger] r[j]).accesses by {
            if i == m {
                assert(member(s, r[j]));
                let a = choose|a: int| 0 <= a < s.len() && s[a] == r[j];
                assert(s[m].accesses <= s[a].accesses);
            } else {
                let a = if i < m {
                    i
                } else {
                    i - 1
                };
                assert(t[a] == s[i]);
            }
        }
    } else {
        assert forall|i: int, j: int|
            0 <= i < s.len() && 0 <= j < r.len() && !holds(r, (#[trigger] s[i]).user) implies s[i].accesses
            <= (#[trigger] r[j]).accesses by {
            assert(r[i].user == s[i].user);
        }
    }
}

/// Among entries read equally often eviction takes the oldest first: where
/// an entry stays, every younger entry with the same read counter stays.
pub proof fn lemma_evict_oldest_first(s: Seq<MeanEntry>, keep: nat)
    requires
        distinct(s),
    ensures
        forall|i: int, j: int|
            0 <= i < j < s.len() && (#[trigger] s[i]).accesses == (#[trigger] s[j]).accesses
                && holds(evict(s, keep), s[i].user) ==> holds(evict(s, keep), s[j].user),
    decreases s.len(),
{
    let r = evict(s, keep);
    if s.len() > keep {
        lemma_first_min(s);
        let m = first_min(s);
        let t = s.remove(m);
        assert(distinct(t)) by {
            assert forall|i: int, j: int| 0 <= i < j < t.len() implies t[i].user
                != t[j].user by {
                let a = if i < m {
                    i
                } else {
                    i + 1
                };
                let b = if j < m {
                    j
                } else {
                    j + 1
                };
                assert(t[i] == s[a] && t[j] == s[b]);
            }
        }
        lemma_evict_oldest_first(t, keep);
        lemma_evict_subset(t, keep);
        assert forall|i: int, j: int|
            0 <= i < j < s.len() && (#[trigger] s[i]).accesses == (#[trigger] s[j]).accesses
                && holds(r, s[i].user) implies holds(r, s[j].user) by {
            let q = choose|q: int| 0 <= q < r.len() && r[q].user == s[i].user;
            assert(member(t, r[q]));
            let p = choose|p: int| 0 <= p < t.len() && t[p] == r[q];
            let at = if p < m {
                p
            } else {
                p + 1
            };
            assert(s[at] == t[p]);
            if at < i {
                assert(s[at].user != s[i].user);
            } else if i < at {
                assert(s[i].user != s[at].user);
            }
            assert(i != m);
            if j == m {
                assert(s[m].accesses < s[i].accesses);
            }
            let a = if i < m {
                i
            } else {
                i - 1
            };
            let b = if j < m {
                j
            } else {
                j - 1
            };
            assert(t[a] == s[i] && t[b] == s[j]);
        }
    } else {
        assert forall|i: int, j: int|
            0 <= i < j < s.len() && (#[trigger] s[i]).accesses == (#[trigger] s[j]).accesses
                && holds(r, s[i].user) implies holds(r, s[j].user) by {
            assert(r[j].user == s[j].user);
        }
    }
}

/// The mean cache: entries in the order in which they were inserted.
pub struct MeanCache {
    entries: Vec<MeanEntry>,
    max_entries: usize,
    keep: usize,
}

impl View for MeanCache {
    type V = Seq<MeanEntry>;

    closed spec fn view(&self) -> Seq<MeanEntry> {
        self.entries@
    }
}

fn copy_entries(src: &Vec<MeanEntry>) -> (r: Vec<MeanEntry>)
    ensures
        r@ == src@,
{
    let mut r: Vec<MeanEntry> = Vec::new();
    let mut i: usize = 0;
    while i < src.len()
        invariant
            i <= src@.len(),
            r@ == src@.subrange(0, i as int),
        decreases src@.len() - i,
    {
        r.push(src[i]);
        i = i + 1;
        assert(r@ =~= src@.subrange(0, i as int));
    }
    assert(r@ =~= src@);
    r
}

impl MeanCache {
    #[verifier::type_invariant]
    spec fn well_formed(self) -> bool {
        distinct(self.entries@) && self.keep <= self.max_entries
    }

    /// The soft maximum of entries.
    pub closed spec fn limit(&self) -> nat {
        self.max_entries as nat
    }

    /// How many entries a shrink leaves.
    pub closed spec fn kept(&self) -> nat {
        self.keep as nat
    }

    /// An empty cache that shrinks to `ceil(keep_ratio * max_entries)` entries
    /// once it holds more than `max_entries`.
    pub fn new(max_entries: usize, keep_ratio: Ratio) -> (c: MeanCache)
        ensures
            c@ == Seq::<MeanEntry>::empty(),
            c.limit() == max_entries,
            c.kept() == keep_ratio.ceil_of(max_entries as nat),
    {
        let keep: usize = keep_ratio.scale_up(max_entries);
        MeanCache { entries: Vec::new(), max_entries, keep }
    }

    /// An empty cache with the bounds of this one.
    pub fn emptied(&self) -> (c: MeanCache)
        ensures
            c@ == Seq::<MeanEntry>::empty(),
            c.limit() == self.limit(),
            c.kept() == self.kept(),
    {
        proof {
            use_type_invariant(self);
        }
        MeanCache { entries: Vec::new(), max_entries: self.max_entries, keep: self.keep }
    }

    /// The soft maximum of entries.
    pub fn max_entries(&self) -> (n: usize)
        ensures
            n == self.limit(),
    {
        self.max_entries
    }

    /// How many entries a shrink leaves.
    pub fn keep_count(&self) -> (n: usize)
        ensures
            n == self.kept(),
            n <= self.limit(),
    {
        proof {
            use_type_invariant(self);
        }
        self.keep
    }

    /// Does nothing when run; tells the verifier that no user has two
    /// entries.
    pub fn users_are_distinct(&self)
        ensures
            distinct(self@),
    {
        proof {
            use_type_invariant(self);
        }
    }

    /// Number of cached means.
    pub fn len(&self) -> (n: usize)
        ensures
            n == self@.len(),
            distinct(self@),
    {
        proof {
            use_type_invariant(self);
        }
        self.entries.len()
    }

    /// Whether no mean is cached.
    pub fn is_empty(&self) -> (b: bool)
        ensures
            b == (self@.len() == 0),
    {
        self.entries.len() == 0
    }

    fn position(&self, user: u64) -> (r: Option<usize>)
        ensures
            distinct(self@),
            match r {
                Some(i) => i < self@.len() && self@[i as int].user == user,
                None => !holds(self@, user),
            },
    {
        proof {
            use_type_invariant(self);
        }
        let mut i: usize = 0;
        while i < self.entries.len()
            invariant
                i <= self.entries@.len(),
                distinct(self.entries@),
                forall|j: int| 0 <= j < i ==> self.entries@[j].user != user,
            decreases self.entries@.len() - i,
        {
            if self.entries[i].user == user {
                return Some(i);
            }
            i = i + 1;
        }
        None
    }

    /// Whether a mean is cached for `user`. This is not a read.
    pub fn has_mean_for(&self, user: u64) -> (b: bool)
        ensures
            b == holds(self@, user),
    {
        self.position(user).is_some()
    }

    /// The entry cached for `user`, if any. This is not a read.
    pub fn entry_for(&self, user: u64) -> (r: Option<MeanEntry>)
        ensures
            match r {
                Some(e) => e.user == user && member(self@, e),
                None => !holds(self@, user),
            },
    {
        match self.position(user) {
            Some(i) => Some(self.entries[i]),
            None => None,
        }
    }

    /// The users that have a cached mean, oldest entry first.
    pub fn users(&self) -> (r: Vec<u64>)
        ensures
            r@.len() == self@.len(),
            forall|i: int| 0 <= i < r@.len() ==> r@[i] == self@[i].user,
    {
        let mut r: Vec<u64> = Vec::new();
        let mut i: usize = 0;
        while i < self.entries.len()
            invariant
                i <= self.entries@.len(),
                r@.len() == i,
                forall|j: int| 0 <= j < i ==> r@[j] == self.entries@[j].user,
            decreases self.entries@.len() - i,
        {
            r.push(self.entries[i].user);
            i = i + 1;
        }
        r
    }

    /// Reads the mean cached for `user` and counts the read.
    pub fn get_mean(&mut self, user: u64) -> (r: Option<i64>)
        ensures
            final(self).limit() == old(self).limit(),
            final(self).kept() == old(self).kept(),
            match r {
                Some(mean) => exists|i: int|
                    0 <= i < old(self)@.len() && (#[trigger] old(self)@[i]).user == user && mean
                        == old(self)@[i].mean && final(self)@ == old(self)@.update(
                        i,
                        touched(old(self)@[i]),
                    ),
                None => !holds(old(self)@, user) && final(self)@ == old(self)@,
            },
            r == mean_of(old(self)@, user),
            final(self)@ == read(old(self)@, user),
            refreshed(old(self)@, final(self)@),
            distinct(old(self)@),
    {
        proof {
            use_type_invariant(&*self);
        }
        match self.position(user) {
            Some(i) => {
                let e: MeanEntry = self.entries[i];
                let accesses: u32 = if e.accesses == u32::MAX {
                    e.accesses
                } else {
                    e.accesses + 1
                };
                let mut fresh: Vec<MeanEntry> = copy_entries(&self.entries);
                fresh.set(i, MeanEntry { user: e.user, mean: e.mean, accesses });
                proof {
                    let before = self.entries@;
                    assert(fresh@ == before.update(i as int, touched(before[i as int])));
                    lemma_mean_at(before, i as int);
                    lemma_read_at(before, i as int);
                    assert forall|a: int, b: int| 0 <= a < b < fresh@.len() implies fresh@[a].user
                        != fresh@[b].user by {
                        assert(fresh@[a].user == before[a].user);
                        assert(fresh@[b].user == before[b].user);
                    }
                }
                *self = MeanCache {
                    entries: fresh,
                    max_entries: self.max_entries,
                    keep: self.keep,
                };
                Some(e.mean)
            },
            None => None,
        }
    }

    /// Caches every mean of `batch` whose user has none yet; the entries
    /// that exist stay as they are, read counters included.
    pub fn add_new_means(&mut self, batch: &Ratings)
        ensures
            final(self).limit() == old(self).limit(),
            final(self).kept() == old(self).kept(),
            final(self)@ == absorb(old(self)@, batch.pairs()),
            old(self)@.len() <= final(self)@.len(),
            final(self)@.subrange(0, old(self)@.len() as int) == old(self)@,
            forall|u: u64|
                holds(final(self)@, u) <==> holds(old(self)@, u) || batch@.contains_key(u),
    {
        proof {
            use_type_invariant(&*self);
        }
        let pairs = batch.as_vec();
        let ghost before = self.entries@;
        let mut fresh: Vec<MeanEntry> = copy_entries(&self.entries);
        let mut i: usize = 0;
        assert(pairs@.subrange(0, 0) =~= Seq::<Pair>::empty());
        assert(fresh@.subrange(0, before.len() as int) =~= before);
        while i < pairs.len()
            invariant
                i <= pairs@.len(),
                distinct(fresh@),
                fresh@ == absorb(before, pairs@.subrange(0, i as int)),
                before.len() <= fresh@.len(),
                fresh@.subrange(0, before.len() as int) == before,
                forall|u: u64|
                    #![all_triggers]
                    holds(fresh@, u) <==> holds(before, u) || has_key(
                        pairs@.subrange(0, i as int),
                        u,
                    ),
            decreases pairs@.len() - i,
        {
            let (user, mean) = pairs[i];
            let ghost prev = fresh@;
            let ghost done = pairs@.subrange(0, i as int);
            let ghost next = pairs@.subrange(0, i + 1);
            assert(next.drop_last() =~= done);
            assert(next.last() == pairs@[i as int]);
            let mut found: bool = false;
            let mut j: usize = 0;
            while j < fresh.len()
                invariant
                    j <= fresh@.len(),
                    fresh@ == prev,
                    found <==> exists|k: int| 0 <= k < j && fresh@[k].user == user,
                decreases fresh@.len() - j,
            {
                if fresh[j].user == user {
                    found = true;
                }
                j = j + 1;
            }
            assert(found == holds(prev, user));
            if !found {
                fresh.push(MeanEntry { user, mean, accesses: 0 });
                assert(fresh@.subrange(0, before.len() as int) =~= before);
                assert(fresh@[prev.len() as int].user == user);
            }
            proof {
                assert forall|u: u64|
                    #![all_triggers]
                    holds(fresh@, u) <==> holds(before, u) || has_key(next, u) by {
                    if holds(fresh@, u) {
                        let k = choose|k: int| 0 <= k < fresh@.len() && fresh@[k].user == u;
                        if k < prev.len() {
                            assert(prev[k].user == u);
                            assert(holds(prev, u));
                            if has_key(done, u) {
                                let q = choose|q: int| 0 <= q < done.len() && done[q].0 == u;
                                assert(next[q].0 == u);
                            }
                        } else {
                            assert(next[i as int].0 == u);
                        }
                    }
                    if has_key(next, u) {
                        let q = choose|q: int| 0 <= q < next.len() && next[q].0 == u;
                        if q < i {
                            assert(done[q].0 == u);
                            assert(has_key(done, u));
                            assert(holds(prev, u));
                            let k = choose|k: int| 0 <= k < prev.len() && prev[k].user == u;
                            assert(fresh@[k].user == u);
                        } else {
                            assert(u == user);
                            if found {
                                let k = choose|k: int| 0 <= k < prev.len() && prev[k].user == u;
                                assert(fresh@[k].user == u);
                            } else {
                                assert(fresh@[prev.len() as int].user == u);
                            }
                        }
                    }
                    if holds(before, u) {
                        assert(holds(prev, u));
                        let k = choose|k: int| 0 <= k < prev.len() && prev[k].user == u;
                        assert(fresh@[k].user == u);
                    }
                }
            }
            i = i + 1;
        }
        proof {
            assert(pairs@.subrange(0, i as int) =~= pairs@);
            assert forall|u: u64|
                holds(fresh@, u) <==> holds(before, u) || batch@.contains_key(u) by {
            }
        }
        *self = MeanCache { entries: fresh, max_entries: self.max_entries, keep: self.keep };
    }

    /// Once the cache holds more than its soft maximum, evicts the least-read
    /// entries, oldest first among equals, until the kept count remains.
    pub fn shrink_means(&mut self)
        ensures
            final(self).limit() == old(self).limit(),
            final(self).kept() == old(self).kept(),
            final(self)@ == if old(self)@.len() > old(self).limit() {
                evict(old(self)@, old(self).kept())
            } else {
                old(self)@
            },
            old(self)@.len() > old(self).limit() ==> final(self)@.len() == old(self).kept(),
            final(self)@.len() <= old(self)@.len(),
    {
        proof {
            use_type_invariant(&*self);
        }
        if self.entries.len() <= self.max_entries {
            return ;
        }
        let ghost before = self.entries@;
        let keep: usize = self.keep;
        let mut fresh: Vec<MeanEntry> = copy_entries(&self.entries);
        while fresh.len() > keep
            invariant
                evict(fresh@, keep as nat) == evict(before, keep as nat),
                fresh@.len() <= before.len(),
            decreases fresh@.len(),
        {
            let mut best: usize = 0;
            let mut i: usize = 1;
            assert(fresh@.subrange(0, 1).len() == 1);
            while i < fresh.len()
                invariant
                    1 <= i <= fresh@.len(),
                    best == first_min(fresh@.subrange(0, i as int)),
                    best < i,
                decreases fresh@.len() - i,
            {
                let ghost head = fresh@.subrange(0, i as int);
                let ghost more = fresh@.subrange(0, i + 1);
                assert(more.drop_last() =~= head);
                assert(more[best as int] == fresh@[best as int]);
                if fresh[i].accesses < fresh[best].accesses {
                    best = i;
                }
                i = i + 1;
            }
            assert(fresh@.subrange(0, i as int) =~= fresh@);
            fresh.remove(best);
        }
        proof {
            lemma_evict_len(before, keep as nat);
            lemma_evict_subset(before, keep as nat);
        }
        *self = MeanCache { entries: fresh, max_entries: self.max_entries, keep: self.keep };
    }

    /// Replaces the mean cached for `user`, keeping its read counter; does
    /// nothing where none is cached.
    pub fn maybe_update_mean_for(&mut self, user: u64, mean: i64)
        ensures
            final(self).limit() == old(self).limit(),
            final(self).kept() == old(self).kept(),
            final(self)@.len() == old(self)@.len(),
            forall|i: int|
                0 <= i < old(self)@.len() ==> (#[trigger] final(self)@[i]) == if old(
                    self,
                )@[i].user == user {
                    MeanEntry { user, mean, accesses: old(self)@[i].accesses }
                } else {
                    old(self)@[i]
                },
    {
        proof {
            use_type_invariant(&*self);
        }
        match self.position(user) {
            Some(i) => {
                let e: MeanEntry = self.entries[i];
                let mut fresh: Vec<MeanEntry> = copy_entries(&self.entries);
                fresh.set(i, MeanEntry { user: e.user, mean, accesses: e.accesses });
                proof {
                    let before = self.entries@;
                    assert forall|a: int, b: int| 0 <= a < b < fresh@.len() implies fresh@[a].user
                        != fresh@[b].user by {
                        assert(fresh@[a].user == before[a].user);
                        assert(fresh@[b].user == before[b].user);
                    }
                    assert forall|k: int| 0 <= k < before.len() && k != i implies before[k].user
                        != user by {
                        if k < i {
                            assert(before[k].user != before[i as int].user);
                        } else {
                            assert(before[i as int].user != before[k].user);
                        }
                    }
                }
                *self = MeanCache {
                    entries: fresh,
                    max_entries: self.max_entries,
                    keep: self.keep,
                };
            },
            None => {},
        }
    }

    /// Forgets the mean cached for `user`; does nothing where none is cached.
    pub fn maybe_delete_mean_for(&mut self, user: u64)
        ensures
            final(self).limit() == old(self).limit(),
            final(self).kept() == old(self).kept(),
            !holds(final(self)@, user),
            final(self)@ == old(self)@.filter(|e: MeanEntry| e.user != user),
    {
        proof {
            use_type_invariant(&*self);
        }
        let ghost before = self.entries@;
        let ghost pred = |e: MeanEntry| e.user != user;
        match self.position(user) {
            Some(i) => {
                let mut fresh: Vec<MeanEntry> = copy_entries(&self.entries);
                fresh.remove(i);
                proof {
                    lemma_filter_one(before, i as int);
                    assert forall|a: int, b: int| 0 <= a < b < fresh@.len() implies fresh@[a].user
                        != fresh@[b].user by {
                        let x = if a < i {
                            a
                        } else {
                            a + 1
                        };
                        let y = if b < i {
                            b
                        } else {
                            b + 1
                        };
                        assert(fresh@[a] == before[x] && fresh@[b] == before[y]);
                    }
                    assert(!holds(fresh@, user)) by {
                        if holds(fresh@, user) {
                            let a = choose|a: int| 0 <= a < fresh@.len() && fresh@[a].user == user;
                            let x = if a < i {
                                a
                            } else {
                                a + 1
                            };
                            assert(fresh@[a] == before[x]);
                            if x < i {
                                assert(before[x].user != before[i as int].user);
                            } else {
                                assert(before[i as int].user != before[x].user);
                            }
                        }
                    }
                }
                *self = MeanCache {
                    entries: fresh,
                    max_entries: self.max_entries,
                    keep: self.keep,
                };
            },
            None => {
                proof {
                    lemma_filter_none(before, user);
                }
            },
        }
    }
}

/// Filtering out a user that has no entry changes nothing.
pub proof fn lemma_filter_none(s: Seq<MeanEntry>, user: u64)
    requires
        !holds(s, user),
    ensures
        s.filter(|e: MeanEntry| e.user != user) == s,
    decreases s.len(),
{
    reveal(Seq::filter);
    let pred = |e: MeanEntry| e.user != user;
    if s.len() > 0 {
        let t = s.drop_last();
        assert(!holds(t, user)) by {
            if holds(t, user) {
                let k = choose|k: int| 0 <= k < t.len() && t[k].user == user;
                assert(s[k].user == user);
            }
        }
        lemma_filter_none(t, user);
        assert(s[s.len() - 1].user != user);
        assert(s.filter(pred) =~= t.filter(pred).push(s.last()));
        assert(t.push(s.last()) =~= s);
    } else {
        assert(s.filter(pred) =~= s);
    }
}

/// Where users are distinct, filtering out the user at position `i` removes
/// that one entry.
pub proof fn lemma_filter_one(s: Seq<MeanEntry>, i: int)
    requires
        distinct(s),
        0 <= i < s.len(),
    ensures
        s.filter(|e: MeanEntry| e.user != s[i].user) == s.remove(i),
    decreases s.len(),
{
    reveal(Seq::filter);
    let user = s[i].user;
    let pred = |e: MeanEntry| e.user != user;
    let t = s.drop_last();
    if i == s.len() - 1 {
        assert(!holds(t, user)) by {
            if holds(t, user) {
                let k = choose|k: int| 0 <= k < t.len() && t[k].user == user;
                assert(s[k].user != s[i].user);
            }
        }
        lemma_filter_none(t, user);
        assert(s.filter(pred) =~= t.filter(pred));
        assert(s.remove(i) =~= t);
    } else {
        assert(distinct(t)) by {
            assert forall|a: int, b: int| 0 <= a < b < t.len() implies t[a].user != t[b].user by {
                assert(t[a] == s[a] && t[b] == s[b]);
            }
        }
        assert(t[i] == s[i]);
        lemma_filter_one(t, i);
        assert(s[i].user != s[s.len() - 1].user);
        assert(s.filter(pred) =~= t.filter(pred).push(s.last()));
        assert(s.remove(i) =~= t.remove(i).push(s.last()));
    }
}

} // verus!
