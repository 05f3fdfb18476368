//! Pairing of two rating vectors over the keys that both rate: the part of
//! every pairwise metric that decides what is compared.
use crate::mean_cache::{
    distinct, holds, lemma_refreshed_means, mean_of, read, refreshed, MeanCache, MeanEntry,
};
use crate::ratings::{as_map, ascending, has_key, index_of, lemma_index_unique, Pair, Ratings};
use vstd::prelude::*;

verus! {

/// The two scores stored under one key in both vectors.
#[derive(Clone, Copy, Debug)]
pub struct Term {
    pub key: u64,
    pub left: i64,
    pub right: i64,
}

/// The terms of `a` against `b`: one for every pair of `a` whose key `b`
/// rates too, in the order of `a`.
pub open spec fn shared(a: Seq<Pair>, b: Map<u64, i64>) -> Seq<Term>
    decreases a.len(),
{
    if a.len() == 0 {
        Seq::<Term>::empty()
    } else {
        let rest = shared(a.drop_last(), b);
        let last = a.last();
        if b.contains_key(last.0) {
            rest.push(Term { key: last.0, left: last.1, right: b[last.0] })
        } else {
            rest
        }
    }
}

/// Every term of `shared` comes from a common key, with both scores.
pub proof fn lemma_shared_sound(a: Seq<Pair>, b: Map<u64, i64>)
    requires
        ascending(a),
    ensures
        shared(a, b).len() <= a.len(),
        forall|i: int|
            0 <= i < shared(a, b).len() ==> {
                let t = #[trigger] shared(a, b)[i];
                &&& as_map(a).contains_key(t.key)
                &&& b.contains_key(t.key)
                &&& t.left == as_map(a)[t.key]
                &&& t.right == b[t.key]
            },
        forall|i: int, j: int|
            0 <= i < j < shared(a, b).len() ==> shared(a, b)[i].key < shared(a, b)[j].key,
        forall|i: int|
            0 <= i < shared(a, b).len() && a.len() > 0 ==> (#[trigger] shared(a, b)[i]).key
                <= a.last().0,
    decreases a.len(),
{
    if a.len() > 0 {
        let front = a.drop_last();
        let last = a.last();
        assert(ascending(front));
        lemma_shared_sound(front, b);
        let rest = shared(front, b);
        let all = shared(a, b);
        assert forall|i: int| 0 <= i < rest.len() implies (#[trigger] rest[i]).key < last.0 by {
            if front.len() > 0 {
                assert(front.last() == a[a.len() - 2]);
                assert(a[a.len() - 2].0 < a[a.len() - 1].0);
            }
        }
        assert forall|i: int| 0 <= i < all.len() implies {
            let t = #[trigger] all[i];
            &&& as_map(a).contains_key(t.key)
            &&& b.contains_key(t.key)
            &&& t.left == as_map(a)[t.key]
            &&& t.right == b[t.key]
        } by {
            let t = all[i];
            if i < rest.len() {
                assert(t == rest[i]);
                assert(has_key(front, t.key));
                let p = index_of(front, t.key);
                lemma_index_unique(front, p);
                assert(a[p] == front[p]);
                lemma_index_unique(a, p);
            } else {
                lemma_index_unique(a, a.len() - 1);
            }
        }
    }
}

/// Every key that both vectors rate has a term in `shared`.
pub proof fn lemma_shared_complete(a: Seq<Pair>, b: Map<u64, i64>, k: u64)
    requires
        has_key(a, k),
        b.contains_key(k),
    ensures
        exists|i: int| 0 <= i < shared(a, b).len() && shared(a, b)[i].key == k,
    decreases a.len(),
{
    let p = index_of(a, k);
    let front = a.drop_last();
    let rest = shared(front, b);
    if a.last().0 == k {
        assert(shared(a, b)[rest.len() as int].key == k);
    } else {
        assert(front[p].0 == k);
        lemma_shared_complete(front, b, k);
        let i = choose|i: int| 0 <= i < rest.len() && rest[i].key == k;
        assert(shared(a, b)[i] == rest[i]);
    }
}

/// Vectors without a common key have no term.
pub proof fn lemma_disjoint_shares_nothing(a: Seq<Pair>, b: Map<u64, i64>)
    requires
        forall|k: u64| !(has_key(a, k) && b.contains_key(k)),
    ensures
        shared(a, b) == Seq::<Term>::empty(),
    decreases a.len(),
{
    if a.len() > 0 {
        let front = a.drop_last();
        assert forall|k: u64| !(has_key(front, k) && b.contains_key(k)) by {
            if has_key(front, k) {
                let p = index_of(front, k);
                assert(a[p].0 == k);
                assert(has_key(a, k));
            }
        }
        lemma_disjoint_shares_nothing(front, b);
        assert(a[a.len() - 1].0 == a.last().0);
        assert(has_key(a, a.last().0));
    }
}

/// A vector paired with itself has a term for each of its keys, with the
/// same score on both sides.
pub proof fn lemma_shared_self(a: Seq<Pair>)
    requires
        ascending(a),
    ensures
        shared(a, as_map(a)).len() == a.len(),
        forall|i: int|
            0 <= i < a.len() ==> (#[trigger] shared(a, as_map(a))[i]) == (Term {
                key: a[i].0,
                left: a[i].1,
                right: a[i].1,
            }),
{
    lemma_shared_prefix(a, a.len() as int);
    assert(a.subrange(0, a.len() as int) =~= a);
}

/// The terms of a prefix of an ascending vector against the whole vector.
proof fn lemma_shared_prefix(a: Seq<Pair>, n: int)
    requires
        ascending(a),
        0 <= n <= a.len(),
    ensures
        shared(a.subrange(0, n), as_map(a)).len() == n,
        forall|i: int|
            0 <= i < n ==> (#[trigger] shared(a.subrange(0, n), as_map(a))[i]) == (Term {
                key: a[i].0,
                left: a[i].1,
                right: a[i].1,
            }),
    decreases n,
{
    if n > 0 {
        lemma_shared_prefix(a, n - 1);
        let front = a.subrange(0, n);
        assert(front.drop_last() =~= a.subrange(0, n - 1));
        assert(front.last() == a[n - 1]);
        lemma_index_unique(a, n - 1);
    }
}

/// The term seen from the other side.
pub open spec fn flipped(t: Term) -> Term {
    Term { key: t.key, left: t.right, right: t.left }
}

/// Some term of `s` is about `k`.
pub open spec fn has_term(s: Seq<Term>, k: u64) -> bool {
    exists|i: int| 0 <= i < s.len() && s[i].key == k
}

/// The keys of the terms grow strictly.
pub open spec fn rising(s: Seq<Term>) -> bool {
    forall|i: int, j: int| 0 <= i < j < s.len() ==> s[i].key < s[j].key
}

/// Two rising sequences of terms about the same keys hold them at the same
/// places.
pub proof fn lemma_same_keys(s: Seq<Term>, t: Seq<Term>)
    requires
        rising(s),
        rising(t),
        forall|k: u64| has_term(s, k) == has_term(t, k),
    ensures
        s.len() == t.len(),
        forall|i: int| 0 <= i < s.len() ==> (#[trigger] s[i]).key == t[i].key,
    decreases s.len(),
{
    if s.len() == 0 {
        if t.len() > 0 {
            assert(has_term(t, t[0].key));
            assert(has_term(s, t[0].key));
        }
    } else {
        let sl = s.last().key;
        assert(has_term(s, sl)) by {
            assert(s[s.len() - 1].key == sl);
        }
        assert(has_term(t, sl));
        let j = choose|j: int| 0 <= j < t.len() && t[j].key == sl;
        let tl = t.last().key;
        assert(has_term(t, tl)) by {
            assert(t[t.len() - 1].key == tl);
        }
        assert(has_term(s, tl));
        let i = choose|i: int| 0 <= i < s.len() && s[i].key == tl;
        if j < t.len() - 1 {
            assert(t[j].key < t[t.len() - 1].key);
        }
        if i < s.len() - 1 {
            assert(s[i].key < s[s.len() - 1].key);
        }
        assert(sl == tl);
        let sf = s.drop_last();
        let tf = t.drop_last();
        assert forall|k: u64| has_term(sf, k) == has_term(tf, k) by {
            if has_term(sf, k) {
                let p = choose|p: int| 0 <= p < sf.len() && sf[p].key == k;
                assert(s[p].key < s[s.len() - 1].key);
                assert(s[p].key == k);
                assert(has_term(s, k));
                let q = choose|q: int| 0 <= q < t.len() && t[q].key == k;
                assert(q < t.len() - 1);
                assert(tf[q].key == k);
            }
            if has_term(tf, k) {
                let q = choose|q: int| 0 <= q < tf.len() && tf[q].key == k;
                assert(t[q].key < t[t.len() - 1].key);
                assert(t[q].key == k);
                assert(has_term(t, k));
                let p = choose|p: int| 0 <= p < s.len() && s[p].key == k;
                assert(p < s.len() - 1);
                assert(sf[p].key == k);
            }
        }
        assert(rising(sf));
        assert(rising(tf));
        lemma_same_keys(sf, tf);
        assert forall|i: int| 0 <= i < s.len() implies (#[trigger] s[i]).key == t[i].key by {
            if i < s.len() - 1 {
                assert(sf[i].key == tf[i].key);
            }
        }
    }
}

/// Pairing is symmetric: `b` against `a` gives the terms of `a` against
/// `b`, each seen from the other side. In particular both directions count
/// the same number of common keys.
pub proof fn lemma_shared_mirrored(a: Seq<Pair>, b: Seq<Pair>)
    requires
        ascending(a),
        ascending(b),
    ensures
        shared(b, as_map(a)).len() == shared(a, as_map(b)).len(),
        forall|i: int|
            0 <= i < shared(a, as_map(b)).len() ==> #[trigger] shared(b, as_map(a))[i]
                == flipped(shared(a, as_map(b))[i]),
{
    let forth = shared(a, as_map(b));
    let back = shared(b, as_map(a));
    lemma_shared_sound(a, as_map(b));
    lemma_shared_sound(b, as_map(a));
    assert forall|k: u64| has_term(forth, k) == has_term(back, k) by {
        if has_term(forth, k) {
            let i = choose|i: int| 0 <= i < forth.len() && forth[i].key == k;
            let t = forth[i];
            assert(as_map(a).contains_key(t.key) && as_map(b).contains_key(t.key));
            lemma_shared_complete(b, as_map(a), k);
        }
        if has_term(back, k) {
            let i = choose|i: int| 0 <= i < back.len() && back[i].key == k;
            let t = back[i];
            assert(as_map(b).contains_key(t.key) && as_map(a).contains_key(t.key));
            lemma_shared_complete(a, as_map(b), k);
        }
    }
    lemma_same_keys(forth, back);
    assert forall|i: int| 0 <= i < forth.len() implies #[trigger] back[i] == flipped(
        forth[i],
    ) by {
        let t = forth[i];
        let u = back[i];
        assert(t.key == u.key);
    }
}

/// The terms of `a` against `b`, in ascending key order.
pub fn common(a: &Ratings, b: &Ratings) -> (r: Vec<Term>)
    ensures
        r@ == shared(a.pairs(), b@),
        r@.len() <= a.pairs().len(),
{
    let pairs = a.as_vec();
    let mut r: Vec<Term> = Vec::new();
    let mut i: usize = 0;
    assert(pairs@.subrange(0, 0) =~= Seq::<Pair>::empty());
    while i < pairs.len()
        invariant
            i <= pairs@.len(),
            r@ == shared(pairs@.subrange(0, i as int), b@),
            r@.len() <= i,
        decreases pairs@.len() - i,
    {
        let (key, left) = pairs[i];
        proof {
            let next = pairs@.subrange(0, i + 1);
            assert(next.drop_last() =~= pairs@.subrange(0, i as int));
            assert(next.last() == pairs@[i as int]);
        }
        match b.get(key) {
            Some(right) => {
                r.push(Term { key, left, right });
            },
            None => {},
        }
        i = i + 1;
    }
    assert(pairs@.subrange(0, i as int) =~= pairs@);
    r
}

/// A term together with the mean rating of the user that it belongs to.
#[derive(Clone, Copy, Debug)]
pub struct Centered {
    pub user: u64,
    pub left: i64,
    pub right: i64,
    pub mean: i64,
}

/// Every user of `terms` has a cached mean.
pub open spec fn all_cached(terms: Seq<Term>, cache: Seq<MeanEntry>) -> bool {
    forall|i: int| 0 <= i < terms.len() ==> mean_of(cache, (#[trigger] terms[i]).key).is_some()
}

/// The terms with their users' means; nothing where a user has no mean.
pub open spec fn centered(terms: Seq<Term>, cache: Seq<MeanEntry>) -> Option<Seq<Centered>> {
    if all_cached(terms, cache) {
        Some(
            Seq::new(
                terms.len(),
                |i: int|
                    Centered {
                        user: terms[i].key,
                        left: terms[i].left,
                        right: terms[i].right,
                        mean: mean_of(cache, terms[i].key).unwrap(),
                    },
            ),
        )
    } else {
        None
    }
}

/// The cache after the means of the users of `terms` were read in turn,
/// up to the first user that has none.
pub open spec fn centre_reads(s: Seq<MeanEntry>, terms: Seq<Term>) -> Seq<MeanEntry>
    decreases terms.len(),
{
    if terms.len() == 0 || !holds(s, terms[0].key) {
        s
    } else {
        centre_reads(read(s, terms[0].key), terms.drop_first())
    }
}

/// Reads of the cache do not change what the terms are centred on.
pub proof fn lemma_centered_stable(terms: Seq<Term>, s: Seq<MeanEntry>, t: Seq<MeanEntry>)
    requires
        distinct(s),
        refreshed(s, t),
    ensures
        centered(terms, t) == centered(terms, s),
{
    lemma_refreshed_means(s, t);
    if all_cached(terms, s) {
        assert(all_cached(terms, t));
        assert(centered(terms, t).unwrap() =~= centered(terms, s).unwrap());
    } else {
        assert(!all_cached(terms, t));
    }
}

/// Reads the mean of every term's user, stopping at the first user that
/// has none. Each mean that is read counts as one read.
pub fn center(terms: &Vec<Term>, cache: &mut MeanCache) -> (r: Option<Vec<Centered>>)
    ensures
        match r {
            Some(v) => centered(terms@, old(cache)@) == Some(v@),
            None => centered(terms@, old(cache)@).is_none(),
        },
        final(cache)@ == centre_reads(old(cache)@, terms@),
        refreshed(old(cache)@, final(cache)@),
        distinct(old(cache)@),
        final(cache).limit() == old(cache).limit(),
        final(cache).kept() == old(cache).kept(),
{
    let ghost before = cache@;
    let mut out: Vec<Centered> = Vec::new();
    let mut i: usize = 0;
    cache.users_are_distinct();
    assert(terms@.subrange(0, terms@.len() as int) =~= terms@);
    while i < terms.len()
        invariant
            i <= terms@.len(),
            before == old(cache)@,
            distinct(before),
            refreshed(before, cache@),
            cache.limit() == old(cache).limit(),
            cache.kept() == old(cache).kept(),
            centre_reads(cache@, terms@.subrange(i as int, terms@.len() as int)) == centre_reads(
                before,
                terms@,
            ),
            out@.len() == i,
            forall|k: int|
                0 <= k < i ==> mean_of(before, (#[trigger] terms@[k]).key).is_some() && out@[k]
                    == (Centered {
                    user: terms@[k].key,
                    left: terms@[k].left,
                    right: terms@[k].right,
                    mean: mean_of(before, terms@[k].key).unwrap(),
                }),
        decreases terms@.len() - i,
    {
        let t: Term = terms[i];
        let ghost mid = cache@;
        proof {
            lemma_refreshed_means(before, mid);
            let rest = terms@.subrange(i as int, terms@.len() as int);
            assert(rest[0] == terms@[i as int]);
            assert(rest.drop_first() =~= terms@.subrange(i + 1, terms@.len() as int));
        }
        match cache.get_mean(t.key) {
            Some(mean) => {
                out.push(Centered { user: t.key, left: t.left, right: t.right, mean });
            },
            None => {
                assert(!all_cached(terms@, before));
                return None;
            },
        }
        i = i + 1;
    }
    proof {
        assert(all_cached(terms@, before));
        assert(out@ =~= centered(terms@, before).unwrap());
    }
    Some(out)
}

} // verus!
