//! The pairwise metrics: which inputs a metric has a value on, and what is
//! handed to the kernel that computes it.
use crate::error::ErrorKind;
use crate::config::Ratio;
use crate::mean_cache::{absorb, distinct, refreshed, MeanCache, MeanEntry};
use crate::pairing::{
    all_cached, center, centered, centre_reads, common, lemma_centered_stable, lemma_disjoint_shares_nothing, shared,
    Centered, Term,
};
use crate::ratings::{has_key, Ratings};
use crate::score::{defined, settle};
use crate::store::UserRatings;
use vstd::prelude::*;

verus! {

/// The metrics between two users.
#[derive(Clone, Copy, Debug)]
pub enum UserMethod {
    Euclidean,
    Manhattan,
    Minkowski(u32),
    Jaccard,
    Cosine,
    Pearson,
}

impl UserMethod {
    /// Whether the metric grows with likeness; the others grow with
    /// difference.
    pub fn is_similarity(&self) -> (b: bool)
        ensures
            b == (*self is Jaccard || *self is Cosine || *self is Pearson),
    {
        match self {
            UserMethod::Jaccard => true,
            UserMethod::Cosine => true,
            UserMethod::Pearson => true,
            _ => false,
        }
    }
}

/// The metrics between two items.
#[derive(Debug, Copy, Clone)]
pub enum Method {
    AdjCosine,
    SlopeOne,
}

/// What two rating vectors have in common: a term for each key that both
/// rate, the number of those keys, and the number of keys that either rates.
pub struct Pairing {
    pub terms: Vec<Term>,
    pub both: usize,
    pub either: u128,
}

/// The pairing is that of the pairs `a` against the map `b` of `n` keys.
pub open spec fn pairing_of(p: Pairing, a: Seq<(u64, i64)>, b: Map<u64, i64>, n: nat) -> bool {
    &&& p.terms@ == shared(a, b)
    &&& p.both == shared(a, b).len()
    &&& p.either == a.len() + n - shared(a, b).len()
}

/// Pairs `a` with `b`.
pub fn pair(a: &Ratings, b: &Ratings) -> (p: Pairing)
    ensures
        pairing_of(p, a.pairs(), b@, b.pairs().len()),
{
    let terms = common(a, b);
    let both: usize = terms.len();
    let rest: usize = a.len() - both;
    let either: u128 = rest as u128 + b.len() as u128;
    Pairing { terms, both, either }
}

/// Whether the metric has anything to compute: the Jaccard index needs a
/// key on either side, every other metric a key that both sides rate.
pub open spec fn computable(method: UserMethod, both: nat, either: nat) -> bool {
    match method {
        UserMethod::Jaccard => either > 0,
        _ => both > 0,
    }
}

/// Whether the metric has anything to compute on the pairing.
pub fn has_value(method: UserMethod, p: &Pairing) -> (b: bool)
    ensures
        b == computable(method, p.both as nat, p.either as nat),
{
    match method {
        UserMethod::Jaccard => p.either > 0,
        _ => p.both > 0,
    }
}

/// The result of a metric from a kernel's outcome: the value where it is
/// finite, `UndefinedMetric` otherwise.
pub open spec fn verdict_of(outcome: Option<i64>) -> Result<i64, ErrorKind> {
    match defined(outcome) {
        Some(v) => Ok(v),
        None => Err(ErrorKind::UndefinedMetric),
    }
}

/// Turns a kernel's outcome into the result of the metric.
pub fn verdict(outcome: Option<i64>) -> (r: Result<i64, ErrorKind>)
    ensures
        r == verdict_of(outcome),
{
    match settle(outcome) {
        Some(v) => Ok(v),
        None => Err(ErrorKind::UndefinedMetric),
    }
}

/// `r` is what the metric gives on `a` and `b` with `kernel`:
/// `UndefinedMetric` where there is nothing to compute, else the verdict on
/// an outcome of the kernel for the pairing.
pub open spec fn distance_is<K: Fn(UserMethod, &Pairing) -> Option<i64>>(
    kernel: &K,
    method: UserMethod,
    a: Seq<(u64, i64)>,
    b: Map<u64, i64>,
    n: nat,
    r: Result<i64, ErrorKind>,
) -> bool {
    if computable(method, shared(a, b).len(), (a.len() + n - shared(a, b).len()) as nat) {
        exists|p: Pairing, out: Option<i64>|
            pairing_of(p, a, b, n) && #[trigger] call_ensures(*kernel, (method, &p), out) && r
                == verdict_of(out)
    } else {
        r == Err::<i64, ErrorKind>(ErrorKind::UndefinedMetric)
    }
}

/// Users without a common item have no distance by any metric but the
/// Jaccard index.
pub proof fn lemma_disjoint_users<K: Fn(UserMethod, &Pairing) -> Option<i64>>(
    kernel: &K,
    method: UserMethod,
    a: Seq<(u64, i64)>,
    b: Map<u64, i64>,
    n: nat,
    r: Result<i64, ErrorKind>,
)
    requires
        forall|k: u64| !(has_key(a, k) && b.contains_key(k)),
        distance_is(kernel, method, a, b, n, r),
        !(method is Jaccard),
    ensures
        r == Err::<i64, ErrorKind>(ErrorKind::UndefinedMetric),
{
    lemma_disjoint_shares_nothing(a, b);
}

/// For users without a common item the Jaccard index is computed from a
/// count of zero common keys over the count of all keys.
pub proof fn lemma_disjoint_jaccard(p: Pairing, a: Seq<(u64, i64)>, b: Map<u64, i64>, n: nat)
    requires
        forall|k: u64| !(has_key(a, k) && b.contains_key(k)),
        pairing_of(p, a, b, n),
    ensures
        p.both == 0,
        p.terms@.len() == 0,
        p.either == a.len() + n,
{
    lemma_disjoint_shares_nothing(a, b);
}

/// The distance between two rating vectors.
pub fn distance_between<K: Fn(UserMethod, &Pairing) -> Option<i64>>(
    a: &Ratings,
    b: &Ratings,
    method: UserMethod,
    kernel: &K,
) -> (r: Result<i64, ErrorKind>)
    requires
        forall|m: UserMethod, p: &Pairing| call_requires(*kernel, (m, p)),
    ensures
        distance_is(kernel, method, a.pairs(), b@, b.pairs().len(), r),
{
    let p = pair(a, b);
    if has_value(method, &p) {
        let out = kernel(method, &p);
        verdict(out)
    } else {
        Err(ErrorKind::UndefinedMetric)
    }
}

/// `v` is what the deviation of the pairs against `rb` comes to with
/// `kernel`: nothing where no key is common, else the finite value of an
/// outcome of the kernel on the common terms, and nothing where that
/// outcome is no finite value.
pub open spec fn deviation_is<K: Fn(&Vec<Term>) -> Option<i64>>(
    kernel: &K,
    pairs: Seq<(u64, i64)>,
    rb: Map<u64, i64>,
    v: Option<i64>,
) -> bool {
    if shared(pairs, rb).len() == 0 {
        v.is_none()
    } else {
        exists|terms: Vec<Term>, out: Option<i64>|
            terms@ == shared(pairs, rb) && #[trigger] call_ensures(*kernel, (&terms,), out) && v
                == defined(out)
    }
}

/// `v` is what the similarity of the pairs against `rb` comes to with
/// `kernel` on the means in `cache`: nothing where no key is common or a
/// common user has no mean, else the finite value of an outcome of the
/// kernel on the centred terms, and nothing where that outcome is no finite
/// value.
pub open spec fn similarity_is<K: Fn(&Vec<Centered>) -> Option<i64>>(
    kernel: &K,
    pairs: Seq<(u64, i64)>,
    rb: Map<u64, i64>,
    cache: Seq<MeanEntry>,
    v: Option<i64>,
) -> bool {
    match centered(shared(pairs, rb), cache) {
        Some(c) => if c.len() == 0 {
            v.is_none()
        } else {
            exists|terms: Vec<Centered>, out: Option<i64>|
                terms@ == c && #[trigger] call_ensures(*kernel, (&terms,), out) && v == defined(
                    out,
                )
        },
        None => v.is_none(),
    }
}

/// Items without a common rater have neither a deviation nor a similarity.
pub proof fn lemma_disjoint_items<
    KS: Fn(&Vec<Term>) -> Option<i64>,
    KA: Fn(&Vec<Centered>) -> Option<i64>,
>(
    slope: &KS,
    cosine: &KA,
    a: Seq<(u64, i64)>,
    b: Map<u64, i64>,
    cache: Seq<MeanEntry>,
    v: Option<i64>,
)
    requires
        forall|k: u64| !(has_key(a, k) && b.contains_key(k)),
        deviation_is(slope, a, b, v) || similarity_is(cosine, a, b, cache, v),
    ensures
        v.is_none(),
{
    lemma_disjoint_shares_nothing(a, b);
    assert(all_cached(shared(a, b), cache));
}

/// What a similarity comes to on the means of a cache, it comes to on the
/// means of the cache before some reads.
pub proof fn lemma_similarity_stable<K: Fn(&Vec<Centered>) -> Option<i64>>(
    kernel: &K,
    pairs: Seq<(u64, i64)>,
    rb: Map<u64, i64>,
    s: Seq<MeanEntry>,
    t: Seq<MeanEntry>,
    v: Option<i64>,
)
    requires
        distinct(s),
        refreshed(s, t),
    ensures
        similarity_is(kernel, pairs, rb, t, v) == similarity_is(kernel, pairs, rb, s, v),
{
    lemma_centered_stable(shared(pairs, rb), s, t);
}

/// The slope-one deviation from the item rated as `a` to the item rated as
/// `b`, with the number of users who rated both; `UndefinedMetric` where
/// no user did or the kernel's outcome is no finite value.
pub fn slope_one<K: Fn(&Vec<Term>) -> Option<i64>>(a: &Ratings, b: &Ratings, kernel: &K) -> (r:
    Result<(i64, usize), ErrorKind>)
    requires
        forall|t: &Vec<Term>| call_requires(*kernel, (t,)),
    ensures
        match r {
            Ok(found) => found.1 == shared(a.pairs(), b@).len() && deviation_is(
                kernel,
                a.pairs(),
                b@,
                Some(found.0),
            ),
            Err(e) => e == ErrorKind::UndefinedMetric && deviation_is(kernel, a.pairs(), b@, None),
        },
{
    let terms = common(a, b);
    if terms.len() == 0 {
        return Err(ErrorKind::UndefinedMetric);
    }
    let out = kernel(&terms);
    match settle(out) {
        Some(v) => Ok((v, terms.len())),
        None => Err(ErrorKind::UndefinedMetric),
    }
}

/// The adjusted-cosine similarity between two items from the users who
/// rated both: `UndefinedMetric` where no user did, where one of them has
/// no cached mean, or where the kernel's outcome is no finite value. The
/// means of the common users are read in ascending order of the users, up
/// to the first that has none; each read counts.
pub fn fast_adjusted_cosine<K: Fn(&Vec<Centered>) -> Option<i64>>(
    a: &Ratings,
    b: &Ratings,
    cache: &mut MeanCache,
    kernel: &K,
) -> (r: Result<i64, ErrorKind>)
    requires
        forall|t: &Vec<Centered>| call_requires(*kernel, (t,)),
    ensures
        match r {
            Ok(v) => similarity_is(kernel, a.pairs(), b@, old(cache)@, Some(v)),
            Err(e) => e == ErrorKind::UndefinedMetric && similarity_is(
                kernel,
                a.pairs(),
                b@,
                old(cache)@,
                None,
            ),
        },
        final(cache)@ == centre_reads(old(cache)@, shared(a.pairs(), b@)),
        refreshed(old(cache)@, final(cache)@),
        distinct(old(cache)@),
        final(cache).limit() == old(cache).limit(),
        final(cache).kept() == old(cache).kept(),
{
    let plain = common(a, b);
    match center(&plain, cache) {
        Some(terms) => {
            if terms.len() == 0 {
                return Err(ErrorKind::UndefinedMetric);
            }
            let out = kernel(&terms);
            match settle(out) {
                Some(v) => Ok(v),
                None => Err(ErrorKind::UndefinedMetric),
            }
        },
        None => Err(ErrorKind::UndefinedMetric),
    }
}

/// The scores that the users of `vecs` gave `item`; of two entries of one
/// user the later counts.
pub open spec fn column_of(vecs: Seq<UserRatings>, item: u64) -> Map<u64, i64>
    decreases vecs.len(),
{
    if vecs.len() == 0 {
        Map::<u64, i64>::empty()
    } else {
        let rest = column_of(vecs.drop_last(), item);
        let last = vecs.last();
        if last.ratings@.contains_key(item) {
            rest.insert(last.user, last.ratings@[item])
        } else {
            rest
        }
    }
}

/// The scores that the users of `vecs` gave `item`.
pub fn item_column(vecs: &Vec<UserRatings>, item: u64) -> (r: Ratings)
    ensures
        r@ == column_of(vecs@, item),
{
    let mut r = Ratings::new();
    let mut i: usize = 0;
    assert(vecs@.subrange(0, 0) =~= Seq::<UserRatings>::empty());
    while i < vecs.len()
        invariant
            i <= vecs@.len(),
            r@ == column_of(vecs@.subrange(0, i as int), item),
        decreases vecs@.len() - i,
    {
        proof {
            let next = vecs@.subrange(0, i + 1);
            assert(next.drop_last() =~= vecs@.subrange(0, i as int));
            assert(next.last() == vecs@[i as int]);
        }
        match vecs[i].ratings.get(item) {
            Some(score) => {
                r.insert(vecs[i].user, score);
            },
            None => {},
        }
        i = i + 1;
    }
    assert(vecs@.subrange(0, i as int) =~= vecs@);
    r
}

/// `v` is what the mean of `ratings` comes to with `mean`: the finite
/// value of an outcome, or nothing where the outcome is no finite value.
pub open spec fn mean_is<M: Fn(&Ratings) -> Option<i64>>(
    mean: &M,
    ratings: Ratings,
    v: Option<i64>,
) -> bool {
    exists|out: Option<i64>| #[trigger] call_ensures(*mean, (&ratings,), out) && v == defined(out)
}

/// `found` are the means of the users of `vecs` by `mean`: in the order of
/// `vecs`, each user that rated anything and has a mean, with that mean.
pub open spec fn means_are<M: Fn(&Ratings) -> Option<i64>>(
    mean: &M,
    vecs: Seq<UserRatings>,
    found: Seq<(u64, i64)>,
) -> bool
    decreases vecs.len(),
{
    if vecs.len() == 0 {
        found.len() == 0
    } else {
        let last = vecs.last();
        let front = vecs.drop_last();
        if last.ratings.pairs().len() == 0 {
            means_are(mean, front, found)
        } else {
            ||| mean_is(mean, last.ratings, None) && means_are(mean, front, found)
            ||| found.len() > 0 && found.last().0 == last.user && mean_is(
                mean,
                last.ratings,
                Some(found.last().1),
            ) && means_are(mean, front, found.drop_last())
        }
    }
}

/// The map that holds each pair of `found`; of two pairs with one key the
/// later counts.
pub open spec fn collected(found: Seq<(u64, i64)>) -> Map<u64, i64>
    decreases found.len(),
{
    if found.len() == 0 {
        Map::<u64, i64>::empty()
    } else {
        collected(found.drop_last()).insert(found.last().0, found.last().1)
    }
}

/// The means are those of the users of `vecs` by `mean`; where a user has
/// two entries with a mean, the later counts.
pub open spec fn user_means_are<M: Fn(&Ratings) -> Option<i64>>(
    mean: &M,
    vecs: Seq<UserRatings>,
    means: Map<u64, i64>,
) -> bool {
    exists|found: Seq<(u64, i64)>| #[trigger]
        means_are(mean, vecs, found) && means == collected(found)
}

/// The mean rating of each user of `vecs` that rated anything.
pub fn adjusted_cosine_means<M: Fn(&Ratings) -> Option<i64>>(
    vecs: &Vec<UserRatings>,
    mean: &M,
) -> (r: Ratings)
    requires
        forall|v: &Ratings| call_requires(*mean, (v,)),
    ensures
        user_means_are(mean, vecs@, r@),
{
    let mut r = Ratings::new();
    let ghost mut found: Seq<(u64, i64)> = Seq::empty();
    let mut i: usize = 0;
    assert(vecs@.subrange(0, 0) =~= Seq::<UserRatings>::empty());
    while i < vecs.len()
        invariant
            i <= vecs@.len(),
            forall|v: &Ratings| call_requires(*mean, (v,)),
            means_are(mean, vecs@.subrange(0, i as int), found),
            r@ == collected(found),
        decreases vecs@.len() - i,
    {
        proof {
            let next = vecs@.subrange(0, i + 1);
            assert(next.drop_last() =~= vecs@.subrange(0, i as int));
            assert(next.last() == vecs@[i as int]);
        }
        if !vecs[i].ratings.is_empty() {
            let out = mean(&vecs[i].ratings);
            match settle(out) {
                Some(v) => {
                    r.insert(vecs[i].user, v);
                    proof {
                        let ghost before = found;
                        found = found.push((vecs@[i as int].user, v));
                        assert(found.drop_last() =~= before);
                        assert(mean_is(mean, vecs@[i as int].ratings, Some(v)));
                    }
                },
                None => {
                    assert(mean_is(mean, vecs@[i as int].ratings, None));
                },
            }
        }
        i = i + 1;
    }
    assert(vecs@.subrange(0, i as int) =~= vecs@);
    r
}

/// `r` is the adjusted-cosine similarity of the items `a` and `b` over the
/// users of `vecs`, each centred on the mean of the user's own ratings.
pub open spec fn slow_similarity_is<
    M: Fn(&Ratings) -> Option<i64>,
    K: Fn(&Vec<Centered>) -> Option<i64>,
>(
    mean: &M,
    kernel: &K,
    vecs: Seq<UserRatings>,
    a: u64,
    b: u64,
    r: Result<i64, ErrorKind>,
) -> bool {
    exists|ra: Ratings, rb: Ratings, means: Ratings, v: Option<i64>| #[trigger]
        similarity_is(kernel, ra.pairs(), rb@, absorb(Seq::<MeanEntry>::empty(), means.pairs()), v)
            && ra@ == column_of(vecs, a) && rb@ == column_of(vecs, b) && user_means_are(
            mean,
            vecs,
            means@,
        ) && r == match v {
            Some(x) => Ok::<i64, ErrorKind>(x),
            None => Err::<i64, ErrorKind>(ErrorKind::UndefinedMetric),
        }
}

/// The adjusted-cosine similarity of the items `a` and `b` over the users
/// of `vecs`, with the means computed from `vecs` first.
pub fn slow_adjusted_cosine<
    M: Fn(&Ratings) -> Option<i64>,
    K: Fn(&Vec<Centered>) -> Option<i64>,
>(vecs: &Vec<UserRatings>, a: u64, b: u64, mean: &M, kernel: &K) -> (r: Result<i64, ErrorKind>)
    requires
        forall|v: &Ratings| call_requires(*mean, (v,)),
        forall|t: &Vec<Centered>| call_requires(*kernel, (t,)),
    ensures
        slow_similarity_is(mean, kernel, vecs@, a, b, r),
{
    let means = adjusted_cosine_means(vecs, mean);
    let ra = item_column(vecs, a);
    let rb = item_column(vecs, b);
    let mut cache = MeanCache::new(0, Ratio::one());
    cache.add_new_means(&means);
    let r = fast_adjusted_cosine(&ra, &rb, &mut cache, kernel);
    proof {
        let v: Option<i64> = match r {
            Ok(x) => Some(x),
            Err(_) => None,
        };
        assert(similarity_is(
            kernel,
            ra.pairs(),
            rb@,
            absorb(Seq::<MeanEntry>::empty(), means.pairs()),
            v,
        ));
    }
    r
}

} // verus!
