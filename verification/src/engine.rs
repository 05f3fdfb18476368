//! The engine: distances, nearest neighbours and predictions over a store.
use crate::chunks::{
    batched, batches, fetch_side, fill_means, filling_is, find_item, has_item, missing_are,
    missing_users, side_fetched,
};
use crate::config::Config;
use crate::distances::{
    deviation_is, distance_between, distance_is, fast_adjusted_cosine, similarity_is, slope_one,
    Method, Pairing, UserMethod,
};
use crate::error::ErrorKind;
use crate::knn::{
    lemma_offered_all, lists, member, offer_all, offered_all, ordered, unique, Neighbor,
};
use crate::mean_cache::{holds, MeanCache, MeanEntry};
use crate::pairing::{centre_reads, shared, Centered, Term};
use crate::prediction::{
    conclude, concluded, cosine_votes, cosine_votes_are, counted, counted_votes,
    neighbour_votes, slope_votes, slope_votes_are, vote_reads, votes_of, Rated, Vote,
};
use crate::ratings::Ratings;
use crate::score::{in_range, is_finite};
use crate::store::{Controller, ItemRaters, UserRatings};
use vstd::prelude::*;

verus! {

/// `found` are the candidates among `others` for the neighbours of `user`:
/// in the order of `others`, each user but `user` itself that has a
/// distance from the ratings `target`, with that distance.
pub open spec fn candidates_are<K: Fn(UserMethod, &Pairing) -> Option<i64>>(
    kernel: &K,
    method: UserMethod,
    user: u64,
    target: Seq<(u64, i64)>,
    others: Seq<UserRatings>,
    found: Seq<Neighbor>,
) -> bool
    decreases others.len(),
{
    if others.len() == 0 {
        found.len() == 0
    } else {
        let last = others.last();
        let front = others.drop_last();
        if last.user == user {
            candidates_are(kernel, method, user, target, front, found)
        } else {
            ||| distance_is(
                kernel,
                method,
                target,
                last.ratings@,
                last.ratings.pairs().len(),
                Err(ErrorKind::UndefinedMetric),
            ) && candidates_are(kernel, method, user, target, front, found)
            ||| found.len() > 0 && found.last().user == last.user && distance_is(
                kernel,
                method,
                target,
                last.ratings@,
                last.ratings.pairs().len(),
                Ok(found.last().distance),
            ) && candidates_are(kernel, method, user, target, front, found.drop_last())
        }
    }
}

/// No candidate is `user`, and each has a finite distance.
pub proof fn lemma_candidates<K: Fn(UserMethod, &Pairing) -> Option<i64>>(
    kernel: &K,
    method: UserMethod,
    user: u64,
    target: Seq<(u64, i64)>,
    others: Seq<UserRatings>,
    found: Seq<Neighbor>,
)
    requires
        candidates_are(kernel, method, user, target, others, found),
    ensures
        found.len() <= others.len(),
        forall|i: int|
            0 <= i < found.len() ==> (#[trigger] found[i]).user != user && is_finite(
                found[i].distance,
            ),
    decreases others.len(),
{
    if others.len() > 0 {
        let last = others.last();
        let front = others.drop_last();
        if last.user == user {
            lemma_candidates(kernel, method, user, target, front, found);
        } else if distance_is(
            kernel,
            method,
            target,
            last.ratings@,
            last.ratings.pairs().len(),
            Err(ErrorKind::UndefinedMetric),
        ) && candidates_are(kernel, method, user, target, front, found) {
            lemma_candidates(kernel, method, user, target, front, found);
        } else {
            lemma_candidates(kernel, method, user, target, front, found.drop_last());
            assert forall|i: int| 0 <= i < found.len() implies (#[trigger] found[i]).user != user
                && is_finite(found[i].distance) by {
                if i < found.len() - 1 {
                    assert(found.drop_last()[i] == found[i]);
                }
            }
        }
    }
}

/// The candidates among `others` for the neighbours of `user`.
pub fn candidates_of<K: Fn(UserMethod, &Pairing) -> Option<i64>>(
    user: u64,
    target: &Ratings,
    others: &Vec<UserRatings>,
    method: UserMethod,
    kernel: &K,
) -> (r: Vec<Neighbor>)
    requires
        forall|m: UserMethod, p: &Pairing| call_requires(*kernel, (m, p)),
    ensures
        candidates_are(kernel, method, user, target.pairs(), others@, r@),
{
    let mut r: Vec<Neighbor> = Vec::new();
    let mut i: usize = 0;
    assert(others@.subrange(0, 0) =~= Seq::<UserRatings>::empty());
    while i < others.len()
        invariant
            i <= others@.len(),
            forall|m: UserMethod, p: &Pairing| call_requires(*kernel, (m, p)),
            candidates_are(
                kernel,
                method,
                user,
                target.pairs(),
                others@.subrange(0, i as int),
                r@,
            ),
        decreases others@.len() - i,
    {
        let ghost before = r@;
        proof {
            let next = others@.subrange(0, i + 1);
            assert(next.drop_last() =~= others@.subrange(0, i as int));
            assert(next.last() == others@[i as int]);
        }
        let candidate: u64 = others[i].user;
        if candidate != user {
            match distance_between(target, &others[i].ratings, method, kernel) {
                Ok(distance) => {
                    r.push(Neighbor { user: candidate, distance });
                    assert(r@.drop_last() =~= before);
                },
                Err(_) => {},
            }
        }
        i = i + 1;
    }
    assert(others@.subrange(0, i as int) =~= others@);
    r
}

/// `r` is the list `best` of at most `k` neighbours of `user` after the
/// candidates among `others` were offered to it.
pub open spec fn scored_into<K: Fn(UserMethod, &Pairing) -> Option<i64>>(
    kernel: &K,
    method: UserMethod,
    user: u64,
    target: Seq<(u64, i64)>,
    others: Seq<UserRatings>,
    best: Seq<Neighbor>,
    k: nat,
    r: Seq<Neighbor>,
) -> bool {
    exists|found: Seq<Neighbor>|
        #![trigger candidates_are(kernel, method, user, target, others, found)]
        candidates_are(kernel, method, user, target, others, found) && r == offered_all(
            best,
            found,
            k,
        )
}

/// `best` is the list of the `k` nearest after the first `n` chunks of
/// `size` users were asked of the store, one after the other, and the
/// candidates of each were offered.
pub open spec fn scored_upto<C: Controller, K: Fn(UserMethod, &Pairing) -> Option<i64>>(
    store: &C,
    kernel: &K,
    method: UserMethod,
    user: u64,
    target: Seq<(u64, i64)>,
    size: usize,
    k: nat,
    n: nat,
    best: Seq<Neighbor>,
) -> bool
    decreases n,
{
    if n == 0 {
        best == Seq::<Neighbor>::empty()
    } else {
        exists|prev: Seq<Neighbor>, chunk: Vec<UserRatings>|
            #![trigger scored_into(kernel, method, user, target, chunk@, prev, k, best)]
            scored_upto(store, kernel, method, user, target, size, k, (n - 1) as nat, prev)
                && n - 1 <= usize::MAX && store.users_answer(
                (n - 1) as usize,
                size,
                Ok(Some(chunk)),
            ) && scored_into(kernel, method, user, target, chunk@, prev, k, best)
    }
}

/// `r` is what reading the other users in chunks of `size` comes to: the
/// chunks are asked of the store from the first on and their candidates
/// offered, until the store answers that there is no further chunk, or
/// fails, which is then the result.
pub open spec fn chunks_scored<C: Controller, K: Fn(UserMethod, &Pairing) -> Option<i64>>(
    store: &C,
    kernel: &K,
    method: UserMethod,
    user: u64,
    target: Seq<(u64, i64)>,
    size: usize,
    k: nat,
    r: Result<Vec<Neighbor>, ErrorKind>,
) -> bool {
    exists|n: nat, best: Seq<Neighbor>|
        #![trigger scored_upto(store, kernel, method, user, target, size, k, n, best)]
        scored_upto(store, kernel, method, user, target, size, k, n, best) && {
            ||| n <= usize::MAX && store.users_answer(n as usize, size, Ok(None)) && r is Ok
                && r->Ok_0@ == best
            ||| n == usize::MAX + 1 && r is Ok && r->Ok_0@ == best
            ||| n <= usize::MAX && r is Err && store.users_answer(
                n as usize,
                size,
                Err(r->Err_0),
            )
        }
}

/// `r` is what the search for the `k` nearest neighbours of `user` comes
/// to: the store is asked for the ratings of `user`, then for the other
/// users, all at once or in chunks; its first failure is the result; else
/// the list that the candidates among the others leave when offered in the
/// store's order.
pub open spec fn knn_is<C: Controller, K: Fn(UserMethod, &Pairing) -> Option<i64>>(
    store: &C,
    kernel: &K,
    k: nat,
    user: u64,
    method: UserMethod,
    chunk_opt: Option<usize>,
    r: Result<Vec<Neighbor>, ErrorKind>,
) -> bool {
    exists|own: Result<Ratings, ErrorKind>|
        #![trigger store.ratings_answer(user, own)]
        store.ratings_answer(user, own) && match own {
            Err(e) => r == Err::<Vec<Neighbor>, ErrorKind>(e),
            Ok(target) => match chunk_opt {
                None => exists|others: Result<Vec<UserRatings>, ErrorKind>|
                    #![trigger store.others_answer(user, others)]
                    store.others_answer(user, others) && match others {
                        Err(e) => r == Err::<Vec<Neighbor>, ErrorKind>(e),
                        Ok(all) => r is Ok && scored_into(
                            kernel,
                            method,
                            user,
                            target.pairs(),
                            all@,
                            Seq::<Neighbor>::empty(),
                            k,
                            r->Ok_0@,
                        ),
                    },
                Some(size) => chunks_scored(
                    store,
                    kernel,
                    method,
                    user,
                    target.pairs(),
                    size,
                    k,
                    r,
                ),
            },
        }
}

/// Offers the candidates among `others` to the list `best` of at most `k`
/// neighbours of `user`.
pub fn score_candidates<K: Fn(UserMethod, &Pairing) -> Option<i64>>(
    user: u64,
    target: &Ratings,
    others: &Vec<UserRatings>,
    method: UserMethod,
    kernel: &K,
    best: Vec<Neighbor>,
    k: usize,
) -> (r: Vec<Neighbor>)
    requires
        forall|m: UserMethod, p: &Pairing| call_requires(*kernel, (m, p)),
        ordered(best@),
        unique(best@),
        best@.len() <= k,
    ensures
        scored_into(kernel, method, user, target.pairs(), others@, best@, k as nat, r@),
        ordered(r@),
        unique(r@),
        r@.len() <= k,
        !lists(best@, user) ==> !lists(r@, user),
        (forall|i: int| 0 <= i < best@.len() ==> is_finite((#[trigger] best@[i]).distance))
            ==> forall|i: int| 0 <= i < r@.len() ==> is_finite((#[trigger] r@[i]).distance),
{
    let found = candidates_of(user, target, others, method, kernel);
    let r = offer_all(best, &found, k);
    proof {
        lemma_candidates(kernel, method, user, target.pairs(), others@, found@);
        lemma_offered_all(best@, found@, k as nat);
        if !lists(best@, user) && lists(r@, user) {
            let q = choose|q: int| 0 <= q < r@.len() && r@[q].user == user;
            if member(best@, r@[q]) {
                let j = choose|j: int| 0 <= j < best@.len() && best@[j] == r@[q];
                assert(best@[j].user == user);
            } else {
                let j = choose|j: int| 0 <= j < found@.len() && found@[j] == r@[q];
                assert(found@[j].user != user);
            }
        }
        if forall|i: int| 0 <= i < best@.len() ==> is_finite((#[trigger] best@[i]).distance) {
            assert forall|i: int| 0 <= i < r@.len() implies is_finite(
                (#[trigger] r@[i]).distance,
            ) by {
                if member(best@, r@[i]) {
                    let j = choose|j: int| 0 <= j < best@.len() && best@[j] == r@[i];
                    assert(is_finite(best@[j].distance));
                } else {
                    let j = choose|j: int| 0 <= j < found@.len() && found@[j] == r@[i];
                    assert(is_finite(found@[j].distance));
                }
            }
        }
    }
    r
}

/// Whether a rating with `score` may enter a store whose scores range
/// from `lo` to `hi`: `ScoreOutOfRange` where it lies outside.
pub fn check_score(lo: i64, hi: i64, score: i64) -> (r: Result<(), ErrorKind>)
    ensures
        r == if lo <= score <= hi {
            Ok::<(), ErrorKind>(())
        } else {
            Err::<(), ErrorKind>(ErrorKind::ScoreOutOfRange)
        },
{
    if in_range(lo, hi, score) {
        Ok(())
    } else {
        Err(ErrorKind::ScoreOutOfRange)
    }
}

/// The request for one user.
pub open spec fn one(user: u64) -> Seq<u64> {
    seq![user]
}

/// The request for two items.
pub open spec fn two(a: u64, b: u64) -> Seq<u64> {
    seq![a, b]
}

/// The cache after `user`'s mean changed to `mean`, or was lost: a cached
/// mean is replaced, or forgotten; a user without a cached mean gets none.
pub open spec fn changed(cache: Seq<MeanEntry>, user: u64, mean: Option<i64>) -> Seq<MeanEntry> {
    match mean {
        Some(m) => Seq::new(
            cache.len(),
            |i: int|
                if cache[i].user == user {
                    MeanEntry { user, mean: m, accesses: cache[i].accesses }
                } else {
                    cache[i]
                },
        ),
        None => cache.filter(|e: MeanEntry| e.user != user),
    }
}

/// `r` and the cache `after` are what refreshing the mean of `user` comes
/// to on the cache `before`: the store is asked for the user's mean as its
/// ratings stand; the mean in its answer replaces the cached one, and where
/// the answer holds none, or the store fails, the cached mean is forgotten.
pub open spec fn refreshed_is<C: Controller>(
    store: &C,
    user: u64,
    before: Seq<MeanEntry>,
    after: Seq<MeanEntry>,
    r: Result<bool, ErrorKind>,
) -> bool {
    exists|answer: Result<Ratings, ErrorKind>|
        #![trigger store.fresh_means_answer(one(user), answer)]
        store.fresh_means_answer(one(user), answer) && match answer {
            Ok(means) => r == Ok::<bool, ErrorKind>(means@.contains_key(user)) && after == changed(
                before,
                user,
                if means@.contains_key(user) {
                    Some(means@[user])
                } else {
                    None
                },
            ),
            Err(e) => r == Err::<bool, ErrorKind>(e) && after == changed(before, user, None),
        }
}

/// `r` is the distance between the users `a` and `b` by `method`: the
/// store is asked for the ratings of `a`, then of `b`; its first failure is
/// the result, else what the metric gives on the two answers.
pub open spec fn user_distance_is<C: Controller, K: Fn(UserMethod, &Pairing) -> Option<i64>>(
    store: &C,
    kernel: &K,
    a: u64,
    b: u64,
    method: UserMethod,
    r: Result<i64, ErrorKind>,
) -> bool {
    exists|left: Result<Ratings, ErrorKind>|
        #![trigger store.ratings_answer(a, left)]
        store.ratings_answer(a, left) && match left {
            Err(e) => r == Err::<i64, ErrorKind>(e),
            Ok(ra) => exists|right: Result<Ratings, ErrorKind>|
                #![trigger store.ratings_answer(b, right)]
                store.ratings_answer(b, right) && match right {
                    Err(e) => r == Err::<i64, ErrorKind>(e),
                    Ok(rb) => distance_is(kernel, method, ra.pairs(), rb@, rb.pairs().len(), r),
                },
        }
}

/// `raters` are the raters that `side` holds for `item`.
pub open spec fn raters_in(side: Seq<ItemRaters>, item: u64, raters: Ratings) -> bool {
    exists|i: int|
        0 <= i < side.len() && (#[trigger] side[i]).item == item && raters@ == side[i].raters@
            && raters.pairs() == side[i].raters.pairs()
}

/// `r` are the raters of the items `a` and `b`: the store is asked for its
/// score range and for the raters of the two items; its failure is the
/// result; else the usable raters of `a` and of `b`, or `UndefinedMetric`
/// where one of the two has none.
pub open spec fn both_raters_are<C: Controller>(
    store: &C,
    a: u64,
    b: u64,
    r: Result<(Ratings, Ratings), ErrorKind>,
) -> bool {
    exists|range: (i64, i64)|
        #![trigger store.range_answer(range)]
        store.range_answer(range) && exists|side: Result<Vec<ItemRaters>, ErrorKind>|
            #![trigger side_fetched(store, two(a, b), range.0, range.1, side)]
            side_fetched(store, two(a, b), range.0, range.1, side) && match side {
                Err(e) => r == Err::<(Ratings, Ratings), ErrorKind>(e),
                Ok(found) => if has_item(found@, a) && has_item(found@, b) {
                    r is Ok && raters_in(found@, a, r->Ok_0.0) && raters_in(found@, b, r->Ok_0.1)
                } else {
                    r == Err::<(Ratings, Ratings), ErrorKind>(ErrorKind::UndefinedMetric)
                },
            }
}

/// The result of a metric from what it comes to: the value, or
/// `UndefinedMetric` where it comes to none.
pub open spec fn outcome_of(v: Option<i64>) -> Result<i64, ErrorKind> {
    match v {
        Some(x) => Ok(x),
        None => Err(ErrorKind::UndefinedMetric),
    }
}

/// The side that holds `raters` for `item` alone.
pub open spec fn alone(item: u64, raters: Ratings) -> Seq<ItemRaters> {
    seq![ItemRaters { item, raters }]
}

/// `r` and the cache `after` are what the adjusted-cosine similarity of
/// the items `a` and `b` with the raters `ra` and `rb` comes to on the cache
/// `before`: the means of the raters that have none are asked of the store
/// in batches of `batch` and cached; a failure of the store is the result;
/// else the similarity on the filled cache, and each mean that was read
/// for it counts as a read.
pub open spec fn cosine_distance_is<C: Controller, KA: Fn(&Vec<Centered>) -> Option<i64>>(
    store: &C,
    cosine: &KA,
    batch: usize,
    a: u64,
    b: u64,
    ra: Ratings,
    rb: Ratings,
    before: Seq<MeanEntry>,
    after: Seq<MeanEntry>,
    r: Result<i64, ErrorKind>,
) -> bool {
    exists|missing: Seq<u64>, mid: Seq<MeanEntry>, filled: Result<(), ErrorKind>|
        #![trigger filling_is(store, missing, batch, before, mid, filled)]
        missing_are(missing, alone(a, ra), alone(b, rb), before) && filling_is(
            store,
            missing,
            batch,
            before,
            mid,
            filled,
        ) && match filled {
            Err(e) => r == Err::<i64, ErrorKind>(e) && after == mid,
            Ok(_) => after == centre_reads(mid, shared(ra.pairs(), rb@)) && exists|v: Option<i64>|
                #![trigger similarity_is(cosine, ra.pairs(), rb@, mid, v)]
                similarity_is(cosine, ra.pairs(), rb@, mid, v) && r == outcome_of(v),
        }
}

/// `r` and the cache `after` are what the distance between the items `a`
/// and `b` by `method` comes to on the cache `before`: the raters of the
/// two items are fetched, and a failure to do so is the result; else the
/// slope-one deviation from `a` to `b`, which leaves the cache alone, or
/// the adjusted-cosine similarity.
pub open spec fn item_distance_is<
    C: Controller,
    KS: Fn(&Vec<Term>) -> Option<i64>,
    KA: Fn(&Vec<Centered>) -> Option<i64>,
>(
    store: &C,
    slope: &KS,
    cosine: &KA,
    batch: usize,
    a: u64,
    b: u64,
    method: Method,
    before: Seq<MeanEntry>,
    after: Seq<MeanEntry>,
    r: Result<i64, ErrorKind>,
) -> bool {
    exists|both: Result<(Ratings, Ratings), ErrorKind>|
        #![trigger both_raters_are(store, a, b, both)]
        both_raters_are(store, a, b, both) && match both {
            Err(e) => r == Err::<i64, ErrorKind>(e) && after == before,
            Ok(raters) => match method {
                Method::SlopeOne => after == before && exists|v: Option<i64>|
                    #![trigger deviation_is(slope, raters.0.pairs(), raters.1@, v)]
                    deviation_is(slope, raters.0.pairs(), raters.1@, v) && r == outcome_of(v),
                Method::AdjCosine => cosine_distance_is(
                    store,
                    cosine,
                    batch,
                    a,
                    b,
                    raters.0,
                    raters.1,
                    before,
                    after,
                    r,
                ),
            },
        }
}

/// `rated` are the first of `neighbors`, each with the ratings that the
/// store answered for it.
pub open spec fn rated_upto<C: Controller>(
    store: &C,
    neighbors: Seq<Neighbor>,
    rated: Seq<Rated>,
) -> bool {
    &&& rated.len() <= neighbors.len()
    &&& forall|i: int|
        0 <= i < rated.len() ==> (#[trigger] rated[i]).neighbor == neighbors[i]
            && store.ratings_answer(neighbors[i].user, Ok(rated[i].ratings))
}

/// `r` is what the prediction of `user`'s score for `item` from the `k`
/// nearest users comes to: the neighbours are searched, then the store is
/// asked for the ratings of each, nearest first; the first failure is the
/// result; else the blend of the neighbours' votes on `item`, or
/// `NoNeighbors` where none of them rated it.
pub open spec fn user_prediction_is<
    C: Controller,
    K: Fn(UserMethod, &Pairing) -> Option<i64>,
    B: Fn(&Vec<Vote>) -> Option<i64>,
>(
    store: &C,
    kernel: &K,
    blend: &B,
    k: nat,
    user: u64,
    item: u64,
    method: UserMethod,
    chunk_opt: Option<usize>,
    r: Result<i64, ErrorKind>,
) -> bool {
    exists|knn: Result<Vec<Neighbor>, ErrorKind>|
        #![trigger knn_is(store, kernel, k, user, method, chunk_opt, knn)]
        knn_is(store, kernel, k, user, method, chunk_opt, knn) && match knn {
            Err(e) => r == Err::<i64, ErrorKind>(e),
            Ok(neighbors) => exists|rated: Seq<Rated>|
                #![trigger rated_upto(store, neighbors@, rated)]
                rated_upto(store, neighbors@, rated) && if rated.len() == neighbors@.len() {
                    concluded(blend, votes_of(rated, item), ErrorKind::NoNeighbors, r)
                } else {
                    r is Err && store.ratings_answer(
                        neighbors@[rated.len() as int].user,
                        Err(r->Err_0),
                    )
                },
        }
}

/// `r` and the cache `after` are what the votes of one batch of rated
/// items come to on the cache `before`: the raters of the items of `part`
/// are fetched; a failure to do so is the result; else, by slope one, the
/// votes of the fetched items, the cache left alone; by adjusted cosine,
/// the missing means are asked of the store in batches of `batch` first,
/// a failure being the result, and the votes are taken on the filled
/// cache.
pub open spec fn chunk_voted<
    C: Controller,
    KS: Fn(&Vec<Term>) -> Option<i64>,
    KA: Fn(&Vec<Centered>) -> Option<i64>,
>(
    store: &C,
    slope: &KS,
    cosine: &KA,
    batch: usize,
    method: Method,
    target_side: Seq<ItemRaters>,
    target: Seq<(u64, i64)>,
    mine: Map<u64, i64>,
    range: (i64, i64),
    part: Seq<u64>,
    before: Seq<MeanEntry>,
    after: Seq<MeanEntry>,
    r: Result<Vec<Vote>, ErrorKind>,
) -> bool {
    exists|side: Result<Vec<ItemRaters>, ErrorKind>|
        #![trigger side_fetched(store, part, range.0, range.1, side)]
        side_fetched(store, part, range.0, range.1, side) && match side {
            Err(e) => r == Err::<Vec<Vote>, ErrorKind>(e) && after == before,
            Ok(s) => match method {
                Method::SlopeOne => after == before && r is Ok && slope_votes_are(
                    slope,
                    target,
                    mine,
                    s@,
                    r->Ok_0@,
                ),
                Method::AdjCosine => exists|
                    missing: Seq<u64>,
                    mid: Seq<MeanEntry>,
                    filled: Result<(), ErrorKind>,
                |
                    #![trigger filling_is(store, missing, batch, before, mid, filled)]
                    missing_are(missing, target_side, s@, before) && filling_is(
                        store,
                        missing,
                        batch,
                        before,
                        mid,
                        filled,
                    ) && match filled {
                        Err(e) => r == Err::<Vec<Vote>, ErrorKind>(e) && after == mid,
                        Ok(_) => after == vote_reads(mid, target, mine, s@) && r is Ok
                            && cosine_votes_are(cosine, target, mine, mid, s@, r->Ok_0@),
                    },
            },
        }
}

/// The votes `more` after the votes `votes`.
pub open spec fn appended(votes: Seq<Vote>, more: Seq<Vote>) -> Seq<Vote> {
    votes + more
}

/// `votes` and the cache `after` are what the batches `parts` of rated
/// items come to on the cache `before`, batch after batch, each batch
/// giving its votes.
pub open spec fn voted_upto<
    C: Controller,
    KS: Fn(&Vec<Term>) -> Option<i64>,
    KA: Fn(&Vec<Centered>) -> Option<i64>,
>(
    store: &C,
    slope: &KS,
    cosine: &KA,
    batch: usize,
    method: Method,
    target_side: Seq<ItemRaters>,
    target: Seq<(u64, i64)>,
    mine: Map<u64, i64>,
    range: (i64, i64),
    parts: Seq<Vec<u64>>,
    before: Seq<MeanEntry>,
    after: Seq<MeanEntry>,
    votes: Seq<Vote>,
) -> bool
    decreases parts.len(),
{
    if parts.len() == 0 {
        after == before && votes == Seq::<Vote>::empty()
    } else {
        exists|mid: Seq<MeanEntry>, earlier: Seq<Vote>, fresh: Vec<Vote>|
            #![trigger chunk_voted(store, slope, cosine, batch, method, target_side, target, mine, range, parts.last()@, mid, after, Ok(fresh)), appended(earlier, fresh@)]
            voted_upto(
                store,
                slope,
                cosine,
                batch,
                method,
                target_side,
                target,
                mine,
                range,
                parts.drop_last(),
                before,
                mid,
                earlier,
            ) && chunk_voted(
                store,
                slope,
                cosine,
                batch,
                method,
                target_side,
                target,
                mine,
                range,
                parts.last()@,
                mid,
                after,
                Ok(fresh),
            ) && votes == appended(earlier, fresh@)
    }
}

/// `r` and the cache `after` are what the batches `parts` of rated items
/// come to on the cache `before`: all batches gave their votes, of which
/// those that count are blended, `UndefinedMetric` where there is none; or
/// a batch failed after the batches before it gave theirs, and its failure
/// is the result.
pub open spec fn predicted_over<
    C: Controller,
    KS: Fn(&Vec<Term>) -> Option<i64>,
    KA: Fn(&Vec<Centered>) -> Option<i64>,
    B: Fn(&Vec<Vote>) -> Option<i64>,
>(
    store: &C,
    slope: &KS,
    cosine: &KA,
    blend: &B,
    batch: usize,
    method: Method,
    target_side: Seq<ItemRaters>,
    target: Seq<(u64, i64)>,
    mine: Map<u64, i64>,
    range: (i64, i64),
    parts: Seq<Vec<u64>>,
    before: Seq<MeanEntry>,
    after: Seq<MeanEntry>,
    r: Result<i64, ErrorKind>,
) -> bool {
    exists|n: int, mid: Seq<MeanEntry>, votes: Seq<Vote>|
        #![trigger voted_upto(store, slope, cosine, batch, method, target_side, target, mine, range, parts.subrange(0, n), before, mid, votes)]
        0 <= n <= parts.len() && voted_upto(
            store,
            slope,
            cosine,
            batch,
            method,
            target_side,
            target,
            mine,
            range,
            parts.subrange(0, n),
            before,
            mid,
            votes,
        ) && if n == parts.len() {
            after == mid && concluded(
                blend,
                counted(method, votes),
                ErrorKind::UndefinedMetric,
                r,
            )
        } else {
            r is Err && chunk_voted(
                store,
                slope,
                cosine,
                batch,
                method,
                target_side,
                target,
                mine,
                range,
                parts[n]@,
                mid,
                after,
                Err::<Vec<Vote>, ErrorKind>(r->Err_0),
            )
        }
}

/// `r` and the cache `after` are what the prediction comes to once the
/// raters of `item` stand at `place` of `side`: the items that the user
/// rated (`mine`) are cut into the batches `parts` of `chunk_size`, in
/// ascending order, and the batches give their votes.
pub open spec fn rated_predicted<
    C: Controller,
    KS: Fn(&Vec<Term>) -> Option<i64>,
    KA: Fn(&Vec<Centered>) -> Option<i64>,
    B: Fn(&Vec<Vote>) -> Option<i64>,
>(
    store: &C,
    slope: &KS,
    cosine: &KA,
    blend: &B,
    batch: usize,
    item: u64,
    method: Method,
    chunk_size: usize,
    side: Seq<ItemRaters>,
    place: int,
    mine: Ratings,
    range: (i64, i64),
    parts: Seq<Vec<u64>>,
    before: Seq<MeanEntry>,
    after: Seq<MeanEntry>,
    r: Result<i64, ErrorKind>,
) -> bool {
    &&& 0 <= place < side.len()
    &&& side[place].item == item
    &&& batched(parts, keys_of(mine.pairs()), chunk_size)
    &&& predicted_over(
        store,
        slope,
        cosine,
        blend,
        batch,
        method,
        side,
        side[place].raters.pairs(),
        mine@,
        range,
        parts,
        before,
        after,
        r,
    )
}

/// The keys of the pairs, in their order.
pub open spec fn keys_of(pairs: Seq<(u64, i64)>) -> Seq<u64> {
    Seq::new(pairs.len(), |i: int| pairs[i].0)
}

/// `r` and the cache `after` are what the prediction of `user`'s score for
/// `item` from the user's own ratings comes to on the cache `before`:
/// `ZeroChunkSize`, with nothing asked of the store, where `chunk_size` is
/// zero; else what `rated_prediction` says.
pub open spec fn item_prediction_is<
    C: Controller,
    KS: Fn(&Vec<Term>) -> Option<i64>,
    KA: Fn(&Vec<Centered>) -> Option<i64>,
    B: Fn(&Vec<Vote>) -> Option<i64>,
>(
    store: &C,
    slope: &KS,
    cosine: &KA,
    blend: &B,
    batch: usize,
    user: u64,
    item: u64,
    method: Method,
    chunk_size: usize,
    before: Seq<MeanEntry>,
    after: Seq<MeanEntry>,
    r: Result<i64, ErrorKind>,
) -> bool {
    if chunk_size == 0 {
        r == Err::<i64, ErrorKind>(ErrorKind::ZeroChunkSize) && after == before
    } else {
        rated_prediction(
            store,
            slope,
            cosine,
            blend,
            batch,
            user,
            item,
            method,
            chunk_size,
            before,
            after,
            r,
        )
    }
}

/// `r` and the cache `after` are what the prediction comes to for chunks
/// of at least one item: the store is asked for the ratings of `user` and
/// for its score range; a failure is the result; else the prediction is
/// what `targeted_prediction` says.
pub open spec fn rated_prediction<
    C: Controller,
    KS: Fn(&Vec<Term>) -> Option<i64>,
    KA: Fn(&Vec<Centered>) -> Option<i64>,
    B: Fn(&Vec<Vote>) -> Option<i64>,
>(
    store: &C,
    slope: &KS,
    cosine: &KA,
    blend: &B,
    batch: usize,
    user: u64,
    item: u64,
    method: Method,
    chunk_size: usize,
    before: Seq<MeanEntry>,
    after: Seq<MeanEntry>,
    r: Result<i64, ErrorKind>,
) -> bool {
    exists|own: Result<Ratings, ErrorKind>|
        #![trigger store.ratings_answer(user, own)]
        store.ratings_answer(user, own) && match own {
            Err(e) => r == Err::<i64, ErrorKind>(e) && after == before,
            Ok(mine) => exists|range: (i64, i64)|
                #![trigger store.range_answer(range)]
                store.range_answer(range) && targeted_prediction(
                    store,
                    slope,
                    cosine,
                    blend,
                    batch,
                    item,
                    method,
                    chunk_size,
                    mine,
                    range,
                    before,
                    after,
                    r,
                ),
        }
}

/// `r` and the cache `after` are what the prediction comes to once the
/// ratings `mine` of the user and the score range are known: the raters of
/// `item` are fetched; a failure is the result, and so is `UndefinedMetric`
/// where `item` has no usable rater; else the rated items give their votes.
pub open spec fn targeted_prediction<
    C: Controller,
    KS: Fn(&Vec<Term>) -> Option<i64>,
    KA: Fn(&Vec<Centered>) -> Option<i64>,
    B: Fn(&Vec<Vote>) -> Option<i64>,
>(
    store: &C,
    slope: &KS,
    cosine: &KA,
    blend: &B,
    batch: usize,
    item: u64,
    method: Method,
    chunk_size: usize,
    mine: Ratings,
    range: (i64, i64),
    before: Seq<MeanEntry>,
    after: Seq<MeanEntry>,
    r: Result<i64, ErrorKind>,
) -> bool {
    exists|target: Result<Vec<ItemRaters>, ErrorKind>|
        #![trigger side_fetched(store, one(item), range.0, range.1, target)]
        side_fetched(store, one(item), range.0, range.1, target) && match target {
            Err(e) => r == Err::<i64, ErrorKind>(e) && after == before,
            Ok(side) => if !has_item(side@, item) {
                r == Err::<i64, ErrorKind>(ErrorKind::UndefinedMetric) && after == before
            } else {
                exists|place: int, parts: Seq<Vec<u64>>|
                    #![trigger rated_predicted(store, slope, cosine, blend, batch, item, method, chunk_size, side@, place, mine, range, parts, before, after, r)]
                    rated_predicted(
                        store,
                        slope,
                        cosine,
                        blend,
                        batch,
                        item,
                        method,
                        chunk_size,
                        side@,
                        place,
                        mine,
                        range,
                        parts,
                        before,
                        after,
                        r,
                    )
            },
        }
}

/// The prediction is what `predicted_over` says once the store answered
/// the first three requests.
proof fn lemma_item_prediction<
    C: Controller,
    KS: Fn(&Vec<Term>) -> Option<i64>,
    KA: Fn(&Vec<Centered>) -> Option<i64>,
    B: Fn(&Vec<Vote>) -> Option<i64>,
>(
    store: &C,
    slope: &KS,
    cosine: &KA,
    blend: &B,
    batch: usize,
    user: u64,
    item: u64,
    method: Method,
    chunk_size: usize,
    before: Seq<MeanEntry>,
    after: Seq<MeanEntry>,
    r: Result<i64, ErrorKind>,
    mine: Ratings,
    range: (i64, i64),
    side: Vec<ItemRaters>,
    place: int,
    parts: Seq<Vec<u64>>,
)
    requires
        chunk_size > 0,
        store.ratings_answer(user, Ok(mine)),
        store.range_answer(range),
        side_fetched(store, one(item), range.0, range.1, Ok(side)),
        0 <= place < side@.len(),
        side@[place].item == item,
        batched(parts, keys_of(mine.pairs()), chunk_size),
        predicted_over(
            store,
            slope,
            cosine,
            blend,
            batch,
            method,
            side@,
            side@[place].raters.pairs(),
            mine@,
            range,
            parts,
            before,
            after,
            r,
        ),
    ensures
        item_prediction_is(
            store,
            slope,
            cosine,
            blend,
            batch,
            user,
            item,
            method,
            chunk_size,
            before,
            after,
            r,
        ),
{
    assert(has_item(side@, item));
    assert(rated_predicted(
        store,
        slope,
        cosine,
        blend,
        batch,
        item,
        method,
        chunk_size,
        side@,
        place,
        mine,
        range,
        parts,
        before,
        after,
        r,
    ));
    assert(targeted_prediction(
        store,
        slope,
        cosine,
        blend,
        batch,
        item,
        method,
        chunk_size,
        mine,
        range,
        before,
        after,
        r,
    ));
}

/// The votes of one batch of rated items: fetches the raters of the items
/// of `part`, fills the cache with the missing means where the method is
/// the adjusted cosine, and takes the votes.
pub fn chunk_votes<
    C: Controller,
    KS: Fn(&Vec<Term>) -> Option<i64>,
    KA: Fn(&Vec<Centered>) -> Option<i64>,
>(
    controller: &C,
    cache: &mut MeanCache,
    batch: usize,
    method: Method,
    target_side: &Vec<ItemRaters>,
    place: usize,
    mine: &Ratings,
    range: (i64, i64),
    part: &Vec<u64>,
    slope: &KS,
    cosine: &KA,
) -> (r: Result<Vec<Vote>, ErrorKind>)
    requires
        batch > 0,
        place < target_side@.len(),
        forall|t: &Vec<Term>| call_requires(*slope, (t,)),
        forall|t: &Vec<Centered>| call_requires(*cosine, (t,)),
    ensures
        chunk_voted(
            controller,
            slope,
            cosine,
            batch,
            method,
            target_side@,
            target_side@[place as int].raters.pairs(),
            mine@,
            range,
            part@,
            old(cache)@,
            final(cache)@,
            r,
        ),
        final(cache).limit() == old(cache).limit(),
        final(cache).kept() == old(cache).kept(),
        method is SlopeOne ==> *final(cache) == *old(cache),
{
    let ghost before = cache@;
    let fetched = fetch_side(controller, part, range.0, range.1);
    assert(side_fetched(controller, part@, range.0, range.1, fetched));
    let side = match fetched {
        Ok(side) => side,
        Err(e) => {
            return Err(e);
        },
    };
    match method {
        Method::SlopeOne => Ok(slope_votes(&target_side[place].raters, mine, &side, slope)),
        Method::AdjCosine => {
            let missing = missing_users(target_side, &side, cache);
            let filled = fill_means(controller, cache, &missing, batch);
            let ghost mid = cache@;
            assert(filling_is(controller, missing@, batch, before, mid, filled));
            match filled {
                Ok(()) => {},
                Err(e) => {
                    return Err(e);
                },
            }
            Ok(cosine_votes(&target_side[place].raters, mine, &side, cache, cosine))
        },
    }
}

/// The engine over one store, with its cache of user means.
pub struct Engine<'a, C: Controller> {
    controller: &'a C,
    config: Config,
    adj_cosine: MeanCache,
}

impl<'a, C: Controller> Engine<'a, C> {
    /// The cache of user means.
    pub closed spec fn means(&self) -> MeanCache {
        self.adj_cosine
    }

    /// The store that the engine reads.
    pub closed spec fn store(&self) -> &C {
        self.controller
    }

    /// How many users one mean fetch asks for.
    pub closed spec fn batch(&self) -> nat {
        self.config.sim_matrix.batch()
    }

    /// An engine over `controller` with an empty cache of means.
    pub fn with_controller(controller: &'a C, config: Config) -> (r: Self)
        ensures
            r.store() == controller,
            r.batch() == config.sim_matrix.batch(),
            r.means()@ == Seq::<MeanEntry>::empty(),
            r.means().limit() == config.mean_cache_max_entries,
            r.means().kept() == config.mean_cache_keep_ratio.ceil_of(
                config.mean_cache_max_entries as nat,
            ),
    {
        Engine {
            controller,
            config,
            adj_cosine: MeanCache::new(
                config.mean_cache_max_entries,
                config.mean_cache_keep_ratio,
            ),
        }
    }

    /// The cache of user means.
    pub fn adj_cosine(&self) -> (c: &MeanCache)
        ensures
            *c == self.means(),
    {
        &self.adj_cosine
    }

    /// After the store changed a rating of `user`: with the user's new mean
    /// the cached mean is replaced, without one it is forgotten. A user
    /// without a cached mean gets none.
    pub fn rating_changed(&mut self, user: u64, mean: Option<i64>)
        ensures
            final(self).means().limit() == old(self).means().limit(),
            final(self).means().kept() == old(self).means().kept(),
            final(self).means()@ == changed(old(self).means()@, user, mean),
            final(self).store() == old(self).store(),
            final(self).batch() == old(self).batch(),
            !holds(old(self).means()@, user) ==> !holds(final(self).means()@, user),
            mean is None ==> !holds(final(self).means()@, user),
            mean matches Some(m) ==> final(self).means()@.len() == old(self).means()@.len()
                && forall|i: int|
                0 <= i < old(self).means()@.len() ==> (#[trigger] final(self).means()@[i]) == if old(
                    self,
                ).means()@[i].user == user {
                    MeanEntry { user, mean: m, accesses: old(self).means()@[i].accesses }
                } else {
                    old(self).means()@[i]
                },
    {
        let ghost before = self.adj_cosine@;
        match mean {
            Some(m) => {
                self.adj_cosine.maybe_update_mean_for(user, m);
                proof {
                    let after = self.adj_cosine@;
                    assert(after =~= changed(before, user, mean));
                    if holds(after, user) {
                        let i = choose|i: int| 0 <= i < after.len() && after[i].user == user;
                        assert(before[i].user == user);
                    }
                }
            },
            None => {
                self.adj_cosine.maybe_delete_mean_for(user);
            },
        }
    }

    /// After the store changed a rating of `user`: asks the store for the
    /// user's mean and passes it on to the cache. Where the store has no
    /// mean, or fails, the cached mean is forgotten. Tells whether the
    /// store had a mean, or how it failed.
    pub fn refresh_mean_for(&mut self, user: u64) -> (r: Result<bool, ErrorKind>)
        ensures
            refreshed_is(old(self).store(), user, old(self).means()@, final(self).means()@, r),
            final(self).store() == old(self).store(),
            final(self).batch() == old(self).batch(),
            final(self).means().limit() == old(self).means().limit(),
            final(self).means().kept() == old(self).means().kept(),
            !holds(old(self).means()@, user) ==> !holds(final(self).means()@, user),
            !(r matches Ok(true)) ==> !holds(final(self).means()@, user),
            r matches Ok(true) ==> final(self).means()@.len() == old(self).means()@.len(),
    {
        let mut asked: Vec<u64> = Vec::new();
        asked.push(user);
        assert(asked@ =~= one(user));
        let answer = self.controller.users_means(&asked);
        assert(self.controller.fresh_means_answer(one(user), answer));
        match answer {
            Ok(means) => {
                let mean: Option<i64> = means.get(user);
                self.rating_changed(user, mean);
                Ok(mean.is_some())
            },
            Err(e) => {
                self.rating_changed(user, None);
                Err(e)
            },
        }
    }

    /// Hands the cache of means out, to a similarity matrix for one; the
    /// engine keeps an empty cache with the same bounds until the cache is
    /// handed back.
    pub fn take_adj_cosine(&mut self) -> (cache: MeanCache)
        ensures
            final(self).store() == old(self).store(),
            final(self).batch() == old(self).batch(),
            cache == old(self).means(),
            final(self).means()@ == Seq::<MeanEntry>::empty(),
            final(self).means().limit() == old(self).means().limit(),
            final(self).means().kept() == old(self).means().kept(),
    {
        let mut cache = self.adj_cosine.emptied();
        core::mem::swap(&mut cache, &mut self.adj_cosine);
        cache
    }

    /// Takes the cache of means back.
    pub fn restore_adj_cosine(&mut self, cache: MeanCache)
        ensures
            final(self).store() == old(self).store(),
            final(self).batch() == old(self).batch(),
            final(self).means() == cache,
    {
        self.adj_cosine = cache;
    }

    /// After a change of `user`'s ratings: replaces the cached mean, if
    /// there is one.
    pub fn maybe_update_mean_for(&mut self, user: u64, mean: i64)
        ensures
            final(self).store() == old(self).store(),
            final(self).batch() == old(self).batch(),
            final(self).means().limit() == old(self).means().limit(),
            final(self).means().kept() == old(self).means().kept(),
            final(self).means()@.len() == old(self).means()@.len(),
            forall|i: int|
                0 <= i < old(self).means()@.len() ==> (#[trigger] final(self).means()@[i]) == if old(
                    self,
                ).means()@[i].user == user {
                    MeanEntry { user, mean, accesses: old(self).means()@[i].accesses }
                } else {
                    old(self).means()@[i]
                },
    {
        self.adj_cosine.maybe_update_mean_for(user, mean);
    }

    /// After `user` lost every rating: forgets the cached mean, if there is
    /// one.
    pub fn maybe_delete_mean_for(&mut self, user: u64)
        ensures
            final(self).store() == old(self).store(),
            final(self).batch() == old(self).batch(),
            final(self).means().limit() == old(self).means().limit(),
            final(self).means().kept() == old(self).means().kept(),
            !holds(final(self).means()@, user),
            final(self).means()@ == old(self).means()@.filter(|e: MeanEntry| e.user != user),
    {
        self.adj_cosine.maybe_delete_mean_for(user);
    }

    /// The distance between two users by `method`.
    pub fn user_distance<K: Fn(UserMethod, &Pairing) -> Option<i64>>(
        &self,
        user_a: u64,
        user_b: u64,
        method: UserMethod,
        kernel: &K,
    ) -> (r: Result<i64, ErrorKind>)
        requires
            forall|m: UserMethod, p: &Pairing| call_requires(*kernel, (m, p)),
        ensures
            user_distance_is(self.store(), kernel, user_a, user_b, method, r),
            r matches Ok(v) ==> is_finite(v),
    {
        let left = self.controller.user_ratings(user_a);
        assert(self.controller.ratings_answer(user_a, left));
        let a = match left {
            Ok(ratings) => ratings,
            Err(e) => {
                return Err(e);
            },
        };
        let right = self.controller.user_ratings(user_b);
        assert(self.controller.ratings_answer(user_b, right));
        let b = match right {
            Ok(ratings) => ratings,
            Err(e) => {
                return Err(e);
            },
        };
        distance_between(&a, &b, method, kernel)
    }

    /// The `k` users nearest to `user` by `method`, nearest first and by
    /// ascending user among equals. With `chunk_opt` the other users are
    /// read in batches of that size, else all at once.
    pub fn user_knn<K: Fn(UserMethod, &Pairing) -> Option<i64>>(
        &self,
        k: usize,
        user: u64,
        method: UserMethod,
        chunk_opt: Option<usize>,
        kernel: &K,
    ) -> (r: Result<Vec<Neighbor>, ErrorKind>)
        requires
            forall|m: UserMethod, p: &Pairing| call_requires(*kernel, (m, p)),
        ensures
            knn_is(self.store(), kernel, k as nat, user, method, chunk_opt, r),
            r matches Ok(best) ==> ordered(best@) && unique(best@) && best@.len() <= k && !lists(
                best@,
                user,
            ) && forall|i: int| 0 <= i < best@.len() ==> is_finite((#[trigger] best@[i]).distance),
    {
        let own = self.controller.user_ratings(user);
        assert(self.controller.ratings_answer(user, own));
        let target = match own {
            Ok(ratings) => ratings,
            Err(e) => {
                return Err(e);
            },
        };
        let mut best: Vec<Neighbor> = Vec::new();
        match chunk_opt {
            None => {
                let answer = self.controller.ratings_except(user);
                assert(self.controller.others_answer(user, answer));
                let others = match answer {
                    Ok(others) => others,
                    Err(e) => {
                        return Err(e);
                    },
                };
                best = score_candidates(user, &target, &others, method, kernel, best, k);
                Ok(best)
            },
            Some(size) => {
                let mut index: usize = 0;
                loop
                    invariant
                        forall|m: UserMethod, p: &Pairing| call_requires(*kernel, (m, p)),
                        ordered(best@),
                        unique(best@),
                        best@.len() <= k,
                        !lists(best@, user),
                        forall|i: int|
                            0 <= i < best@.len() ==> is_finite((#[trigger] best@[i]).distance),
                        chunk_opt == Some(size),
                        self.controller.ratings_answer(user, Ok(target)),
                        scored_upto(
                            self.controller,
                            kernel,
                            method,
                            user,
                            target.pairs(),
                            size,
                            k as nat,
                            index as nat,
                            best@,
                        ),
                    decreases usize::MAX - index,
                {
                    let answer = self.controller.users_chunk(index, size);
                    assert(self.controller.users_answer(index, size, answer));
                    match answer {
                        Ok(Some(others)) => {
                            let ghost prev = best@;
                            best = score_candidates(
                                user,
                                &target,
                                &others,
                                method,
                                kernel,
                                best,
                                k,
                            );
                            assert(scored_into(
                                kernel,
                                method,
                                user,
                                target.pairs(),
                                others@,
                                prev,
                                k as nat,
                                best@,
                            ));
                            assert(scored_upto(
                                self.controller,
                                kernel,
                                method,
                                user,
                                target.pairs(),
                                size,
                                k as nat,
                                (index + 1) as nat,
                                best@,
                            ));
                        },
                        Ok(None) => {
                            return Ok(best);
                        },
                        Err(e) => {
                            return Err(e);
                        },
                    }
                    if index == usize::MAX {
                        return Ok(best);
                    }
                    index = index + 1;
                }
            },
        }
    }

    /// The score that `user` is predicted to give `item`, blended from the
    /// ratings that the `k` nearest users gave it. `NoNeighbors` where none
    /// of them rated it.
    pub fn user_based_predict<
        K: Fn(UserMethod, &Pairing) -> Option<i64>,
        B: Fn(&Vec<Vote>) -> Option<i64>,
    >(
        &self,
        k: usize,
        user: u64,
        item: u64,
        method: UserMethod,
        chunk_opt: Option<usize>,
        kernel: &K,
        blend: &B,
    ) -> (r: Result<i64, ErrorKind>)
        requires
            forall|m: UserMethod, p: &Pairing| call_requires(*kernel, (m, p)),
            forall|v: &Vec<Vote>| call_requires(*blend, (v,)),
        ensures
            user_prediction_is(
                self.store(),
                kernel,
                blend,
                k as nat,
                user,
                item,
                method,
                chunk_opt,
                r,
            ),
            r matches Ok(v) ==> is_finite(v),
    {
        let knn = self.user_knn(k, user, method, chunk_opt, kernel);
        assert(knn_is(self.controller, kernel, k as nat, user, method, chunk_opt, knn));
        let neighbors = match knn {
            Ok(best) => best,
            Err(e) => {
                return Err(e);
            },
        };
        let mut rated: Vec<Rated> = Vec::new();
        let mut i: usize = 0;
        while i < neighbors.len()
            invariant
                i <= neighbors@.len(),
                rated@.len() == i,
                rated_upto(self.controller, neighbors@, rated@),
                knn_is(
                    self.controller,
                    kernel,
                    k as nat,
                    user,
                    method,
                    chunk_opt,
                    Ok(neighbors),
                ),
            decreases neighbors@.len() - i,
        {
            let neighbor: Neighbor = neighbors[i];
            let answer = self.controller.user_ratings(neighbor.user);
            assert(self.controller.ratings_answer(neighbor.user, answer));
            let ratings = match answer {
                Ok(ratings) => ratings,
                Err(e) => {
                    return Err(e);
                },
            };
            rated.push(Rated { neighbor, ratings });
            i = i + 1;
        }
        let votes = neighbour_votes(&rated, item);
        conclude(&votes, blend, ErrorKind::NoNeighbors)
    }

    /// The raters of `a` and of `b`, as far as their scores lie in the
    /// store's range; `UndefinedMetric` where one of the items has none.
    fn raters_of_both(&self, a: u64, b: u64) -> (r: Result<(Ratings, Ratings), ErrorKind>)
        ensures
            both_raters_are(self.store(), a, b, r),
    {
        let mut items: Vec<u64> = Vec::new();
        items.push(a);
        items.push(b);
        assert(items@ =~= two(a, b));
        let range = self.controller.score_range();
        assert(self.controller.range_answer(range));
        let fetched = fetch_side(self.controller, &items, range.0, range.1);
        assert(side_fetched(self.controller, two(a, b), range.0, range.1, fetched));
        let side = match fetched {
            Ok(side) => side,
            Err(e) => {
                return Err(e);
            },
        };
        match (find_item(&side, a), find_item(&side, b)) {
            (Some(p), Some(q)) => {
                let ra = side[p].raters.duplicate();
                let rb = side[q].raters.duplicate();
                assert(raters_in(side@, a, ra));
                assert(raters_in(side@, b, rb));
                Ok((ra, rb))
            },
            _ => Err(ErrorKind::UndefinedMetric),
        }
    }

    /// The distance between two items by `method`: the slope-one deviation
    /// from `item_a` to `item_b`, or their adjusted-cosine similarity on the
    /// cached means, which are fetched first where they are missing.
    pub fn item_distance<
        KS: Fn(&Vec<Term>) -> Option<i64>,
        KA: Fn(&Vec<Centered>) -> Option<i64>,
    >(
        &mut self,
        item_a: u64,
        item_b: u64,
        method: Method,
        slope: &KS,
        cosine: &KA,
    ) -> (r: Result<i64, ErrorKind>)
        requires
            forall|t: &Vec<Term>| call_requires(*slope, (t,)),
            forall|t: &Vec<Centered>| call_requires(*cosine, (t,)),
        ensures
            item_distance_is(
                old(self).store(),
                slope,
                cosine,
                old(self).batch() as usize,
                item_a,
                item_b,
                method,
                old(self).means()@,
                final(self).means()@,
                r,
            ),
            final(self).store() == old(self).store(),
            final(self).batch() == old(self).batch(),
            final(self).means().limit() == old(self).means().limit(),
            final(self).means().kept() == old(self).means().kept(),
            method is SlopeOne ==> final(self).means() == old(self).means(),
            r matches Ok(v) ==> is_finite(v),
    {
        let ghost before = self.adj_cosine@;
        let both = self.raters_of_both(item_a, item_b);
        assert(both_raters_are(self.controller, item_a, item_b, both));
        let (ra, rb) = match both {
            Ok(raters) => raters,
            Err(e) => {
                return Err(e);
            },
        };
        match method {
            Method::SlopeOne => match slope_one(&ra, &rb, slope) {
                Ok((deviation, _)) => {
                    assert(deviation_is(slope, ra.pairs(), rb@, Some(deviation)));
                    Ok(deviation)
                },
                Err(e) => {
                    assert(deviation_is(slope, ra.pairs(), rb@, None));
                    Err(e)
                },
            },
            Method::AdjCosine => {
                let ghost left_raters = ra;
                let ghost right_raters = rb;
                let mut left: Vec<ItemRaters> = Vec::new();
                left.push(ItemRaters { item: item_a, raters: ra });
                let mut right: Vec<ItemRaters> = Vec::new();
                right.push(ItemRaters { item: item_b, raters: rb });
                assert(left@ =~= alone(item_a, left_raters));
                assert(right@ =~= alone(item_b, right_raters));
                let missing = missing_users(&left, &right, &self.adj_cosine);
                let batch: usize = self.config.sim_matrix.partial_users_chunk_size();
                let filled = fill_means(self.controller, &mut self.adj_cosine, &missing, batch);
                let ghost mid = self.adj_cosine@;
                assert(filling_is(self.controller, missing@, batch, before, mid, filled));
                match filled {
                    Ok(()) => {},
                    Err(e) => {
                        return Err(e);
                    },
                }
                let r = fast_adjusted_cosine(
                    &left[0].raters,
                    &right[0].raters,
                    &mut self.adj_cosine,
                    cosine,
                );
                proof {
                    let v: Option<i64> = match r {
                        Ok(x) => Some(x),
                        Err(_) => None,
                    };
                    assert(similarity_is(cosine, left_raters.pairs(), right_raters@, mid, v));
                    assert(r == outcome_of(v));
                }
                r
            },
        }
    }

    /// The score that `user` is predicted to give `item`, blended from the
    /// user's own ratings and how each rated item relates to `item`: by
    /// slope-one deviation, or by adjusted-cosine similarity. The rated
    /// items are looked up in batches of `chunk_size`; `ZeroChunkSize`
    /// where that is zero.
    pub fn item_based_predict<
        KS: Fn(&Vec<Term>) -> Option<i64>,
        KA: Fn(&Vec<Centered>) -> Option<i64>,
        B: Fn(&Vec<Vote>) -> Option<i64>,
    >(
        &mut self,
        user: u64,
        item: u64,
        method: Method,
        chunk_size: usize,
        slope: &KS,
        cosine: &KA,
        blend: &B,
    ) -> (r: Result<i64, ErrorKind>)
        requires
            forall|t: &Vec<Term>| call_requires(*slope, (t,)),
            forall|t: &Vec<Centered>| call_requires(*cosine, (t,)),
            forall|v: &Vec<Vote>| call_requires(*blend, (v,)),
        ensures
            item_prediction_is(
                old(self).store(),
                slope,
                cosine,
                blend,
                old(self).batch() as usize,
                user,
                item,
                method,
                chunk_size,
                old(self).means()@,
                final(self).means()@,
                r,
            ),
            final(self).store() == old(self).store(),
            final(self).batch() == old(self).batch(),
            final(self).means().limit() == old(self).means().limit(),
            final(self).means().kept() == old(self).means().kept(),
            method is SlopeOne ==> final(self).means() == old(self).means(),
            r matches Ok(v) ==> is_finite(v),
    {
        let ghost before = self.adj_cosine@;
        if chunk_size == 0 {
            return Err(ErrorKind::ZeroChunkSize);
        }
        let own = self.controller.user_ratings(user);
        assert(self.controller.ratings_answer(user, own));
        let mine = match own {
            Ok(ratings) => ratings,
            Err(e) => {
                return Err(e);
            },
        };
        let range = self.controller.score_range();
        assert(self.controller.range_answer(range));
        let mut wanted: Vec<u64> = Vec::new();
        wanted.push(item);
        assert(wanted@ =~= one(item));
        let target = fetch_side(self.controller, &wanted, range.0, range.1);
        assert(side_fetched(self.controller, one(item), range.0, range.1, target));
        let target_side = match target {
            Ok(side) => side,
            Err(e) => {
                return Err(e);
            },
        };
        let place: usize = match find_item(&target_side, item) {
            Some(p) => p,
            None => {
                return Err(ErrorKind::UndefinedMetric);
            },
        };
        assert(has_item(target_side@, item));
        let rated = mine.keys();
        assert(rated@ =~= keys_of(mine.pairs()));
        let parts = batches(&rated, chunk_size);
        assert(batched(parts@, keys_of(mine.pairs()), chunk_size));
        let batch: usize = self.config.sim_matrix.partial_users_chunk_size();
        let mut votes: Vec<Vote> = Vec::new();
        let mut b: usize = 0;
        assert(parts@.subrange(0, 0) =~= Seq::<Vec<u64>>::empty());
        while b < parts.len()
            invariant
                b <= parts@.len(),
                place < target_side@.len(),
                batch > 0,
                chunk_size > 0,
                batch == old(self).batch(),
                self.controller == old(self).controller,
                self.config == old(self).config,
                before == old(self).adj_cosine@,
                forall|t: &Vec<Term>| call_requires(*slope, (t,)),
                forall|t: &Vec<Centered>| call_requires(*cosine, (t,)),
                self.adj_cosine.limit() == old(self).adj_cosine.limit(),
                self.adj_cosine.kept() == old(self).adj_cosine.kept(),
                method is SlopeOne ==> self.adj_cosine == old(self).adj_cosine,
                self.controller.ratings_answer(user, Ok(mine)),
                self.controller.range_answer(range),
                side_fetched(self.controller, one(item), range.0, range.1, Ok(target_side)),
                has_item(target_side@, item),
                target_side@[place as int].item == item,
                batched(parts@, keys_of(mine.pairs()), chunk_size),
                voted_upto(
                    self.controller,
                    slope,
                    cosine,
                    batch,
                    method,
                    target_side@,
                    target_side@[place as int].raters.pairs(),
                    mine@,
                    range,
                    parts@.subrange(0, b as int),
                    before,
                    self.adj_cosine@,
                    votes@,
                ),
            decreases parts@.len() - b,
        {
            let ghost mid = self.adj_cosine@;
            let ghost earlier = votes@;
            let voted = chunk_votes(
                self.controller,
                &mut self.adj_cosine,
                batch,
                method,
                &target_side,
                place,
                &mine,
                range,
                &parts[b],
                slope,
                cosine,
            );
            assert(chunk_voted(
                self.controller,
                slope,
                cosine,
                batch,
                method,
                target_side@,
                target_side@[place as int].raters.pairs(),
                mine@,
                range,
                parts@[b as int]@,
                mid,
                self.adj_cosine@,
                voted,
            ));
            let mut fresh = match voted {
                Ok(fresh) => fresh,
                Err(e) => {
                    proof {
                        let r = Err::<i64, ErrorKind>(e);
                        assert(voted == Err::<Vec<Vote>, ErrorKind>(r->Err_0));
                        assert(predicted_over(
                            self.controller,
                            slope,
                            cosine,
                            blend,
                            batch,
                            method,
                            target_side@,
                            target_side@[place as int].raters.pairs(),
                            mine@,
                            range,
                            parts@,
                            before,
                            self.adj_cosine@,
                            r,
                        ));
                        lemma_item_prediction(
                            self.controller,
                            slope,
                            cosine,
                            blend,
                            batch,
                            user,
                            item,
                            method,
                            chunk_size,
                            before,
                            self.adj_cosine@,
                            r,
                            mine,
                            range,
                            target_side,
                            place as int,
                            parts@,
                        );
                    }
                    return Err(e);
                },
            };
            let ghost added = fresh@;
            votes.append(&mut fresh);
            proof {
                let next = parts@.subrange(0, b + 1);
                assert(next.drop_last() =~= parts@.subrange(0, b as int));
                assert(next.last() == parts@[b as int]);
                assert(votes@ == appended(earlier, added));
            }
            b = b + 1;
        }
        assert(parts@.subrange(0, b as int) =~= parts@);
        let votes = counted_votes(method, votes);
        let r = conclude(&votes, blend, ErrorKind::UndefinedMetric);
        proof {
            assert(predicted_over(
                self.controller,
                slope,
                cosine,
                blend,
                batch,
                method,
                target_side@,
                target_side@[place as int].raters.pairs(),
                mine@,
                range,
                parts@,
                before,
                self.adj_cosine@,
                r,
            ));
            lemma_item_prediction(
                self.controller,
                slope,
                cosine,
                blend,
                batch,
                user,
                item,
                method,
                chunk_size,
                before,
                self.adj_cosine@,
                r,
                mine,
                range,
                target_side,
                place as int,
                parts@,
            );
        }
        r
    }
}

} // verus!
