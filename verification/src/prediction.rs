//! Predictions: the votes that a prediction is blended from, and what the
//! blend comes to.
use crate::distances::{
    deviation_is, fast_adjusted_cosine, lemma_similarity_stable, similarity_is, slope_one, verdict,
    verdict_of, Method,
};
use crate::error::ErrorKind;
use crate::knn::Neighbor;
use crate::mean_cache::{distinct, refreshed, MeanCache, MeanEntry};
use crate::pairing::{centre_reads, common, shared, Centered, Term};
use crate::ratings::Ratings;
use crate::score::ZERO;
use crate::store::ItemRaters;
use vstd::prelude::*;

verus! {

/// One contribution to a prediction: a rating, the weight that it comes
/// with (a distance, a similarity or a deviation), and the number of users
/// that the weight rests on.
#[derive(Clone, Copy, Debug)]
pub struct Vote {
    pub rating: i64,
    pub weight: i64,
    pub count: usize,
}

/// A neighbour with what it rated.
pub struct Rated {
    pub neighbor: Neighbor,
    pub ratings: Ratings,
}

/// The votes of the neighbours on `item`: one for each neighbour who rated
/// it, in their order, weighted by the neighbour's distance.
pub open spec fn votes_of(rated: Seq<Rated>, item: u64) -> Seq<Vote>
    decreases rated.len(),
{
    if rated.len() == 0 {
        Seq::<Vote>::empty()
    } else {
        let rest = votes_of(rated.drop_last(), item);
        let last = rated.last();
        if last.ratings@.contains_key(item) {
            rest.push(
                Vote { rating: last.ratings@[item], weight: last.neighbor.distance, count: 1 },
            )
        } else {
            rest
        }
    }
}

/// The votes of the neighbours on `item`.
pub fn neighbour_votes(rated: &Vec<Rated>, item: u64) -> (r: Vec<Vote>)
    ensures
        r@ == votes_of(rated@, item),
{
    let mut r: Vec<Vote> = Vec::new();
    let mut i: usize = 0;
    assert(rated@.subrange(0, 0) =~= Seq::<Rated>::empty());
    while i < rated.len()
        invariant
            i <= rated@.len(),
            r@ == votes_of(rated@.subrange(0, i as int), item),
        decreases rated@.len() - i,
    {
        proof {
            let next = rated@.subrange(0, i + 1);
            assert(next.drop_last() =~= rated@.subrange(0, i as int));
            assert(next.last() == rated@[i as int]);
        }
        match rated[i].ratings.get(item) {
            Some(rating) => {
                r.push(Vote { rating, weight: rated[i].neighbor.distance, count: 1 });
            },
            None => {},
        }
        i = i + 1;
    }
    assert(rated@.subrange(0, i as int) =~= rated@);
    r
}

/// `votes` are the slope-one votes of the items of `side` for a target
/// item with the raters `target`: in the order of `side`, one vote for each
/// item that the user rated (`mine`) and that has a deviation from the
/// target, made of the user's rating, that deviation and the number of
/// common raters.
pub open spec fn slope_votes_are<K: Fn(&Vec<Term>) -> Option<i64>>(
    kernel: &K,
    target: Seq<(u64, i64)>,
    mine: Map<u64, i64>,
    side: Seq<ItemRaters>,
    votes: Seq<Vote>,
) -> bool
    decreases side.len(),
{
    if side.len() == 0 {
        votes.len() == 0
    } else {
        let last = side.last();
        let front = side.drop_last();
        if !mine.contains_key(last.item) {
            slope_votes_are(kernel, target, mine, front, votes)
        } else {
            ||| deviation_is(kernel, target, last.raters@, None) && slope_votes_are(
                kernel,
                target,
                mine,
                front,
                votes,
            )
            ||| votes.len() > 0 && votes.last().rating == mine[last.item] && votes.last().count
                == shared(target, last.raters@).len() && deviation_is(
                kernel,
                target,
                last.raters@,
                Some(votes.last().weight),
            ) && slope_votes_are(kernel, target, mine, front, votes.drop_last())
        }
    }
}

/// The slope-one votes of the items of `side`.
pub fn slope_votes<K: Fn(&Vec<Term>) -> Option<i64>>(
    target: &Ratings,
    mine: &Ratings,
    side: &Vec<ItemRaters>,
    kernel: &K,
) -> (r: Vec<Vote>)
    requires
        forall|t: &Vec<Term>| call_requires(*kernel, (t,)),
    ensures
        slope_votes_are(kernel, target.pairs(), mine@, side@, r@),
{
    let mut r: Vec<Vote> = Vec::new();
    let mut j: usize = 0;
    assert(side@.subrange(0, 0) =~= Seq::<ItemRaters>::empty());
    while j < side.len()
        invariant
            j <= side@.len(),
            forall|t: &Vec<Term>| call_requires(*kernel, (t,)),
            slope_votes_are(kernel, target.pairs(), mine@, side@.subrange(0, j as int), r@),
        decreases side@.len() - j,
    {
        let ghost before = r@;
        proof {
            let next = side@.subrange(0, j + 1);
            assert(next.drop_last() =~= side@.subrange(0, j as int));
            assert(next.last() == side@[j as int]);
        }
        match mine.get(side[j].item) {
            Some(rating) => {
                match slope_one(target, &side[j].raters, kernel) {
                    Ok((weight, count)) => {
                        r.push(Vote { rating, weight, count });
                        assert(r@.drop_last() =~= before);
                    },
                    Err(_) => {},
                }
            },
            None => {},
        }
        j = j + 1;
    }
    assert(side@.subrange(0, j as int) =~= side@);
    r
}

/// `votes` are the adjusted-cosine votes of the items of `side` for a
/// target item with the raters `target`, on the means in `cache`: in the
/// order of `side`, one vote for each item that the user rated (`mine`) and
/// that has a similarity with the target, made of the user's rating, that
/// similarity and the number of common raters.
pub open spec fn cosine_votes_are<K: Fn(&Vec<Centered>) -> Option<i64>>(
    kernel: &K,
    target: Seq<(u64, i64)>,
    mine: Map<u64, i64>,
    cache: Seq<MeanEntry>,
    side: Seq<ItemRaters>,
    votes: Seq<Vote>,
) -> bool
    decreases side.len(),
{
    if side.len() == 0 {
        votes.len() == 0
    } else {
        let last = side.last();
        let front = side.drop_last();
        if !mine.contains_key(last.item) {
            cosine_votes_are(kernel, target, mine, cache, front, votes)
        } else {
            ||| similarity_is(kernel, target, last.raters@, cache, None) && cosine_votes_are(
                kernel,
                target,
                mine,
                cache,
                front,
                votes,
            )
            ||| votes.len() > 0 && votes.last().rating == mine[last.item] && votes.last().count
                == shared(target, last.raters@).len() && similarity_is(
                kernel,
                target,
                last.raters@,
                cache,
                Some(votes.last().weight),
            ) && cosine_votes_are(kernel, target, mine, cache, front, votes.drop_last())
        }
    }
}

/// The cache after the votes of the items of `side` were taken: for each
/// item that the user rated, in the order of `side`, the means of the
/// users who rated both it and the target were read.
pub open spec fn vote_reads(
    s: Seq<MeanEntry>,
    target: Seq<(u64, i64)>,
    mine: Map<u64, i64>,
    side: Seq<ItemRaters>,
) -> Seq<MeanEntry>
    decreases side.len(),
{
    if side.len() == 0 {
        s
    } else {
        let prev = vote_reads(s, target, mine, side.drop_last());
        if mine.contains_key(side.last().item) {
            centre_reads(prev, shared(target, side.last().raters@))
        } else {
            prev
        }
    }
}

/// The adjusted-cosine votes of the items of `side`. Each read of a mean
/// counts.
pub fn cosine_votes<K: Fn(&Vec<Centered>) -> Option<i64>>(
    target: &Ratings,
    mine: &Ratings,
    side: &Vec<ItemRaters>,
    cache: &mut MeanCache,
    kernel: &K,
) -> (r: Vec<Vote>)
    requires
        forall|t: &Vec<Centered>| call_requires(*kernel, (t,)),
    ensures
        cosine_votes_are(kernel, target.pairs(), mine@, old(cache)@, side@, r@),
        final(cache)@ == vote_reads(old(cache)@, target.pairs(), mine@, side@),
        refreshed(old(cache)@, final(cache)@),
        final(cache).limit() == old(cache).limit(),
        final(cache).kept() == old(cache).kept(),
{
    let ghost start = cache@;
    cache.users_are_distinct();
    let mut r: Vec<Vote> = Vec::new();
    let mut j: usize = 0;
    assert(side@.subrange(0, 0) =~= Seq::<ItemRaters>::empty());
    while j < side.len()
        invariant
            j <= side@.len(),
            forall|t: &Vec<Centered>| call_requires(*kernel, (t,)),
            start == old(cache)@,
            distinct(start),
            refreshed(start, cache@),
            cache.limit() == old(cache).limit(),
            cache.kept() == old(cache).kept(),
            cosine_votes_are(
                kernel,
                target.pairs(),
                mine@,
                start,
                side@.subrange(0, j as int),
                r@,
            ),
            cache@ == vote_reads(start, target.pairs(), mine@, side@.subrange(0, j as int)),
        decreases side@.len() - j,
    {
        let ghost before = r@;
        let ghost mid = cache@;
        proof {
            let next = side@.subrange(0, j + 1);
            assert(next.drop_last() =~= side@.subrange(0, j as int));
            assert(next.last() == side@[j as int]);
        }
        match mine.get(side[j].item) {
            Some(rating) => {
                let count: usize = common(target, &side[j].raters).len();
                match fast_adjusted_cosine(target, &side[j].raters, cache, kernel) {
                    Ok(weight) => {
                        proof {
                            lemma_similarity_stable(
                                kernel,
                                target.pairs(),
                                side@[j as int].raters@,
                                start,
                                mid,
                                Some(weight),
                            );
                        }
                        r.push(Vote { rating, weight, count });
                        assert(r@.drop_last() =~= before);
                    },
                    Err(_) => {
                        proof {
                            lemma_similarity_stable(
                                kernel,
                                target.pairs(),
                                side@[j as int].raters@,
                                start,
                                mid,
                                None,
                            );
                        }
                    },
                }
            },
            None => {},
        }
        j = j + 1;
    }
    assert(side@.subrange(0, j as int) =~= side@);
    r
}

/// The votes whose weight is above zero, in their order.
pub open spec fn positive(votes: Seq<Vote>) -> Seq<Vote> {
    votes.filter(|v: Vote| v.weight > ZERO)
}

/// The votes that count for a prediction by `method`: by adjusted cosine
/// those of positive similarity, by slope one all of them.
pub open spec fn counted(method: Method, votes: Seq<Vote>) -> Seq<Vote> {
    match method {
        Method::AdjCosine => positive(votes),
        Method::SlopeOne => votes,
    }
}

/// Drops the votes whose weight is not above zero.
pub fn positive_votes(votes: &Vec<Vote>) -> (r: Vec<Vote>)
    ensures
        r@ == positive(votes@),
{
    let mut r: Vec<Vote> = Vec::new();
    let mut i: usize = 0;
    proof {
        reveal(Seq::filter);
        assert(votes@.subrange(0, 0) =~= Seq::<Vote>::empty());
    }
    while i < votes.len()
        invariant
            i <= votes@.len(),
            r@ == positive(votes@.subrange(0, i as int)),
        decreases votes@.len() - i,
    {
        proof {
            reveal(Seq::filter);
            let next = votes@.subrange(0, i + 1);
            assert(next.drop_last() =~= votes@.subrange(0, i as int));
            assert(next.last() == votes@[i as int]);
        }
        if votes[i].weight > ZERO {
            r.push(votes[i]);
        }
        i = i + 1;
    }
    assert(votes@.subrange(0, i as int) =~= votes@);
    r
}

/// The votes that count for a prediction by `method`.
pub fn counted_votes(method: Method, votes: Vec<Vote>) -> (r: Vec<Vote>)
    ensures
        r@ == counted(method, votes@),
{
    match method {
        Method::AdjCosine => positive_votes(&votes),
        Method::SlopeOne => votes,
    }
}

/// `r` is what a prediction comes to on `votes`: the error `empty` where
/// there is no vote, else the verdict on an outcome of `blend`.
pub open spec fn concluded<B: Fn(&Vec<Vote>) -> Option<i64>>(
    blend: &B,
    votes: Seq<Vote>,
    empty: ErrorKind,
    r: Result<i64, ErrorKind>,
) -> bool {
    if votes.len() == 0 {
        r == Err::<i64, ErrorKind>(empty)
    } else {
        exists|v: Vec<Vote>, out: Option<i64>|
            v@ == votes && #[trigger] call_ensures(*blend, (&v,), out) && r == verdict_of(out)
    }
}

/// Blends the votes into a prediction.
pub fn conclude<B: Fn(&Vec<Vote>) -> Option<i64>>(
    votes: &Vec<Vote>,
    blend: &B,
    empty: ErrorKind,
) -> (r: Result<i64, ErrorKind>)
    requires
        forall|v: &Vec<Vote>| call_requires(*blend, (v,)),
    ensures
        concluded(blend, votes@, empty, r),
{
    if votes.len() == 0 {
        Err(empty)
    } else {
        let out = blend(votes);
        verdict(out)
    }
}

} // verus!
