use recommendation_system::chunks::{batches, nth_batch, usable_side};
use recommendation_system::grouping::{
    is_rated, item_raters, items_of, maped_ratings, maped_ratings_by, maped_ratings_except, raters_except, user_ratings,
    users_of, users_who_rated, Rating,
};
use recommendation_system::knn::Neighbor;
use recommendation_system::mean_cache::MeanCache;
use recommendation_system::config::Ratio;
use recommendation_system::pairing::{Centered, Term};
use recommendation_system::prediction::{
    cosine_votes, neighbour_votes, slope_votes, Rated, Vote,
};
use recommendation_system::ratings::Ratings;
use recommendation_system::store::ItemRaters;

fn rows() -> Vec<Rating> {
    vec![
        Rating { user: 2, item: 10, score: 30 },
        Rating { user: 1, item: 10, score: 50 },
        Rating { user: 1, item: 11, score: 20 },
        Rating { user: 3, item: 12, score: 40 },
        Rating { user: 2, item: 10, score: 35 },
    ]
}

fn ratings(pairs: &[(u64, i64)]) -> Ratings {
    let mut r = Ratings::new();
    for (k, v) in pairs {
        r.insert(*k, *v);
    }
    r
}

fn flat(votes: &[Vote]) -> Vec<(i64, i64, usize)> {
    votes.iter().map(|v| (v.rating, v.weight, v.count)).collect()
}

fn difference(terms: &Vec<Term>) -> Option<i64> {
    Some(terms.iter().map(|t| t.left - t.right).sum())
}

fn picky(terms: &Vec<Term>) -> Option<i64> {
    if terms.len() > 1 {
        Some(7)
    } else {
        None
    }
}

fn centred_sum(terms: &Vec<Centered>) -> Option<i64> {
    Some(terms.iter().map(|t| (t.left - t.mean) + (t.right - t.mean)).sum())
}

#[test]
fn rows_group_by_item_and_by_user() {
    let rows = rows();
    assert_eq!(item_raters(&rows, 10).as_vec(), &vec![(1, 50), (2, 35)]);
    assert!(item_raters(&rows, 99).is_empty());
    assert_eq!(user_ratings(&rows, 1).as_vec(), &vec![(10, 50), (11, 20)]);
    assert!(user_ratings(&rows, 9).is_empty());
    let found = users_who_rated(&rows, &vec![12, 77, 10, 12]);
    let items: Vec<u64> = found.iter().map(|f| f.item).collect();
    assert_eq!(items, vec![12, 10]);
    assert_eq!(found[0].raters.as_vec(), &vec![(3, 40)]);
    assert_eq!(found[1].raters.as_vec(), &vec![(1, 50), (2, 35)]);
    assert!(users_who_rated(&rows, &vec![77, 78]).is_empty());
    assert!(is_rated(&rows, 11));
    assert!(!is_rated(&rows, 77));
}

#[test]
fn every_other_user_is_listed_once() {
    let rows = rows();
    assert_eq!(raters_except(&rows, 2), vec![1, 3]);
    assert_eq!(raters_except(&rows, 9), vec![1, 2, 3]);
    let others = maped_ratings_except(&rows, 1);
    let users: Vec<u64> = others.iter().map(|o| o.user).collect();
    assert_eq!(users, vec![2, 3]);
    assert_eq!(others[0].ratings.as_vec(), &vec![(10, 35)]);
    let all = maped_ratings(&rows);
    let users: Vec<u64> = all.iter().map(|o| o.user).collect();
    assert_eq!(users, vec![1, 2, 3]);
    assert_eq!(all[0].ratings.as_vec(), &vec![(10, 50), (11, 20)]);
    let some = maped_ratings_by(&rows, &vec![3, 3, 8]);
    assert_eq!(some.len(), 3);
    assert_eq!(some[1].ratings.as_vec(), &vec![(12, 40)]);
    assert!(some[2].ratings.is_empty());
}

#[test]
fn a_repeated_item_counts_once() {
    let found = vec![
        ItemRaters { item: 1, raters: ratings(&[(10, 3)]) },
        ItemRaters { item: 2, raters: ratings(&[(10, 4)]) },
        ItemRaters { item: 1, raters: ratings(&[(11, 5)]) },
        ItemRaters { item: 3, raters: ratings(&[(10, 40)]) },
        ItemRaters { item: 3, raters: ratings(&[(12, 6)]) },
    ];
    let side = usable_side(&found, 0, 10);
    let items: Vec<u64> = side.iter().map(|s| s.item).collect();
    assert_eq!(items, vec![1, 2, 3]);
    assert_eq!(side[0].raters.as_vec(), &vec![(10, 3)]);
    assert_eq!(side[2].raters.as_vec(), &vec![(12, 6)]);
}

#[test]
fn neighbours_vote_where_they_rated() {
    let rated = vec![
        Rated { neighbor: Neighbor { user: 1, distance: 5 }, ratings: ratings(&[(7, 40)]) },
        Rated { neighbor: Neighbor { user: 2, distance: 6 }, ratings: ratings(&[(8, 10)]) },
        Rated { neighbor: Neighbor { user: 3, distance: 9 }, ratings: ratings(&[(7, 20), (8, 1)]) },
    ];
    assert_eq!(flat(&neighbour_votes(&rated, 7)), vec![(40, 5, 1), (20, 9, 1)]);
    assert!(neighbour_votes(&rated, 99).is_empty());
    assert!(neighbour_votes(&Vec::new(), 7).is_empty());
}

#[test]
fn items_vote_where_the_user_rated_and_the_kernel_answers() {
    let target = ratings(&[(1, 20), (2, 50)]);
    let mine = ratings(&[(101, 30), (102, 40), (104, 10)]);
    let side = vec![
        ItemRaters { item: 101, raters: ratings(&[(1, 50)]) },
        ItemRaters { item: 102, raters: ratings(&[(1, 30), (2, 20)]) },
        ItemRaters { item: 103, raters: ratings(&[(1, 1)]) },
        ItemRaters { item: 104, raters: ratings(&[(9, 1)]) },
    ];
    assert_eq!(
        flat(&slope_votes(&target, &mine, &side, &difference)),
        vec![(30, -30, 1), (40, 20, 2)]
    );
    assert_eq!(flat(&slope_votes(&target, &mine, &side, &picky)), vec![(40, 7, 2)]);
    let mut cache = MeanCache::new(10, Ratio::one());
    cache.add_new_means(&ratings(&[(1, 10)]));
    assert_eq!(
        flat(&cosine_votes(&target, &mine, &side, &mut cache, &centred_sum)),
        vec![(30, 50, 1)]
    );
    cache.add_new_means(&ratings(&[(2, 20)]));
    assert_eq!(
        flat(&cosine_votes(&target, &mine, &side, &mut cache, &centred_sum)),
        vec![(30, 50, 1), (40, 60, 2)]
    );
}

#[test]
fn chunked_users() {
    let users: Vec<u64> = (0..278858).collect();
    let mut index = 0;
    let mut next = || {
        index += 1;
        nth_batch(&users, index - 1, 80000)
    };

    assert_eq!(80000, next().unwrap().len());
    assert_eq!(80000, next().unwrap().len());
    assert_eq!(80000, next().unwrap().len());
    assert_eq!(38858, next().unwrap().len());
    assert!(next().is_none());
}

#[test]
fn the_nth_batch_is_the_nth_of_all_batches() {
    let ids: Vec<u64> = (10..21).collect();
    for size in 1..13 {
        let all = batches(&ids, size);
        for (index, batch) in all.iter().enumerate() {
            assert_eq!(nth_batch(&ids, index, size).as_ref(), Some(batch));
        }
        assert_eq!(nth_batch(&ids, all.len(), size), None);
    }
    assert_eq!(nth_batch(&ids, 2, 4), Some(vec![18, 19, 20]));
    assert_eq!(nth_batch(&ids, 0, 0), None);
    assert_eq!(nth_batch(&ids, usize::MAX, usize::MAX), None);
    assert_eq!(nth_batch(&Vec::new(), 0, 3), None);
}

#[test]
fn users_and_items_are_listed_once_in_order() {
    let rows = rows();
    assert_eq!(users_of(&rows), vec![1, 2, 3]);
    assert_eq!(items_of(&rows), vec![10, 11, 12]);
    assert!(users_of(&Vec::new()).is_empty());
    assert!(items_of(&Vec::new()).is_empty());
}
