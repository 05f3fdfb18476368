use recommendation_system::chunks::{batches, find_item, missing_users, usable_side};
use recommendation_system::config::{MatrixConfig, Ratio};
use recommendation_system::knn::{nearest, offer, Neighbor};
use recommendation_system::mean_cache::MeanCache;
use recommendation_system::distances::pair;
use recommendation_system::pairing::{center, common};
use recommendation_system::ratings::Ratings;
use recommendation_system::score::{finite, in_range, negate, settle, MAX_ORDINAL, ONE, ZERO};
use recommendation_system::store::ItemRaters;
use recommendation_system::tile::Tile;

fn ratings(pairs: &[(u64, i64)]) -> Ratings {
    let mut r = Ratings::new();
    for (k, v) in pairs {
        r.insert(*k, *v);
    }
    r
}

fn neighbours(list: &[(u64, i64)]) -> Vec<Neighbor> {
    list.iter()
        .map(|(user, distance)| Neighbor { user: *user, distance: *distance })
        .collect()
}

fn flat(list: &[Neighbor]) -> Vec<(u64, i64)> {
    list.iter().map(|n| (n.user, n.distance)).collect()
}

#[test]
fn ratings_keep_their_keys_in_order() {
    let r = ratings(&[(5, 50), (1, 10), (9, 90), (3, 30)]);
    assert_eq!(r.len(), 4);
    assert_eq!(r.keys(), vec![1, 3, 5, 9]);
    assert_eq!(r.as_vec(), &vec![(1, 10), (3, 30), (5, 50), (9, 90)]);
    assert_eq!(r.get(3), Some(30));
    assert_eq!(r.get(4), None);
    assert!(r.contains_key(9));
    assert!(!r.contains_key(0));
    assert!(!r.is_empty());
    assert!(Ratings::new().is_empty());
    assert_eq!(Ratings::new().len(), 0);
}

#[test]
fn inserting_a_rated_key_replaces_its_score() {
    let mut r = ratings(&[(1, 10), (2, 20)]);
    r.insert(2, 25);
    assert_eq!(r.len(), 2);
    assert_eq!(r.get(2), Some(25));
    r.insert(0, 5);
    assert_eq!(r.as_vec(), &vec![(0, 5), (1, 10), (2, 25)]);
    let copy = r.duplicate();
    r.insert(7, 70);
    assert_eq!(copy.as_vec(), &vec![(0, 5), (1, 10), (2, 25)]);
}

#[test]
fn within_keeps_the_scores_in_range() {
    let r = ratings(&[(1, -5), (2, 0), (3, 7), (4, 10), (5, 11)]);
    assert_eq!(r.within(0, 10).as_vec(), &vec![(2, 0), (3, 7), (4, 10)]);
    assert!(r.within(20, 30).is_empty());
    assert_eq!(r.within(i64::MIN, i64::MAX).len(), 5);
}

#[test]
fn common_pairs_the_shared_keys() {
    let a = ratings(&[(1, 10), (2, 20), (4, 40)]);
    let b = ratings(&[(2, 21), (3, 31), (4, 41)]);
    let terms = common(&a, &b);
    let flat: Vec<(u64, i64, i64)> = terms.iter().map(|t| (t.key, t.left, t.right)).collect();
    assert_eq!(flat, vec![(2, 20, 21), (4, 40, 41)]);
    let back = common(&b, &a);
    let flat: Vec<(u64, i64, i64)> = back.iter().map(|t| (t.key, t.left, t.right)).collect();
    assert_eq!(flat, vec![(2, 21, 20), (4, 41, 40)]);
    let p = pair(&a, &b);
    assert_eq!((p.terms.len(), p.both, p.either), (2, 2, 4));
    let p = pair(&a, &Ratings::new());
    assert_eq!((p.terms.len(), p.both, p.either), (0, 0, 3));
    assert!(common(&a, &ratings(&[(7, 1)])).is_empty());
}

#[test]
fn centring_reads_each_mean_once() {
    let a = ratings(&[(1, 10), (2, 20)]);
    let b = ratings(&[(1, 11), (2, 21)]);
    let mut cache = MeanCache::new(10, Ratio::one());
    cache.add_new_means(&ratings(&[(1, 100), (2, 200)]));
    let terms = center(&common(&a, &b), &mut cache).unwrap();
    let flat: Vec<(u64, i64, i64, i64)> = terms
        .iter()
        .map(|t| (t.user, t.left, t.right, t.mean))
        .collect();
    assert_eq!(flat, vec![(1, 10, 11, 100), (2, 20, 21, 200)]);
    assert_eq!(cache.entry_for(1).unwrap().accesses, 1);
    assert_eq!(cache.entry_for(2).unwrap().accesses, 1);
    cache.maybe_delete_mean_for(2);
    assert!(center(&common(&a, &b), &mut cache).is_none());
    assert_eq!(cache.entry_for(1).unwrap().accesses, 2);
}

#[test]
fn the_nearest_are_sorted_by_distance_then_user() {
    let all = neighbours(&[(7, 30), (3, 10), (9, 20), (1, 20), (5, 40)]);
    assert_eq!(flat(&nearest(&all, 3)), vec![(3, 10), (1, 20), (9, 20)]);
    assert_eq!(
        flat(&nearest(&all, 10)),
        vec![(3, 10), (1, 20), (9, 20), (7, 30), (5, 40)]
    );
    assert!(nearest(&all, 0).is_empty());
    assert!(nearest(&Vec::new(), 3).is_empty());
}

#[test]
fn a_user_is_listed_once() {
    let all = neighbours(&[(7, 30), (7, 5), (3, 10), (7, 1)]);
    assert_eq!(flat(&nearest(&all, 3)), vec![(3, 10), (7, 30)]);
    let best = offer(Vec::new(), Neighbor { user: 4, distance: -2 }, 1);
    let best = offer(best, Neighbor { user: 5, distance: -3 }, 1);
    assert_eq!(flat(&best), vec![(5, -3)]);
    let best = offer(best, Neighbor { user: 6, distance: -3 }, 1);
    assert_eq!(flat(&best), vec![(5, -3)]);
    let best = offer(best, Neighbor { user: 2, distance: -3 }, 1);
    assert_eq!(flat(&best), vec![(2, -3)]);
}

#[test]
fn cache_counts_reads_and_keeps_old_entries() {
    let mut cache = MeanCache::new(3, Ratio::new(2, 3).unwrap());
    assert_eq!(cache.max_entries(), 3);
    assert_eq!(cache.keep_count(), 2);
    assert!(cache.is_empty());
    cache.add_new_means(&ratings(&[(2, 20), (1, 10)]));
    assert_eq!(cache.users(), vec![1, 2]);
    assert_eq!(cache.get_mean(2), Some(20));
    assert_eq!(cache.get_mean(3), None);
    assert!(cache.has_mean_for(1));
    assert_eq!(cache.entry_for(1).unwrap().accesses, 0);
    cache.add_new_means(&ratings(&[(2, 99), (0, 5)]));
    assert_eq!(cache.users(), vec![1, 2, 0]);
    let kept = cache.entry_for(2).unwrap();
    assert_eq!((kept.mean, kept.accesses), (20, 1));
    cache.shrink_means();
    assert_eq!(cache.len(), 3);
    cache.add_new_means(&ratings(&[(8, 80)]));
    cache.shrink_means();
    // 1 is the oldest of the unread entries, 0 the next
    assert_eq!(cache.users(), vec![2, 8]);
    let spare = cache.emptied();
    assert!(spare.is_empty());
    assert_eq!((spare.max_entries(), spare.keep_count()), (3, 2));
}

#[test]
fn cache_updates_and_deletes_only_what_it_holds() {
    let mut cache = MeanCache::new(10, Ratio::one());
    cache.add_new_means(&ratings(&[(1, 10), (2, 20)]));
    cache.get_mean(1);
    cache.maybe_update_mean_for(1, 11);
    let e = cache.entry_for(1).unwrap();
    assert_eq!((e.mean, e.accesses), (11, 1));
    cache.maybe_update_mean_for(3, 30);
    assert!(!cache.has_mean_for(3));
    assert_eq!(cache.len(), 2);
    cache.maybe_delete_mean_for(3);
    assert_eq!(cache.len(), 2);
    cache.maybe_delete_mean_for(1);
    assert_eq!(cache.users(), vec![2]);
}

#[test]
fn ratios_round_as_they_say() {
    assert!(Ratio::new(0, 5).is_none());
    assert!(Ratio::new(6, 5).is_none());
    assert!(Ratio::new(1, 0).is_none());
    let third = Ratio::new(1, 3).unwrap();
    assert_eq!((third.numerator(), third.denominator()), (1, 3));
    assert_eq!(third.scale_up(100), 34);
    assert_eq!(third.scale_down(100), 33);
    assert_eq!(third.scale_up(0), 0);
    assert_eq!(third.scale_up(1), 1);
    assert_eq!(third.scale_down(2), 0);
    assert_eq!(Ratio::one().scale_up(usize::MAX), usize::MAX);
    assert_eq!(Ratio::new(1, 2).unwrap().scale_up(99), 50);
    assert!(MatrixConfig::new(true, third, 0).is_none());
    let c = MatrixConfig::new(true, third, 7).unwrap();
    assert!(c.allow_chunk_optimization());
    assert_eq!(c.partial_users_chunk_size(), 7);
    assert_eq!(c.chunk_size_threshold().denominator(), 3);
}

#[test]
fn batches_cut_in_order() {
    let users: Vec<u64> = (1..8).collect();
    assert_eq!(
        batches(&users, 3),
        vec![vec![1, 2, 3], vec![4, 5, 6], vec![7]]
    );
    assert_eq!(batches(&users, 7), vec![users.clone()]);
    assert_eq!(batches(&users, 100), vec![users.clone()]);
    assert_eq!(batches(&users, 1).len(), 7);
    assert!(batches(&Vec::new(), 3).is_empty());
}

#[test]
fn usable_side_drops_what_is_out_of_range_or_empty() {
    let found = vec![
        ItemRaters { item: 1, raters: ratings(&[(10, 3), (11, 50)]) },
        ItemRaters { item: 2, raters: Ratings::new() },
        ItemRaters { item: 3, raters: ratings(&[(12, 99)]) },
        ItemRaters { item: 4, raters: ratings(&[(10, 1), (13, 2)]) },
    ];
    let side = usable_side(&found, 0, 10);
    let items: Vec<u64> = side.iter().map(|s| s.item).collect();
    assert_eq!(items, vec![1, 4]);
    assert_eq!(side[0].raters.as_vec(), &vec![(10, 3)]);
    assert_eq!(find_item(&side, 4), Some(1));
    assert_eq!(find_item(&side, 2), None);
    let mut cache = MeanCache::new(10, Ratio::one());
    cache.add_new_means(&ratings(&[(13, 7)]));
    assert_eq!(missing_users(&side, &found, &cache), vec![10, 11, 12]);
    assert_eq!(missing_users(&side, &Vec::new(), &cache), vec![10]);
}

#[test]
fn tiles_hold_rows() {
    let mut tile = Tile::new();
    assert_eq!(tile.len(), 0);
    tile.put_row(1, ratings(&[(1, ONE), (2, 5)]));
    tile.put_row(2, ratings(&[(2, ONE)]));
    assert_eq!(tile.len(), 2);
    assert!(tile.has_row(1));
    assert!(!tile.has_row(3));
    assert_eq!(tile.cell(1, 2), Some(5));
    assert_eq!(tile.cell(2, 1), None);
    assert_eq!(tile.cell(3, 1), None);
    tile.put_row(1, ratings(&[(1, ONE)]));
    assert_eq!(tile.cell(1, 2), None);
    assert_eq!(tile.len(), 2);
}

#[test]
fn ordinals_negate_and_stay_finite() {
    assert_eq!(negate(ONE), -ONE);
    assert_eq!(negate(ZERO), ZERO);
    assert_eq!(negate(-MAX_ORDINAL), MAX_ORDINAL);
    assert!(finite(MAX_ORDINAL));
    assert!(finite(-MAX_ORDINAL));
    assert!(!finite(MAX_ORDINAL + 1));
    assert!(!finite(i64::MIN));
    assert_eq!(settle(Some(5)), Some(5));
    assert_eq!(settle(Some(i64::MAX)), None);
    assert_eq!(settle(None), None);
    assert!(in_range(1, 5, 1));
    assert!(in_range(1, 5, 5));
    assert!(!in_range(1, 5, 0));
    assert!(!in_range(1, 5, 6));
}
