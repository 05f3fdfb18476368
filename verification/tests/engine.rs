use recommendation_system::chunked_matrix::{ChunkedMatrix, DeviationMatrix, SimilarityMatrix};
use recommendation_system::config::{Config, MatrixConfig, Ratio};
use recommendation_system::distances::{
    adjusted_cosine_means, item_column, distance_between, fast_adjusted_cosine, slope_one,
    slow_adjusted_cosine, Method, Pairing, UserMethod,
};
use recommendation_system::chunks::{fetch_chunk, fetch_side, fetch_sides, fill_means};
use recommendation_system::engine::{
    candidates_of, check_score, chunk_votes, score_candidates, Engine,
};
use recommendation_system::knn::{offer_all, Neighbor};
use recommendation_system::error::ErrorKind;
use recommendation_system::mean_cache::MeanCache;
use recommendation_system::pairing::{Centered, Term};
use recommendation_system::prediction::{conclude, counted_votes, positive_votes, Vote};
use recommendation_system::ratings::Ratings;
use recommendation_system::score::{MAX_ORDINAL, ONE, ZERO};
use recommendation_system::store::{Controller, ItemRaters, UserRatings};
use std::cell::Cell;
use std::collections::BTreeMap;

const TOLERANCE: f64 = 1e-9;

fn encode(x: f64) -> i64 {
    let bits = x.to_bits();
    let magnitude = (bits & 0x7fff_ffff_ffff_ffff) as i64;
    if bits >> 63 == 1 {
        -magnitude
    } else {
        magnitude
    }
}

fn decode(ordinal: i64) -> f64 {
    if ordinal < 0 {
        -f64::from_bits((-ordinal) as u64)
    } else {
        f64::from_bits(ordinal as u64)
    }
}

fn close(a: f64, b: f64) -> bool {
    (a - b).abs() < TOLERANCE
}

fn ratings(pairs: &[(u64, f64)]) -> Ratings {
    let mut r = Ratings::new();
    for (k, v) in pairs {
        r.insert(*k, encode(*v));
    }
    r
}

fn raw_metric(method: UserMethod, p: &Pairing) -> Option<i64> {
    let value = match method {
        UserMethod::Euclidean => p
            .terms
            .iter()
            .map(|t| (decode(t.left) - decode(t.right)).powi(2))
            .sum::<f64>()
            .sqrt(),
        UserMethod::Manhattan => p
            .terms
            .iter()
            .map(|t| (decode(t.left) - decode(t.right)).abs())
            .sum::<f64>(),
        UserMethod::Minkowski(order) => p
            .terms
            .iter()
            .map(|t| (decode(t.left) - decode(t.right)).abs().powi(order as i32))
            .sum::<f64>()
            .powf(1.0 / order as f64),
        UserMethod::Jaccard => p.both as f64 / p.either as f64,
        UserMethod::Cosine => {
            let dot: f64 = p.terms.iter().map(|t| decode(t.left) * decode(t.right)).sum();
            let a: f64 = p.terms.iter().map(|t| decode(t.left).powi(2)).sum();
            let b: f64 = p.terms.iter().map(|t| decode(t.right).powi(2)).sum();
            dot / (a.sqrt() * b.sqrt())
        }
        UserMethod::Pearson => {
            let n = p.terms.len() as f64;
            let ma: f64 = p.terms.iter().map(|t| decode(t.left)).sum::<f64>() / n;
            let mb: f64 = p.terms.iter().map(|t| decode(t.right)).sum::<f64>() / n;
            let cov: f64 = p
                .terms
                .iter()
                .map(|t| (decode(t.left) - ma) * (decode(t.right) - mb))
                .sum();
            let va: f64 = p.terms.iter().map(|t| (decode(t.left) - ma).powi(2)).sum();
            let vb: f64 = p.terms.iter().map(|t| (decode(t.right) - mb).powi(2)).sum();
            cov / (va.sqrt() * vb.sqrt())
        }
    };
    Some(encode(value))
}

fn as_distance(method: UserMethod, p: &Pairing) -> Option<i64> {
    let raw = decode(raw_metric(method, p)?);
    let distance = if method.is_similarity() { 1.0 - raw } else { raw };
    Some(encode(distance))
}

fn deviation(terms: &Vec<Term>) -> Option<i64> {
    let sum: f64 = terms.iter().map(|t| decode(t.left) - decode(t.right)).sum();
    Some(encode(sum / terms.len() as f64))
}

fn centred_cosine(terms: &Vec<Centered>) -> Option<i64> {
    let cov: f64 = terms
        .iter()
        .map(|t| (decode(t.left) - decode(t.mean)) * (decode(t.right) - decode(t.mean)))
        .sum();
    let a: f64 = terms.iter().map(|t| (decode(t.left) - decode(t.mean)).powi(2)).sum();
    let b: f64 = terms.iter().map(|t| (decode(t.right) - decode(t.mean)).powi(2)).sum();
    Some(encode(cov / (a.sqrt() * b.sqrt())))
}

fn slope_blend(votes: &Vec<Vote>) -> Option<i64> {
    let num: f64 = votes
        .iter()
        .map(|v| (decode(v.rating) + decode(v.weight)) * v.count as f64)
        .sum();
    let den: f64 = votes.iter().map(|v| v.count as f64).sum();
    Some(encode(num / den))
}

fn similarity_blend(votes: &Vec<Vote>) -> Option<i64> {
    assert!(votes.iter().all(|v| decode(v.weight) > 0.0));
    let num: f64 = votes.iter().map(|v| decode(v.weight) * decode(v.rating)).sum();
    let den: f64 = votes.iter().map(|v| decode(v.weight).abs()).sum();
    Some(encode(num / den))
}

fn distance_blend(votes: &Vec<Vote>) -> Option<i64> {
    let num: f64 = votes
        .iter()
        .map(|v| decode(v.rating) / (1.0 + decode(v.weight)))
        .sum();
    let den: f64 = votes.iter().map(|v| 1.0 / (1.0 + decode(v.weight))).sum();
    Some(encode(num / den))
}

struct MemStore {
    users: BTreeMap<u64, Vec<(u64, f64)>>,
    lo: f64,
    hi: f64,
    fail_means: bool,
    mean_calls: Cell<usize>,
    estimates: bool,
}

impl MemStore {
    fn new(users: &[(u64, &[(u64, f64)])]) -> MemStore {
        MemStore {
            users: users.iter().map(|(u, r)| (*u, r.to_vec())).collect(),
            lo: 0.0,
            hi: 10.0,
            fail_means: false,
            mean_calls: Cell::new(0),
            estimates: false,
        }
    }

    fn items(&self) -> Vec<u64> {
        let mut items: Vec<u64> = self
            .users
            .values()
            .flat_map(|r| r.iter().map(|(i, _)| *i))
            .collect();
        items.sort();
        items.dedup();
        items
    }

    fn of(&self, user: u64) -> Ratings {
        ratings(self.users.get(&user).map(|v| v.as_slice()).unwrap_or(&[]))
    }
}

impl Controller for MemStore {
    fn items_chunk(&self, index: usize, size: usize) -> Result<Option<Vec<u64>>, ErrorKind> {
        let items = self.items();
        if size == 0 {
            return Ok(None);
        }
        Ok(items.chunks(size).nth(index).map(|c| c.to_vec()))
    }

    fn users_chunk(
        &self,
        index: usize,
        size: usize,
    ) -> Result<Option<Vec<UserRatings>>, ErrorKind> {
        let users: Vec<u64> = self.users.keys().cloned().collect();
        if size == 0 {
            return Ok(None);
        }
        Ok(users.chunks(size).nth(index).map(|c| {
            c.iter()
                .map(|u| UserRatings { user: *u, ratings: self.of(*u) })
                .collect()
        }))
    }

    fn ratings_except(&self, user: u64) -> Result<Vec<UserRatings>, ErrorKind> {
        Ok(self
            .users
            .keys()
            .filter(|u| **u != user)
            .map(|u| UserRatings { user: *u, ratings: self.of(*u) })
            .collect())
    }

    fn users_who_rated(&self, items: &Vec<u64>) -> Result<Vec<ItemRaters>, ErrorKind> {
        Ok(items
            .iter()
            .map(|item| {
                let mut raters = Ratings::new();
                for (user, rated) in &self.users {
                    for (i, s) in rated {
                        if i == item {
                            raters.insert(*user, encode(*s));
                        }
                    }
                }
                ItemRaters { item: *item, raters }
            })
            .collect())
    }

    fn get_means(&self, users: &Vec<u64>) -> Result<Ratings, ErrorKind> {
        self.mean_calls.set(self.mean_calls.get() + 1);
        if self.fail_means {
            return Err(ErrorKind::StoreBackend("means are gone".to_string()));
        }
        let mut means = Ratings::new();
        for u in users {
            if let Some(rated) = self.users.get(u) {
                if !rated.is_empty() {
                    let sum: f64 = rated.iter().map(|(_, s)| *s).sum();
                    means.insert(*u, encode(sum / rated.len() as f64));
                }
            }
        }
        Ok(means)
    }

    fn users_means(&self, users: &Vec<u64>) -> Result<Ratings, ErrorKind> {
        self.get_means(users)
    }

    fn user_ratings(&self, user: u64) -> Result<Ratings, ErrorKind> {
        match self.users.get(&user) {
            Some(_) => Ok(self.of(user)),
            None => Err(ErrorKind::NotFoundById(user.to_string())),
        }
    }

    fn score_range(&self) -> (i64, i64) {
        (encode(self.lo), encode(self.hi))
    }

    fn approximate_chunk_size(&self, rows: usize, columns: usize) -> Option<usize> {
        if self.estimates {
            Some(rows * columns * 10)
        } else {
            None
        }
    }
}

fn config(batch: usize) -> Config {
    Config {
        sim_matrix: MatrixConfig::new(true, Ratio::new(1, 2).unwrap(), batch).unwrap(),
        mean_cache_max_entries: 100,
        mean_cache_keep_ratio: Ratio::new(1, 2).unwrap(),
    }
}

const A: u64 = 1;
const B: u64 = 2;
const C: u64 = 3;
const X: u64 = 10;
const Y: u64 = 11;

fn cosine_store() -> MemStore {
    MemStore::new(&[
        (A, &[(X, 5.0), (Y, 3.0)]),
        (B, &[(X, 4.0), (Y, 2.0)]),
        (C, &[(X, 1.0), (Y, 5.0)]),
    ])
}

const U1: u64 = 1;
const U2: u64 = 2;
const U3: u64 = 3;
const I1: u64 = 101;
const I2: u64 = 102;
const I3: u64 = 103;

fn slope_store() -> MemStore {
    MemStore::new(&[
        (U1, &[(I1, 5.0), (I2, 3.0), (I3, 2.0)]),
        (U2, &[(I1, 3.0), (I2, 4.0)]),
        (U3, &[(I2, 2.0), (I3, 5.0)]),
    ])
}

#[test]
fn ordinals_follow_the_order_of_the_values() {
    let values = [-10.5, -1.0, -0.0, 0.0, 1e-300, 0.5, 1.0, 3.25, 1e300];
    for a in values {
        assert_eq!(decode(encode(a)), a);
        assert_eq!(encode(-a), -encode(a));
        for b in values {
            assert_eq!(a < b, encode(a) < encode(b));
        }
    }
    assert_eq!(encode(0.0), ZERO);
    assert_eq!(encode(1.0), ONE);
    assert_eq!(encode(f64::MAX), MAX_ORDINAL);
    assert!(encode(f64::INFINITY) > MAX_ORDINAL);
    assert!(encode(f64::NAN) > MAX_ORDINAL);
}

#[test]
fn cosine_knn_orders_by_distance() {
    let store = cosine_store();
    let engine = Engine::with_controller(&store, config(4));
    let knn = engine
        .user_knn(2, A, UserMethod::Cosine, None, &as_distance)
        .unwrap();
    assert_eq!(knn.len(), 2);
    assert_eq!(knn[0].user, B);
    assert_eq!(knn[1].user, C);
    let d_ab = 1.0 - (5.0 * 4.0 + 3.0 * 2.0) / (34f64.sqrt() * 20f64.sqrt());
    let d_ac = 1.0 - (5.0 * 1.0 + 3.0 * 5.0) / (34f64.sqrt() * 26f64.sqrt());
    assert!(close(decode(knn[0].distance), d_ab));
    assert!(close(decode(knn[1].distance), d_ac));
    assert!(knn[0].distance < knn[1].distance);
}

#[test]
fn knn_in_chunks_matches_knn_at_once() {
    let store = cosine_store();
    let engine = Engine::with_controller(&store, config(4));
    let whole = engine
        .user_knn(2, A, UserMethod::Euclidean, None, &as_distance)
        .unwrap();
    for size in 1..4 {
        let chunked = engine
            .user_knn(2, A, UserMethod::Euclidean, Some(size), &as_distance)
            .unwrap();
        assert_eq!(chunked.len(), whole.len());
        for (a, b) in chunked.iter().zip(whole.iter()) {
            assert_eq!((a.user, a.distance), (b.user, b.distance));
        }
    }
    assert!(whole.iter().all(|n| n.user != A));
}

#[test]
fn knn_returns_fewer_when_the_population_is_small() {
    let store = cosine_store();
    let engine = Engine::with_controller(&store, config(4));
    let knn = engine
        .user_knn(10, A, UserMethod::Manhattan, None, &as_distance)
        .unwrap();
    assert_eq!(knn.len(), 2);
    let none = engine
        .user_knn(0, A, UserMethod::Manhattan, None, &as_distance)
        .unwrap();
    assert!(none.is_empty());
}

#[test]
fn knn_skips_users_without_a_distance() {
    let store = MemStore::new(&[
        (A, &[(X, 5.0)]),
        (B, &[(Y, 4.0)]),
        (C, &[(X, 1.0)]),
    ]);
    let engine = Engine::with_controller(&store, config(4));
    let knn = engine
        .user_knn(2, A, UserMethod::Euclidean, None, &as_distance)
        .unwrap();
    assert_eq!(knn.len(), 1);
    assert_eq!(knn[0].user, C);
    assert!(close(decode(knn[0].distance), 4.0));
}

#[test]
fn knn_of_an_unknown_user_fails_with_the_store() {
    let store = cosine_store();
    let engine = Engine::with_controller(&store, config(4));
    let r = engine.user_knn(2, 99, UserMethod::Cosine, None, &as_distance);
    assert!(matches!(r, Err(ErrorKind::NotFoundById(id)) if id == "99"));
}

#[test]
fn slope_one_prediction_is_the_weighted_average() {
    let store = slope_store();
    let mut engine = Engine::with_controller(&store, config(4));
    let predicted = engine
        .item_based_predict(
            U2,
            I3,
            Method::SlopeOne,
            16,
            &deviation,
            &centred_cosine,
            &slope_blend,
        )
        .unwrap();
    assert!(close(decode(predicted), 10.0 / 3.0));
    assert!(engine.adj_cosine().is_empty());
}

#[test]
fn slope_one_prediction_does_not_depend_on_the_chunk_size() {
    let store = slope_store();
    let mut engine = Engine::with_controller(&store, config(4));
    for size in 1..4 {
        let predicted = engine
            .item_based_predict(
                U2,
                I3,
                Method::SlopeOne,
                size,
                &deviation,
                &centred_cosine,
                &slope_blend,
            )
            .unwrap();
        assert!(close(decode(predicted), 10.0 / 3.0));
    }
}

#[test]
fn slope_one_deviations_of_the_fixture() {
    let store = slope_store();
    let found = store.users_who_rated(&vec![I1, I2, I3]).unwrap();
    let (dev31, n31) = slope_one(&found[2].raters, &found[0].raters, &deviation).unwrap();
    assert!(close(decode(dev31), -3.0));
    assert_eq!(n31, 1);
    let (dev32, n32) = slope_one(&found[2].raters, &found[1].raters, &deviation).unwrap();
    assert!(close(decode(dev32), 1.0));
    assert_eq!(n32, 2);
    let (dev23, n23) = slope_one(&found[1].raters, &found[2].raters, &deviation).unwrap();
    assert_eq!(dev23, -dev32);
    assert_eq!(n23, n32);
}

#[test]
fn adjusted_cosine_prediction_uses_positive_similarities() {
    let store = slope_store();
    let mut engine = Engine::with_controller(&store, config(1));
    let r = engine.item_based_predict(
        U2,
        I3,
        Method::AdjCosine,
        16,
        &deviation,
        &centred_cosine,
        &similarity_blend,
    );
    // i3 against i1 shares one user, whose centred product over its own norm
    // is +1 or -1; against i2 it shares two users.
    match r {
        Ok(v) => assert!(decode(v).is_finite()),
        Err(e) => assert!(matches!(e, ErrorKind::UndefinedMetric)),
    }
    assert!(engine.adj_cosine().has_mean_for(U1));
    assert!(engine.adj_cosine().has_mean_for(U3));
    assert!(close(
        decode(engine.adj_cosine().entry_for(U1).unwrap().mean),
        10.0 / 3.0
    ));
}

#[test]
fn prediction_for_an_item_nobody_rated_is_undefined() {
    let store = slope_store();
    let mut engine = Engine::with_controller(&store, config(4));
    let r = engine.item_based_predict(
        U2,
        999,
        Method::SlopeOne,
        16,
        &deviation,
        &centred_cosine,
        &slope_blend,
    );
    assert!(matches!(r, Err(ErrorKind::UndefinedMetric)));
}

#[test]
fn user_based_prediction_blends_the_neighbours() {
    let store = slope_store();
    let engine = Engine::with_controller(&store, config(4));
    let predicted = engine
        .user_based_predict(
            2,
            U2,
            I3,
            UserMethod::Manhattan,
            None,
            &as_distance,
            &distance_blend,
        )
        .unwrap();
    // U1 is at distance |3-5| + |4-3| = 3 and rated i3 with 2,
    // U3 is at distance |4-2| = 2 and rated i3 with 5.
    let expected = (2.0 / 4.0 + 5.0 / 3.0) / (1.0 / 4.0 + 1.0 / 3.0);
    assert!(close(decode(predicted), expected));
}

#[test]
fn user_based_prediction_without_a_rating_neighbour_fails() {
    let store = slope_store();
    let engine = Engine::with_controller(&store, config(4));
    let r = engine.user_based_predict(
        2,
        U2,
        999,
        UserMethod::Manhattan,
        None,
        &as_distance,
        &distance_blend,
    );
    assert!(matches!(r, Err(ErrorKind::NoNeighbors)));
}

#[test]
fn user_distance_by_each_method() {
    let store = cosine_store();
    let engine = Engine::with_controller(&store, config(4));
    let d = |m| decode(engine.user_distance(A, B, m, &raw_metric).unwrap());
    assert!(close(d(UserMethod::Euclidean), 2f64.sqrt()));
    assert!(close(d(UserMethod::Manhattan), 2.0));
    assert!(close(d(UserMethod::Minkowski(3)), 2f64.powf(1.0 / 3.0)));
    assert!(close(d(UserMethod::Jaccard), 1.0));
    assert!(close(
        d(UserMethod::Cosine),
        26.0 / (34f64.sqrt() * 20f64.sqrt())
    ));
    assert!(close(d(UserMethod::Pearson), 1.0));
}

#[test]
fn metrics_of_a_user_with_itself() {
    let a = ratings(&[(X, 5.0), (Y, 3.0)]);
    let d = |m| decode(distance_between(&a, &a, m, &raw_metric).unwrap());
    assert_eq!(d(UserMethod::Euclidean), 0.0);
    assert!(close(d(UserMethod::Cosine), 1.0));
    assert!(close(d(UserMethod::Pearson), 1.0));
    assert!(close(d(UserMethod::Jaccard), 1.0));
}

#[test]
fn disjoint_users_have_no_metric_but_a_jaccard_index_of_zero() {
    let a = ratings(&[(1, 5.0), (2, 3.0)]);
    let b = ratings(&[(3, 4.0), (4, 2.0)]);
    for m in [
        UserMethod::Euclidean,
        UserMethod::Manhattan,
        UserMethod::Minkowski(2),
        UserMethod::Cosine,
        UserMethod::Pearson,
    ] {
        let r = distance_between(&a, &b, m, &raw_metric);
        assert!(matches!(r, Err(ErrorKind::UndefinedMetric)));
    }
    let j = distance_between(&a, &b, UserMethod::Jaccard, &raw_metric).unwrap();
    assert_eq!(decode(j), 0.0);
    let nothing = Ratings::new();
    let r = distance_between(&nothing, &nothing, UserMethod::Jaccard, &raw_metric);
    assert!(matches!(r, Err(ErrorKind::UndefinedMetric)));
    assert!(matches!(
        slope_one(&a, &b, &deviation),
        Err(ErrorKind::UndefinedMetric)
    ));
    let mut cache = MeanCache::new(10, Ratio::one());
    assert!(matches!(
        fast_adjusted_cosine(&a, &b, &mut cache, &centred_cosine),
        Err(ErrorKind::UndefinedMetric)
    ));
}

#[test]
fn a_metric_that_is_not_finite_is_undefined() {
    // constant vectors: the variance is zero and Pearson divides by it
    let a = ratings(&[(X, 3.0), (Y, 3.0)]);
    let b = ratings(&[(X, 1.0), (Y, 5.0)]);
    let r = distance_between(&a, &b, UserMethod::Pearson, &raw_metric);
    assert!(matches!(r, Err(ErrorKind::UndefinedMetric)));
    let overflow = |_: UserMethod, _: &Pairing| Some(encode(f64::INFINITY));
    let r = distance_between(&a, &b, UserMethod::Cosine, &overflow);
    assert!(matches!(r, Err(ErrorKind::UndefinedMetric)));
    let silent = |_: UserMethod, _: &Pairing| None;
    let r = distance_between(&a, &b, UserMethod::Cosine, &silent);
    assert!(matches!(r, Err(ErrorKind::UndefinedMetric)));
}

#[test]
fn adjusted_cosine_needs_every_mean() {
    let a = ratings(&[(1, 5.0), (2, 3.0)]);
    let b = ratings(&[(1, 4.0), (2, 1.0)]);
    let mut cache = MeanCache::new(10, Ratio::one());
    cache.add_new_means(&ratings(&[(1, 4.0)]));
    assert!(matches!(
        fast_adjusted_cosine(&a, &b, &mut cache, &centred_cosine),
        Err(ErrorKind::UndefinedMetric)
    ));
    cache.add_new_means(&ratings(&[(2, 3.0)]));
    let s = fast_adjusted_cosine(&a, &b, &mut cache, &centred_cosine).unwrap();
    // terms: (1, 0) and (0, -2): the products vanish
    assert_eq!(decode(s), 0.0);
    assert_eq!(cache.entry_for(2).unwrap().accesses, 1);
    assert_eq!(cache.entry_for(1).unwrap().accesses, 2);
}

#[test]
fn item_distance_by_each_method() {
    let store = slope_store();
    let mut engine = Engine::with_controller(&store, config(4));
    let d = engine
        .item_distance(I3, I2, Method::SlopeOne, &deviation, &centred_cosine)
        .unwrap();
    assert!(close(decode(d), 1.0));
    assert!(engine.adj_cosine().is_empty());
    let s = engine
        .item_distance(I3, I2, Method::AdjCosine, &deviation, &centred_cosine)
        .unwrap();
    // U1: mean 10/3, U3: mean 7/2
    let (m1, m3): (f64, f64) = (10.0 / 3.0, 3.5);
    let cov = (2.0 - m1) * (3.0 - m1) + (5.0 - m3) * (2.0 - m3);
    let na = ((2.0 - m1).powi(2) + (5.0 - m3).powi(2)).sqrt();
    let nb = ((3.0 - m1).powi(2) + (2.0 - m3).powi(2)).sqrt();
    assert!(close(decode(s), cov / (na * nb)));
    // every rater of either item gets a mean, U2 too
    assert_eq!(engine.adj_cosine().len(), 3);
    let r = engine.item_distance(I3, 999, Method::SlopeOne, &deviation, &centred_cosine);
    assert!(matches!(r, Err(ErrorKind::UndefinedMetric)));
}

#[test]
fn similarity_tile_is_sparse_with_a_unit_diagonal() {
    let store = MemStore::new(&[
        (1, &[(201, 5.0), (202, 3.0), (203, 2.0), (204, 1.0)]),
        (2, &[(201, 3.0), (202, 4.0), (204, 2.0)]),
        (3, &[(202, 2.0), (203, 5.0)]),
    ]);
    let cache = MeanCache::new(100, Ratio::new(1, 2).unwrap());
    let mut matrix =
        SimilarityMatrix::with_cache(&store, &config(2), centred_cosine, cache, 2, 2);
    assert!(matrix.get_value(201, 201).is_none());
    matrix.calculate_chunk(0, 0).unwrap();
    assert!(matrix.chunk().len() <= 4);
    assert_eq!(matrix.chunk().len(), 2);
    assert!(close(decode(matrix.get_value(201, 201).unwrap()), 1.0));
    assert!(close(decode(matrix.get_value(202, 202).unwrap()), 1.0));
    assert_eq!(matrix.get_value(201, 201), Some(ONE));
    let forth = matrix.get_value(201, 202);
    let back = matrix.get_value(202, 201);
    assert!(forth.is_some());
    assert_eq!(forth, back);
    assert!(matrix.chunk().cell(201, 202).is_some());
    assert!(matrix.chunk().cell(202, 201).is_none());
    assert!(matrix.get_value(203, 203).is_none());
    assert_eq!(matrix.adj_cosine().len(), 3);
    // two batches of at most two users each
    assert_eq!(store.mean_calls.get(), 2);
    // one pair was computed, (201, 202), over the users 1 and 2
    let reads: Vec<u32> = [1, 2, 3]
        .iter()
        .map(|u| matrix.adj_cosine().entry_for(*u).unwrap().accesses)
        .collect();
    assert_eq!(reads, vec![1, 1, 0]);

    matrix.calculate_chunk(1, 0).unwrap();
    assert_eq!(matrix.chunk().len(), 2);
    assert_eq!(matrix.get_value(203, 203), Some(ONE));
    assert!(matrix.get_value(201, 201).is_none());
    assert!(matrix.get_value(203, 201).is_some());
    assert_eq!(matrix.get_value(203, 201), matrix.get_value(201, 203));
    // every mean was cached by the first tile
    assert_eq!(store.mean_calls.get(), 2);
    // (203, 201) over user 1, (203, 202) over the users 1 and 3, (204, 201)
    // and (204, 202) over the users 1 and 2
    let reads: Vec<u32> = [1, 2, 3]
        .iter()
        .map(|u| matrix.adj_cosine().entry_for(*u).unwrap().accesses)
        .collect();
    assert_eq!(reads, vec![5, 3, 1]);
    // a chunk past the end asks for nothing more and leaves the cache
    let r = matrix.calculate_chunk(2, 0);
    assert!(matches!(r, Err(ErrorKind::IndexOutOfBound)));
    assert_eq!(matrix.chunk().len(), 0);
    assert_eq!(store.mean_calls.get(), 2);
    let cache = matrix.into_cache();
    assert_eq!(cache.len(), 3);
    assert_eq!(cache.entry_for(1).unwrap().accesses, 5);
}

#[test]
fn a_chunk_past_the_end_is_out_of_bound() {
    let store = slope_store();
    let mut matrix = DeviationMatrix::new(&store, &config(2), deviation, 2, 2);
    matrix.calculate_chunk(0, 0).unwrap();
    assert!(matrix.get_value(I1, I1).is_some());
    let r = matrix.calculate_chunk(2, 0);
    assert!(matches!(r, Err(ErrorKind::IndexOutOfBound)));
    assert!(matrix.get_value(I1, I1).is_none());
    assert_eq!(matrix.chunk().len(), 0);
    let r = matrix.calculate_chunk(0, 5);
    assert!(matches!(r, Err(ErrorKind::IndexOutOfBound)));
}

#[test]
fn deviation_tile_is_antisymmetric_with_a_zero_diagonal() {
    let store = slope_store();
    let mut matrix = DeviationMatrix::new(&store, &config(2), deviation, 3, 3);
    matrix.calculate_chunk(0, 0).unwrap();
    for a in [I1, I2, I3] {
        assert_eq!(matrix.get_value(a, a), Some(ZERO));
        for b in [I1, I2, I3] {
            let forth = matrix.get_value(a, b).unwrap();
            let back = matrix.get_value(b, a).unwrap();
            assert_eq!(forth, -back);
        }
    }
    assert!(close(decode(matrix.get_value(I3, I2).unwrap()), 1.0));
    assert!(close(decode(matrix.get_value(I2, I3).unwrap()), -1.0));
    assert!(close(decode(matrix.get_value(I3, I1).unwrap()), -3.0));
    assert!(close(decode(matrix.get_value(I1, I2).unwrap()), 0.5));
    assert!(matrix.get_value(I1, 999).is_none());
}

#[test]
fn ratings_outside_the_score_range_are_skipped() {
    let mut store = slope_store();
    store.hi = 4.5;
    let mut matrix = DeviationMatrix::new(&store, &config(2), deviation, 3, 3);
    matrix.calculate_chunk(0, 0).unwrap();
    // without the two ratings of 5, i1 and i3 share only U1's rating of i3
    // on one side: i1 keeps U2 alone, i3 keeps U1 alone
    assert!(matrix.get_value(I1, I3).is_none());
    assert!(close(decode(matrix.get_value(I3, I2).unwrap()), -1.0));
    assert!(close(decode(matrix.get_value(I1, I2).unwrap()), -1.0));
}

#[test]
fn a_failing_store_aborts_the_tile() {
    let mut store = slope_store();
    store.fail_means = true;
    let cache = MeanCache::new(100, Ratio::new(1, 2).unwrap());
    let mut matrix =
        SimilarityMatrix::with_cache(&store, &config(2), centred_cosine, cache, 2, 2);
    let r = matrix.calculate_chunk(0, 0);
    assert!(matches!(r, Err(ErrorKind::StoreBackend(text)) if text == "means are gone"));
    assert_eq!(matrix.chunk().len(), 0);
    assert_eq!(store.mean_calls.get(), 1);
}

#[test]
fn chunk_sizes_shrink_to_the_threshold() {
    let mut store = slope_store();
    store.estimates = true;
    let mut matrix = DeviationMatrix::new(&store, &config(2), deviation, 8, 4);
    assert!(matches!(matrix.approximate_chunk_size(), Ok(320)));
    matrix.optimize_chunks_size();
    // the estimate must not exceed half of 320: 4 x 2 gives 80
    assert_eq!(matrix.chunk_sizes(), (4, 2));
    // each call starts from the estimate of the sizes that it finds
    matrix.optimize_chunks_size();
    assert_eq!(matrix.chunk_sizes(), (2, 1));
    // a size of one is halved like any other
    matrix.optimize_chunks_size();
    assert_eq!(matrix.chunk_sizes(), (1, 0));
    matrix.optimize_chunks_size();
    assert_eq!(matrix.chunk_sizes(), (1, 0));
    let mut matrix = DeviationMatrix::new(&store, &config(2), deviation, 1, 8);
    matrix.optimize_chunks_size();
    assert_eq!(matrix.chunk_sizes(), (0, 4));

    let mut fixed = config(2);
    fixed.sim_matrix = MatrixConfig::new(false, Ratio::new(1, 2).unwrap(), 2).unwrap();
    let mut matrix = DeviationMatrix::new(&store, &fixed, deviation, 8, 4);
    matrix.optimize_chunks_size();
    assert_eq!(matrix.chunk_sizes(), (8, 4));

    store.estimates = false;
    let mut matrix = DeviationMatrix::new(&store, &config(2), deviation, 8, 4);
    assert!(matches!(
        matrix.approximate_chunk_size(),
        Err(ErrorKind::NotImplemented)
    ));
    matrix.optimize_chunks_size();
    assert_eq!(matrix.chunk_sizes(), (8, 4));
}

#[test]
fn a_changed_rating_refreshes_a_cached_mean_only() {
    let store = slope_store();
    let mut engine = Engine::with_controller(&store, config(4));
    engine.maybe_update_mean_for(U1, encode(4.0));
    assert!(!engine.adj_cosine().has_mean_for(U1));
    engine.rating_changed(U1, Some(encode(4.0)));
    assert!(!engine.adj_cosine().has_mean_for(U1));

    engine
        .item_distance(I3, I2, Method::AdjCosine, &deviation, &centred_cosine)
        .unwrap();
    assert!(close(
        decode(engine.adj_cosine().entry_for(U1).unwrap().mean),
        10.0 / 3.0
    ));
    let reads = engine.adj_cosine().entry_for(U1).unwrap().accesses;
    engine.maybe_update_mean_for(U1, encode(4.0));
    let entry = engine.adj_cosine().entry_for(U1).unwrap();
    assert_eq!(decode(entry.mean), 4.0);
    assert_eq!(entry.accesses, reads);
    engine.rating_changed(U3, Some(encode(1.5)));
    assert_eq!(decode(engine.adj_cosine().entry_for(U3).unwrap().mean), 1.5);
    engine.rating_changed(U3, None);
    assert!(!engine.adj_cosine().has_mean_for(U3));
    engine.maybe_delete_mean_for(U1);
    assert_eq!(engine.adj_cosine().users(), vec![U2]);
    engine.maybe_delete_mean_for(U1);
    assert_eq!(engine.adj_cosine().users(), vec![U2]);
}

#[test]
fn a_refresh_asks_the_store_for_the_mean() {
    let mut store = slope_store();
    let cached = |store: &MemStore| {
        let mut engine = Engine::with_controller(store, config(4));
        engine
            .item_distance(I3, I2, Method::AdjCosine, &deviation, &centred_cosine)
            .unwrap();
        engine.take_adj_cosine()
    };

    // the store has a new rating of U3: its mean moves from 3.5 to 3
    let cache = cached(&store);
    store.users.get_mut(&U3).unwrap().push((I1, 2.0));
    let mut engine = Engine::with_controller(&store, config(4));
    engine.restore_adj_cosine(cache);
    assert_eq!(decode(engine.adj_cosine().entry_for(U3).unwrap().mean), 3.5);
    assert!(matches!(engine.refresh_mean_for(U3), Ok(true)));
    assert_eq!(decode(engine.adj_cosine().entry_for(U3).unwrap().mean), 3.0);
    // a user without a cached mean gets none
    engine.maybe_delete_mean_for(U2);
    assert!(matches!(engine.refresh_mean_for(U2), Ok(true)));
    assert!(!engine.adj_cosine().has_mean_for(U2));
    let cache = engine.take_adj_cosine();

    // the store lost every rating of U3
    store.users.get_mut(&U3).unwrap().clear();
    let mut engine = Engine::with_controller(&store, config(4));
    engine.restore_adj_cosine(cache);
    assert!(matches!(engine.refresh_mean_for(U3), Ok(false)));
    assert!(!engine.adj_cosine().has_mean_for(U3));
    let cache = engine.take_adj_cosine();

    // the store fails
    store.fail_means = true;
    let mut engine = Engine::with_controller(&store, config(4));
    engine.restore_adj_cosine(cache);
    assert!(engine.adj_cosine().has_mean_for(U1));
    assert!(matches!(
        engine.refresh_mean_for(U1),
        Err(ErrorKind::StoreBackend(_))
    ));
    assert!(!engine.adj_cosine().has_mean_for(U1));
}

#[test]
fn a_score_outside_the_range_is_refused() {
    let store = slope_store();
    let mut engine = Engine::with_controller(&store, config(4));
    engine
        .item_distance(I3, I2, Method::AdjCosine, &deviation, &centred_cosine)
        .unwrap();
    let before = engine.adj_cosine().users();
    let (lo, hi) = store.score_range();
    assert!(matches!(
        check_score(lo, hi, encode(10.5)),
        Err(ErrorKind::ScoreOutOfRange)
    ));
    assert!(matches!(
        check_score(lo, hi, encode(-0.5)),
        Err(ErrorKind::ScoreOutOfRange)
    ));
    assert!(check_score(lo, hi, encode(0.0)).is_ok());
    assert!(check_score(lo, hi, encode(10.0)).is_ok());
    assert_eq!(engine.adj_cosine().users(), before);
    assert_eq!(store.users.len(), 3);
}

#[test]
fn the_cache_goes_to_a_matrix_and_back() {
    let store = slope_store();
    let mut engine = Engine::with_controller(&store, config(4));
    engine
        .item_distance(I3, I2, Method::AdjCosine, &deviation, &centred_cosine)
        .unwrap();
    let cache = engine.take_adj_cosine();
    assert_eq!(cache.len(), 3);
    assert!(engine.adj_cosine().is_empty());
    assert_eq!(engine.adj_cosine().max_entries(), 100);
    let mut matrix =
        SimilarityMatrix::with_cache(&store, &config(2), centred_cosine, cache, 3, 3);
    matrix.calculate_chunk(0, 0).unwrap();
    engine.restore_adj_cosine(matrix.into_cache());
    assert_eq!(engine.adj_cosine().len(), 3);
}

#[test]
fn a_prediction_without_votes_fails_with_the_given_error() {
    let none: Vec<Vote> = Vec::new();
    assert!(matches!(
        conclude(&none, &slope_blend, ErrorKind::NoNeighbors),
        Err(ErrorKind::NoNeighbors)
    ));
    let votes = vec![Vote { rating: encode(4.0), weight: encode(1.0), count: 2 }];
    let r = conclude(&votes, &slope_blend, ErrorKind::NoNeighbors).unwrap();
    assert_eq!(decode(r), 5.0);
    let zero = vec![Vote { rating: encode(4.0), weight: encode(1.0), count: 0 }];
    assert!(matches!(
        conclude(&zero, &slope_blend, ErrorKind::NoNeighbors),
        Err(ErrorKind::UndefinedMetric)
    ));
}

#[test]
fn candidates_are_the_others_with_a_distance() {
    let store = MemStore::new(&[
        (A, &[(X, 5.0)]),
        (B, &[(Y, 4.0)]),
        (C, &[(X, 1.0)]),
        (4, &[(X, 4.5), (Y, 1.0)]),
    ]);
    let target = store.of(A);
    let others = store.users_chunk(0, 10).unwrap().unwrap();
    let found = candidates_of(A, &target, &others, UserMethod::Manhattan, &as_distance);
    let flat: Vec<(u64, f64)> = found.iter().map(|n| (n.user, decode(n.distance))).collect();
    assert_eq!(flat, vec![(C, 4.0), (4, 0.5)]);

    let best = score_candidates(
        A,
        &target,
        &others,
        UserMethod::Manhattan,
        &as_distance,
        vec![Neighbor { user: 9, distance: encode(1.0) }],
        2,
    );
    let flat: Vec<(u64, f64)> = best.iter().map(|n| (n.user, decode(n.distance))).collect();
    assert_eq!(flat, vec![(4, 0.5), (9, 1.0)]);
    let same = offer_all(vec![Neighbor { user: 9, distance: encode(1.0) }], &found, 2);
    assert_eq!(same.len(), 2);
    assert_eq!((same[0].user, same[1].user), (4, 9));
}

#[test]
fn a_new_similarity_matrix_starts_with_an_empty_cache() {
    let store = slope_store();
    let mut matrix = SimilarityMatrix::new(&store, &config(2), centred_cosine, 3, 3);
    assert!(matrix.adj_cosine().is_empty());
    assert_eq!(matrix.adj_cosine().max_entries(), 100);
    assert_eq!(matrix.adj_cosine().keep_count(), 50);
    assert_eq!(matrix.chunk_sizes(), (3, 3));
    matrix.calculate_chunk(0, 0).unwrap();
    assert_eq!(matrix.adj_cosine().len(), 3);
    assert_eq!(matrix.get_value(I2, I2), Some(ONE));
}

fn mean_of(ratings: &Ratings) -> Option<i64> {
    let sum: f64 = ratings.as_vec().iter().map(|(_, s)| decode(*s)).sum();
    Some(encode(sum / ratings.len() as f64))
}

#[test]
fn means_are_computed_for_the_users_who_rated() {
    let mut store = slope_store();
    store.users.insert(9, Vec::new());
    let vecs = store.users_chunk(0, 10).unwrap().unwrap();
    let means = adjusted_cosine_means(&vecs, &mean_of);
    let flat: Vec<(u64, f64)> = means
        .as_vec()
        .iter()
        .map(|(u, m)| (*u, decode(*m)))
        .collect();
    assert_eq!(flat.len(), 3);
    assert_eq!(flat[0].0, U1);
    assert!(close(flat[0].1, 10.0 / 3.0));
    assert_eq!(flat[1], (U2, 3.5));
    assert_eq!(flat[2], (U3, 3.5));
    let undefined = |_: &Ratings| Some(encode(f64::NAN));
    assert!(adjusted_cosine_means(&vecs, &undefined).is_empty());
    assert_eq!(item_column(&vecs, I3).as_vec(), &vec![(U1, encode(2.0)), (U3, encode(5.0))]);
    assert!(item_column(&vecs, 999).is_empty());
}

#[test]
fn the_slow_similarity_is_the_fast_one_on_fresh_means() {
    let store = slope_store();
    let vecs = store.users_chunk(0, 10).unwrap().unwrap();
    let slow = slow_adjusted_cosine(&vecs, I3, I2, &mean_of, &centred_cosine).unwrap();
    let (m1, m3): (f64, f64) = (10.0 / 3.0, 3.5);
    let cov = (2.0 - m1) * (3.0 - m1) + (5.0 - m3) * (2.0 - m3);
    let na = ((2.0 - m1).powi(2) + (5.0 - m3).powi(2)).sqrt();
    let nb = ((3.0 - m1).powi(2) + (2.0 - m3).powi(2)).sqrt();
    assert!(close(decode(slow), cov / (na * nb)));

    let mut cache = MeanCache::new(10, Ratio::one());
    cache.add_new_means(&adjusted_cosine_means(&vecs, &mean_of));
    let fast = fast_adjusted_cosine(
        &item_column(&vecs, I3),
        &item_column(&vecs, I2),
        &mut cache,
        &centred_cosine,
    )
    .unwrap();
    assert_eq!(fast, slow);
    assert!(matches!(
        slow_adjusted_cosine(&vecs, I3, 999, &mean_of, &centred_cosine),
        Err(ErrorKind::UndefinedMetric)
    ));
}

#[test]
fn chunks_and_sides_are_fetched_from_the_store() {
    let mut store = slope_store();
    assert_eq!(fetch_chunk(&store, 0, 2).unwrap(), vec![I1, I2]);
    assert_eq!(fetch_chunk(&store, 1, 2).unwrap(), vec![I3]);
    assert!(matches!(
        fetch_chunk(&store, 2, 2),
        Err(ErrorKind::IndexOutOfBound)
    ));
    store.hi = 4.5;
    let (lo, hi) = store.score_range();
    let side = fetch_side(&store, &vec![I3, I1, 999, I1], lo, hi).unwrap();
    let items: Vec<u64> = side.iter().map(|s| s.item).collect();
    assert_eq!(items, vec![I3, I1]);
    assert_eq!(side[0].raters.as_vec(), &vec![(U1, encode(2.0))]);
    assert_eq!(side[1].raters.as_vec(), &vec![(U2, encode(3.0))]);
    let (ver, hor) = fetch_sides(&store, 1, 0, 2, 2).unwrap();
    assert_eq!(ver.len(), 1);
    assert_eq!(ver[0].item, I3);
    assert_eq!(hor.len(), 2);
    assert!(matches!(
        fetch_sides(&store, 0, 7, 2, 2),
        Err(ErrorKind::IndexOutOfBound)
    ));
}

#[test]
fn means_are_filled_batch_by_batch() {
    let mut store = slope_store();
    let mut cache = MeanCache::new(10, Ratio::one());
    cache.add_new_means(&ratings(&[(U2, 9.0)]));
    fill_means(&store, &mut cache, &vec![U1, U2, U3], 2).unwrap();
    assert_eq!(store.mean_calls.get(), 2);
    assert_eq!(cache.users(), vec![U2, U1, U3]);
    assert_eq!(decode(cache.entry_for(U2).unwrap().mean), 9.0);
    assert_eq!(decode(cache.entry_for(U3).unwrap().mean), 3.5);
    fill_means(&store, &mut cache, &Vec::new(), 2).unwrap();
    assert_eq!(store.mean_calls.get(), 2);
    store.fail_means = true;
    let r = fill_means(&store, &mut cache, &vec![7, 8, 9], 2);
    assert!(matches!(r, Err(ErrorKind::StoreBackend(_))));
    assert_eq!(store.mean_calls.get(), 3);
    assert_eq!(cache.len(), 3);
}

#[test]
fn a_batch_of_rated_items_gives_its_votes() {
    let store = slope_store();
    let range = store.score_range();
    let target = fetch_side(&store, &vec![I3], range.0, range.1).unwrap();
    let mine = store.of(U2);
    let mut cache = MeanCache::new(10, Ratio::one());
    let votes = chunk_votes(
        &store,
        &mut cache,
        2,
        Method::SlopeOne,
        &target,
        0,
        &mine,
        range,
        &vec![I1, I2],
        &deviation,
        &centred_cosine,
    )
    .unwrap();
    let flat: Vec<(f64, f64, usize)> = votes
        .iter()
        .map(|v| (decode(v.rating), decode(v.weight), v.count))
        .collect();
    assert_eq!(flat, vec![(3.0, -3.0, 1), (4.0, 1.0, 2)]);
    assert!(cache.is_empty());
    let votes = chunk_votes(
        &store,
        &mut cache,
        2,
        Method::AdjCosine,
        &target,
        0,
        &mine,
        range,
        &vec![I2],
        &deviation,
        &centred_cosine,
    )
    .unwrap();
    assert_eq!(votes.len(), 1);
    assert_eq!(votes[0].count, 2);
    assert_eq!(cache.users(), vec![U1, U2, U3]);
}

#[test]
fn items_cannot_be_looked_up_in_chunks_of_zero() {
    let store = slope_store();
    let mut engine = Engine::with_controller(&store, config(4));
    for method in [Method::SlopeOne, Method::AdjCosine] {
        let r = engine.item_based_predict(
            U2,
            I3,
            method,
            0,
            &deviation,
            &centred_cosine,
            &slope_blend,
        );
        assert!(matches!(r, Err(ErrorKind::ZeroChunkSize)));
    }
    assert!(engine.adj_cosine().is_empty());
    assert_eq!(store.mean_calls.get(), 0);
}

#[test]
fn only_positive_similarities_count() {
    let votes = vec![
        Vote { rating: encode(4.0), weight: encode(0.5), count: 2 },
        Vote { rating: encode(1.0), weight: encode(-0.5), count: 1 },
        Vote { rating: encode(2.0), weight: encode(0.0), count: 3 },
        Vote { rating: encode(5.0), weight: encode(1.0), count: 1 },
    ];
    let kept: Vec<f64> = positive_votes(&votes).iter().map(|v| decode(v.rating)).collect();
    assert_eq!(kept, vec![4.0, 5.0]);
    assert_eq!(counted_votes(Method::AdjCosine, votes.clone()).len(), 2);
    assert_eq!(counted_votes(Method::SlopeOne, votes).len(), 4);
    assert!(positive_votes(&Vec::new()).is_empty());
    assert!(UserMethod::Cosine.is_similarity());
    assert!(UserMethod::Pearson.is_similarity());
    assert!(UserMethod::Jaccard.is_similarity());
    assert!(!UserMethod::Euclidean.is_similarity());
    assert!(!UserMethod::Manhattan.is_similarity());
    assert!(!UserMethod::Minkowski(3).is_similarity());
}

#[test]
fn a_tile_build_shrinks_the_cache_first() {
    let store = slope_store();
    let mut small = config(2);
    small.mean_cache_max_entries = 4;
    let mut cache = MeanCache::new(4, Ratio::new(1, 2).unwrap());
    cache.add_new_means(&ratings(&[(50, 1.0), (51, 1.0), (52, 1.0), (53, 1.0), (54, 1.0)]));
    cache.get_mean(53);
    cache.get_mean(51);
    let mut matrix = SimilarityMatrix::with_cache(&store, &small, centred_cosine, cache, 3, 3);
    matrix.calculate_chunk(0, 0).unwrap();
    // the two read entries stay, then the three raters are fetched
    assert_eq!(matrix.adj_cosine().users(), vec![51, 53, U1, U2, U3]);
    assert_eq!(matrix.adj_cosine().entry_for(51).unwrap().accesses, 1);
    assert_eq!(matrix.adj_cosine().entry_for(53).unwrap().accesses, 1);
}

#[test]
fn tiles_of_exchanged_chunks_hold_negated_deviations() {
    let store = slope_store();
    let mut forth = DeviationMatrix::new(&store, &config(2), deviation, 1, 1);
    let mut back = DeviationMatrix::new(&store, &config(2), deviation, 1, 1);
    forth.calculate_chunk(0, 1).unwrap();
    back.calculate_chunk(1, 0).unwrap();
    assert!(close(decode(forth.get_value(I1, I2).unwrap()), 0.5));
    assert!(close(decode(back.get_value(I2, I1).unwrap()), -0.5));
    assert_eq!(
        forth.chunk().cell(I1, I2).unwrap(),
        -back.chunk().cell(I2, I1).unwrap()
    );
    assert!(forth.get_value(I1, I1).is_some());
    assert!(forth.get_value(I2, I2).is_none());
}
