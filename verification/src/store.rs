//! The interface through which the engine reads a rating store.
//!
//! Each request comes with a relation that says which answers the store
//! may give to it. The engine's contracts speak of the answers through
//! these relations; a store that says nothing of its answers admits any.
use crate::error::ErrorKind;
use crate::ratings::Ratings;
use vstd::prelude::*;

verus! {

/// An item together with the users who rated it and their scores.
pub struct ItemRaters {
    pub item: u64,
    pub raters: Ratings,
}

/// A user together with the items that the user rated and their scores.
pub struct UserRatings {
    pub user: u64,
    pub ratings: Ratings,
}

/// A rating store. The engine only reads; it never retries a failed call.
pub trait Controller {
    /// `answer` is an answer of the store to `items_chunk(index, size)`.
    open spec fn items_answer(
        &self,
        index: usize,
        size: usize,
        answer: Result<Option<Vec<u64>>, ErrorKind>,
    ) -> bool {
        true
    }

    /// `answer` is an answer of the store to `users_chunk(index, size)`.
    open spec fn users_answer(
        &self,
        index: usize,
        size: usize,
        answer: Result<Option<Vec<UserRatings>>, ErrorKind>,
    ) -> bool {
        true
    }

    /// `answer` is an answer of the store to `ratings_except(user)`.
    open spec fn others_answer(&self, user: u64, answer: Result<Vec<UserRatings>, ErrorKind>) -> bool {
        true
    }

    /// `answer` is an answer of the store to `users_who_rated(items)`.
    open spec fn raters_answer(
        &self,
        items: Seq<u64>,
        answer: Result<Vec<ItemRaters>, ErrorKind>,
    ) -> bool {
        true
    }

    /// `answer` is an answer of the store to `get_means(users)`.
    open spec fn means_answer(&self, users: Seq<u64>, answer: Result<Ratings, ErrorKind>) -> bool {
        true
    }

    /// `answer` is an answer of the store to `users_means(users)`.
    open spec fn fresh_means_answer(
        &self,
        users: Seq<u64>,
        answer: Result<Ratings, ErrorKind>,
    ) -> bool {
        true
    }

    /// `answer` is an answer of the store to `user_ratings(user)`.
    open spec fn ratings_answer(&self, user: u64, answer: Result<Ratings, ErrorKind>) -> bool {
        true
    }

    /// `answer` is an answer of the store to `score_range()`.
    open spec fn range_answer(&self, answer: (i64, i64)) -> bool {
        true
    }

    /// `answer` is an answer of the store to
    /// `approximate_chunk_size(rows, columns)`.
    open spec fn estimates(&self, rows: usize, columns: usize, answer: Option<usize>) -> bool {
        true
    }

    /// The `index`-th batch of item ids where batches hold `size` items, in
    /// the store's stable order; nothing past the last batch.
    fn items_chunk(&self, index: usize, size: usize) -> (answer: Result<
        Option<Vec<u64>>,
        ErrorKind,
    >)
        ensures
            self.items_answer(index, size, answer),
    ;

    /// The `index`-th batch of users with their ratings where batches hold
    /// `size` users; nothing past the last batch.
    fn users_chunk(&self, index: usize, size: usize) -> (answer: Result<
        Option<Vec<UserRatings>>,
        ErrorKind,
    >)
        ensures
            self.users_answer(index, size, answer),
    ;

    /// Every user but `user`, with their ratings.
    fn ratings_except(&self, user: u64) -> (answer: Result<Vec<UserRatings>, ErrorKind>)
        ensures
            self.others_answer(user, answer),
    ;

    /// For each of `items`, who rated it.
    fn users_who_rated(&self, items: &Vec<u64>) -> (answer: Result<Vec<ItemRaters>, ErrorKind>)
        ensures
            self.raters_answer(items@, answer),
    ;

    /// The mean rating of each of `users` that rated anything.
    fn get_means(&self, users: &Vec<u64>) -> (answer: Result<Ratings, ErrorKind>)
        ensures
            self.means_answer(users@, answer),
    ;

    /// The mean rating of each of `users` as the store's ratings stand now;
    /// asked after a rating was inserted, updated or removed.
    fn users_means(&self, users: &Vec<u64>) -> (answer: Result<Ratings, ErrorKind>)
        ensures
            self.fresh_means_answer(users@, answer),
    ;

    /// All ratings of `user`.
    fn user_ratings(&self, user: u64) -> (answer: Result<Ratings, ErrorKind>)
        ensures
            self.ratings_answer(user, answer),
    ;

    /// The lowest and the highest score that the store accepts.
    fn score_range(&self) -> (answer: (i64, i64))
        ensures
            self.range_answer(answer),
    ;

    /// About how many ratings a tile of `rows` by `columns` items holds,
    /// where the store can tell.
    fn approximate_chunk_size(&self, rows: usize, columns: usize) -> (answer: Option<usize>)
        ensures
            self.estimates(rows, columns, answer),
    ;
}

} // verus!
