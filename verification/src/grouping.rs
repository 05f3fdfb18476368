//! Grouping of rating rows, as a store loads them, by item and by user.
use crate::chunks::find_item;
use crate::ratings::Ratings;
use crate::store::{ItemRaters, UserRatings};
use vstd::prelude::*;

verus! {

/// One row of a store's ratings.
#[derive(Clone, Copy, Debug)]
pub struct Rating {
    pub user: u64,
    pub item: u64,
    pub score: i64,
}

/// Who rated `item` in `rows`, with the score of the last such row of each
/// user.
pub open spec fn raters_of(rows: Seq<Rating>, item: u64) -> Map<u64, i64>
    decreases rows.len(),
{
    if rows.len() == 0 {
        Map::<u64, i64>::empty()
    } else {
        let rest = raters_of(rows.drop_last(), item);
        if rows.last().item == item {
            rest.insert(rows.last().user, rows.last().score)
        } else {
            rest
        }
    }
}

/// What `user` rated in `rows`, with the score of the last such row of each
/// item.
pub open spec fn ratings_of(rows: Seq<Rating>, user: u64) -> Map<u64, i64>
    decreases rows.len(),
{
    if rows.len() == 0 {
        Map::<u64, i64>::empty()
    } else {
        let rest = ratings_of(rows.drop_last(), user);
        if rows.last().user == user {
            rest.insert(rows.last().item, rows.last().score)
        } else {
            rest
        }
    }
}

/// Some row of `rows` is by `user`.
pub open spec fn rates(rows: Seq<Rating>, user: u64) -> bool {
    exists|i: int| 0 <= i < rows.len() && rows[i].user == user
}

/// The raters of `item`.
pub fn item_raters(rows: &Vec<Rating>, item: u64) -> (r: Ratings)
    ensures
        r@ == raters_of(rows@, item),
{
    let mut r = Ratings::new();
    let mut i: usize = 0;
    assert(rows@.subrange(0, 0) =~= Seq::<Rating>::empty());
    while i < rows.len()
        invariant
            i <= rows@.len(),
            r@ == raters_of(rows@.subrange(0, i as int), item),
        decreases rows@.len() - i,
    {
        let row: Rating = rows[i];
        proof {
            let next = rows@.subrange(0, i + 1);
            assert(next.drop_last() =~= rows@.subrange(0, i as int));
            assert(next.last() == row);
        }
        if row.item == item {
            r.insert(row.user, row.score);
        }
        i = i + 1;
    }
    assert(rows@.subrange(0, i as int) =~= rows@);
    r
}

/// The ratings of `user`.
pub fn user_ratings(rows: &Vec<Rating>, user: u64) -> (r: Ratings)
    ensures
        r@ == ratings_of(rows@, user),
{
    let mut r = Ratings::new();
    let mut i: usize = 0;
    assert(rows@.subrange(0, 0) =~= Seq::<Rating>::empty());
    while i < rows.len()
        invariant
            i <= rows@.len(),
            r@ == ratings_of(rows@.subrange(0, i as int), user),
        decreases rows@.len() - i,
    {
        let row: Rating = rows[i];
        proof {
            let next = rows@.subrange(0, i + 1);
            assert(next.drop_last() =~= rows@.subrange(0, i as int));
            assert(next.last() == row);
        }
        if row.user == user {
            r.insert(row.item, row.score);
        }
        i = i + 1;
    }
    assert(rows@.subrange(0, i as int) =~= rows@);
    r
}

/// Those of `items` that have a row in `rows`, each once, in the order in
/// which they first stand in `items`.
pub open spec fn rated_among(rows: Seq<Rating>, items: Seq<u64>) -> Seq<u64>
    decreases items.len(),
{
    if items.len() == 0 {
        Seq::<u64>::empty()
    } else {
        let rest = rated_among(rows, items.drop_last());
        if mentions(rows, items.last()) && !rest.contains(items.last()) {
            rest.push(items.last())
        } else {
            rest
        }
    }
}

/// Whether some row is about `item`.
pub fn is_rated(rows: &Vec<Rating>, item: u64) -> (b: bool)
    ensures
        b == mentions(rows@, item),
{
    let mut i: usize = 0;
    while i < rows.len()
        invariant
            i <= rows@.len(),
            forall|k: int| 0 <= k < i ==> rows@[k].item != item,
        decreases rows@.len() - i,
    {
        if rows[i].item == item {
            return true;
        }
        i = i + 1;
    }
    false
}

/// For each of `items` that anybody rated, in their order, who rated it.
/// An item without a row has no entry, and no item has two.
pub fn users_who_rated(rows: &Vec<Rating>, items: &Vec<u64>) -> (r: Vec<ItemRaters>)
    ensures
        r@.len() == rated_among(rows@, items@).len(),
        forall|i: int|
            0 <= i < r@.len() ==> (#[trigger] r@[i]).item == rated_among(rows@, items@)[i]
                && r@[i].raters@ == raters_of(rows@, r@[i].item),
{
    let mut r: Vec<ItemRaters> = Vec::new();
    let mut i: usize = 0;
    assert(items@.subrange(0, 0) =~= Seq::<u64>::empty());
    while i < items.len()
        invariant
            i <= items@.len(),
            r@.len() == rated_among(rows@, items@.subrange(0, i as int)).len(),
            forall|j: int|
                0 <= j < r@.len() ==> (#[trigger] r@[j]).item == rated_among(
                    rows@,
                    items@.subrange(0, i as int),
                )[j] && r@[j].raters@ == raters_of(rows@, r@[j].item),
        decreases items@.len() - i,
    {
        let item: u64 = items[i];
        proof {
            let next = items@.subrange(0, i + 1);
            assert(next.drop_last() =~= items@.subrange(0, i as int));
            assert(next.last() == item);
        }
        let ghost done = rated_among(rows@, items@.subrange(0, i as int));
        let seen: bool = find_item(&r, item).is_some();
        proof {
            if seen {
                let k = choose|k: int| 0 <= k < r@.len() && r@[k].item == item;
                assert(done[k] == item);
            }
            if done.contains(item) {
                let k = choose|k: int| 0 <= k < done.len() && done[k] == item;
                assert(r@[k].item == item);
            }
        }
        if !seen && is_rated(rows, item) {
            r.push(ItemRaters { item, raters: item_raters(rows, item) });
        }
        i = i + 1;
    }
    assert(items@.subrange(0, i as int) =~= items@);
    r
}

/// For each of `users`, in their order, what the user rated.
pub fn maped_ratings_by(rows: &Vec<Rating>, users: &Vec<u64>) -> (r: Vec<UserRatings>)
    ensures
        r@.len() == users@.len(),
        forall|i: int|
            0 <= i < r@.len() ==> (#[trigger] r@[i]).user == users@[i] && r@[i].ratings@
                == ratings_of(rows@, users@[i]),
{
    let mut r: Vec<UserRatings> = Vec::new();
    let mut i: usize = 0;
    while i < users.len()
        invariant
            i <= users@.len(),
            r@.len() == i,
            forall|j: int|
                0 <= j < i ==> (#[trigger] r@[j]).user == users@[j] && r@[j].ratings@
                    == ratings_of(rows@, users@[j]),
        decreases users@.len() - i,
    {
        let user: u64 = users[i];
        r.push(UserRatings { user, ratings: user_ratings(rows, user) });
        i = i + 1;
    }
    r
}

/// Some row of `rows` is about `item`.
pub open spec fn mentions(rows: Seq<Rating>, item: u64) -> bool {
    exists|i: int| 0 <= i < rows.len() && rows[i].item == item
}

/// The users that have a row, ascending.
pub fn users_of(rows: &Vec<Rating>) -> (r: Vec<u64>)
    ensures
        forall|i: int, j: int| 0 <= i < j < r@.len() ==> r@[i] < r@[j],
        forall|u: u64| r@.contains(u) <==> rates(rows@, u),
{
    let mut seen = Ratings::new();
    let mut i: usize = 0;
    assert forall|u: u64| !rates(rows@.subrange(0, 0), u) by {
    }
    while i < rows.len()
        invariant
            i <= rows@.len(),
            forall|u: u64|
                #![all_triggers]
                seen@.contains_key(u) <==> rates(rows@.subrange(0, i as int), u),
        decreases rows@.len() - i,
    {
        let row: Rating = rows[i];
        let ghost done = rows@.subrange(0, i as int);
        let ghost next = rows@.subrange(0, i + 1);
        seen.insert(row.user, 0);
        proof {
            assert forall|u: u64|
                #![all_triggers]
                seen@.contains_key(u) <==> rates(next, u) by {
                if rates(done, u) {
                    let p = choose|p: int| 0 <= p < done.len() && done[p].user == u;
                    assert(next[p].user == u);
                }
                if rates(next, u) {
                    let p = choose|p: int| 0 <= p < next.len() && next[p].user == u;
                    if p < i {
                        assert(done[p].user == u);
                    }
                }
                if u == row.user {
                    assert(next[i as int].user == u);
                }
            }
        }
        i = i + 1;
    }
    assert(rows@.subrange(0, i as int) =~= rows@);
    seen.keys()
}

/// The items that have a row, ascending.
pub fn items_of(rows: &Vec<Rating>) -> (r: Vec<u64>)
    ensures
        forall|i: int, j: int| 0 <= i < j < r@.len() ==> r@[i] < r@[j],
        forall|a: u64| r@.contains(a) <==> mentions(rows@, a),
{
    let mut seen = Ratings::new();
    let mut i: usize = 0;
    assert forall|a: u64| !mentions(rows@.subrange(0, 0), a) by {
    }
    while i < rows.len()
        invariant
            i <= rows@.len(),
            forall|a: u64|
                #![all_triggers]
                seen@.contains_key(a) <==> mentions(rows@.subrange(0, i as int), a),
        decreases rows@.len() - i,
    {
        let row: Rating = rows[i];
        let ghost done = rows@.subrange(0, i as int);
        let ghost next = rows@.subrange(0, i + 1);
        seen.insert(row.item, 0);
        proof {
            assert forall|a: u64|
                #![all_triggers]
                seen@.contains_key(a) <==> mentions(next, a) by {
                if mentions(done, a) {
                    let p = choose|p: int| 0 <= p < done.len() && done[p].item == a;
                    assert(next[p].item == a);
                }
                if mentions(next, a) {
                    let p = choose|p: int| 0 <= p < next.len() && next[p].item == a;
                    if p < i {
                        assert(done[p].item == a);
                    }
                }
                if a == row.item {
                    assert(next[i as int].item == a);
                }
            }
        }
        i = i + 1;
    }
    assert(rows@.subrange(0, i as int) =~= rows@);
    seen.keys()
}

/// Every user that has a row, ascending, with what the user rated.
pub fn maped_ratings(rows: &Vec<Rating>) -> (r: Vec<UserRatings>)
    ensures
        forall|i: int, j: int| 0 <= i < j < r@.len() ==> r@[i].user < r@[j].user,
        forall|i: int|
            0 <= i < r@.len() ==> rates(rows@, (#[trigger] r@[i]).user) && r@[i].ratings@
                == ratings_of(rows@, r@[i].user),
        forall|u: u64|
            rates(rows@, u) ==> exists|i: int| 0 <= i < r@.len() && (#[trigger] r@[i]).user == u,
{
    let users = users_of(rows);
    let r = maped_ratings_by(rows, &users);
    proof {
        assert forall|i: int| 0 <= i < r@.len() implies rates(rows@, (#[trigger] r@[i]).user) by {
            assert(users@.contains(users@[i]));
        }
        assert forall|u: u64| rates(rows@, u) implies exists|i: int|
            0 <= i < r@.len() && (#[trigger] r@[i]).user == u by {
            assert(users@.contains(u));
            let p = choose|p: int| 0 <= p < users@.len() && users@[p] == u;
            assert(r@[p].user == u);
        }
    }
    r
}

/// The users that have a row, ascending, but for `user`.
pub fn raters_except(rows: &Vec<Rating>, user: u64) -> (r: Vec<u64>)
    ensures
        forall|i: int, j: int| 0 <= i < j < r@.len() ==> r@[i] < r@[j],
        forall|u: u64| r@.contains(u) <==> rates(rows@, u) && u != user,
{
    let mut seen = Ratings::new();
    let mut i: usize = 0;
    assert forall|u: u64| !rates(rows@.subrange(0, 0), u) by {
    }
    while i < rows.len()
        invariant
            i <= rows@.len(),
            forall|u: u64|
                #![all_triggers]
                seen@.contains_key(u) <==> rates(rows@.subrange(0, i as int), u) && u != user,
        decreases rows@.len() - i,
    {
        let row: Rating = rows[i];
        let ghost done = rows@.subrange(0, i as int);
        let ghost next = rows@.subrange(0, i + 1);
        if row.user != user {
            seen.insert(row.user, 0);
        }
        proof {
            assert forall|u: u64|
                #![all_triggers]
                seen@.contains_key(u) <==> rates(next, u) && u != user by {
                if rates(done, u) {
                    let p = choose|p: int| 0 <= p < done.len() && done[p].user == u;
                    assert(next[p].user == u);
                }
                if rates(next, u) {
                    let p = choose|p: int| 0 <= p < next.len() && next[p].user == u;
                    if p < i {
                        assert(done[p].user == u);
                    }
                }
                if u == row.user {
                    assert(next[i as int].user == u);
                }
            }
        }
        i = i + 1;
    }
    assert(rows@.subrange(0, i as int) =~= rows@);
    seen.keys()
}

/// Every user but `user`, ascending, with what the user rated.
pub fn maped_ratings_except(rows: &Vec<Rating>, user: u64) -> (r: Vec<UserRatings>)
    ensures
        forall|i: int, j: int| 0 <= i < j < r@.len() ==> r@[i].user < r@[j].user,
        forall|i: int|
            0 <= i < r@.len() ==> (#[trigger] r@[i]).user != user && rates(rows@, r@[i].user)
                && r@[i].ratings@ == ratings_of(rows@, r@[i].user),
        forall|u: u64|
            rates(rows@, u) && u != user ==> exists|i: int|
                0 <= i < r@.len() && (#[trigger] r@[i]).user == u,
{
    let users = raters_except(rows, user);
    let r = maped_ratings_by(rows, &users);
    proof {
        assert forall|i: int| 0 <= i < r@.len() implies (#[trigger] r@[i]).user != user && rates(
            rows@,
            r@[i].user,
        ) by {
            assert(users@.contains(users@[i]));
        }
        assert forall|u: u64| rates(rows@, u) && u != user implies exists|i: int|
            0 <= i < r@.len() && (#[trigger] r@[i]).user == u by {
            assert(users@.contains(u));
            let p = choose|p: int| 0 <= p < users@.len() && users@[p] == u;
            assert(r@[p].user == u);
        }
    }
    r
}

} // verus!
