//! Chunks of a store: what a fetched side leaves to work on, which users
//! still need a mean, and how requests are cut into batches.
use crate::error::ErrorKind;
use crate::mean_cache::{absorb, holds, MeanCache, MeanEntry};
use crate::ratings::{as_map, clipped, has_key, index_of, Ratings};
use crate::store::{Controller, ItemRaters};
use vstd::prelude::*;

verus! {

/// Some entry of `side` is about item `a`.
pub open spec fn has_item(side: Seq<ItemRaters>, a: u64) -> bool {
    exists|i: int| 0 <= i < side.len() && side[i].item == a
}

/// The place of the first entry of `side` about `item`.
pub fn find_item(side: &Vec<ItemRaters>, item: u64) -> (r: Option<usize>)
    ensures
        match r {
            Some(i) => i < side@.len() && side@[i as int].item == item && forall|j: int|
                0 <= j < i ==> (#[trigger] side@[j]).item != item,
            None => !has_item(side@, item),
        },
{
    let mut i: usize = 0;
    while i < side.len()
        invariant
            i <= side@.len(),
            forall|j: int| 0 <= j < i ==> (#[trigger] side@[j]).item != item,
        decreases side@.len() - i,
    {
        if side[i].item == item {
            return Some(i);
        }
        i = i + 1;
    }
    None
}

/// No item has two entries.
pub open spec fn distinct_items(side: Seq<ItemRaters>) -> bool {
    forall|i: int, j: int| 0 <= i < j < side.len() ==> side[i].item != side[j].item
}

/// Some pair of `side` is about item `a`.
pub open spec fn names(side: Seq<(u64, Map<u64, i64>)>, a: u64) -> bool {
    exists|i: int| 0 <= i < side.len() && side[i].0 == a
}

/// What a store's answer leaves to work on: each item, once, with its
/// ratings inside the score range; an item without any such rating is
/// dropped, and of two entries about one item the first counts.
pub open spec fn usable(found: Seq<ItemRaters>, lo: i64, hi: i64) -> Seq<(u64, Map<u64, i64>)>
    decreases found.len(),
{
    if found.len() == 0 {
        Seq::<(u64, Map<u64, i64>)>::empty()
    } else {
        let rest = usable(found.drop_last(), lo, hi);
        let kept = clipped(found.last().raters@, lo, hi);
        if kept.dom() =~= Set::<u64>::empty() || names(rest, found.last().item) {
            rest
        } else {
            rest.push((found.last().item, kept))
        }
    }
}

/// Drops the ratings outside the score range, then the items left without
/// a rating and the repeated items.
pub fn usable_side(found: &Vec<ItemRaters>, lo: i64, hi: i64) -> (r: Vec<ItemRaters>)
    ensures
        r@.len() == usable(found@, lo, hi).len(),
        forall|k: int|
            0 <= k < r@.len() ==> (#[trigger] r@[k]).item == usable(found@, lo, hi)[k].0
                && r@[k].raters@ == usable(found@, lo, hi)[k].1,
        distinct_items(r@),
{
    let mut r: Vec<ItemRaters> = Vec::new();
    let mut i: usize = 0;
    assert(found@.subrange(0, 0) =~= Seq::<ItemRaters>::empty());
    while i < found.len()
        invariant
            i <= found@.len(),
            r@.len() == usable(found@.subrange(0, i as int), lo, hi).len(),
            forall|k: int|
                0 <= k < r@.len() ==> (#[trigger] r@[k]).item == usable(
                    found@.subrange(0, i as int),
                    lo,
                    hi,
                )[k].0 && r@[k].raters@ == usable(found@.subrange(0, i as int), lo, hi)[k].1,
            distinct_items(r@),
        decreases found@.len() - i,
    {
        let kept = found[i].raters.within(lo, hi);
        let item: u64 = found[i].item;
        let ghost done = usable(found@.subrange(0, i as int), lo, hi);
        proof {
            let next = found@.subrange(0, i + 1);
            assert(next.drop_last() =~= found@.subrange(0, i as int));
            assert(next.last() == found@[i as int]);
        }
        let seen: bool = find_item(&r, item).is_some();
        proof {
            if seen {
                let k = choose|k: int| 0 <= k < r@.len() && r@[k].item == item;
                assert(done[k].0 == item);
            }
            if names(done, item) {
                let k = choose|k: int| 0 <= k < done.len() && done[k].0 == item;
                assert(r@[k].item == item);
            }
        }
        if !kept.is_empty() && !seen {
            r.push(ItemRaters { item, raters: kept });
        }
        i = i + 1;
    }
    assert(found@.subrange(0, i as int) =~= found@);
    r
}

/// Some item of `side` was rated by `user`.
pub open spec fn rated_by(side: Seq<ItemRaters>, user: u64) -> bool {
    exists|i: int| 0 <= i < side.len() && (#[trigger] side[i]).raters@.contains_key(user)
}

/// `missing` are the users, in ascending order, who rated an item of
/// either side and have no mean in `cache`.
pub open spec fn missing_are(
    missing: Seq<u64>,
    ver: Seq<ItemRaters>,
    hor: Seq<ItemRaters>,
    cache: Seq<MeanEntry>,
) -> bool {
    &&& forall|i: int, j: int| 0 <= i < j < missing.len() ==> missing[i] < missing[j]
    &&& forall|u: u64|
        #![all_triggers]
        missing.contains(u) <==> (rated_by(ver, u) || rated_by(hor, u)) && !holds(cache, u)
}

/// Adds to `acc` the raters that have no cached mean.
fn collect_missing(acc: &mut Ratings, raters: &Ratings, cache: &MeanCache)
    ensures
        forall|u: u64|
            #![all_triggers]
            final(acc)@.contains_key(u) <==> old(acc)@.contains_key(u) || (raters@.contains_key(u)
                && !holds(cache@, u)),
{
    let pairs = raters.as_vec();
    let mut k: usize = 0;
    assert forall|u: u64| !has_key(pairs@.subrange(0, 0), u) by {
    }
    while k < pairs.len()
        invariant
            k <= pairs@.len(),
            raters@ == as_map(pairs@),
            forall|u: u64|
                #![all_triggers]
                acc@.contains_key(u) <==> old(acc)@.contains_key(u) || (has_key(
                    pairs@.subrange(0, k as int),
                    u,
                ) && !holds(cache@, u)),
        decreases pairs@.len() - k,
    {
        let user: u64 = pairs[k].0;
        let ghost done = pairs@.subrange(0, k as int);
        let ghost next = pairs@.subrange(0, k + 1);
        let ghost earlier = acc@;
        if !cache.has_mean_for(user) {
            acc.insert(user, 0);
        }
        proof {
            assert forall|u: u64|
                #![all_triggers]
                acc@.contains_key(u) <==> old(acc)@.contains_key(u) || (has_key(
                    next,
                    u,
                ) && !holds(cache@, u)) by {
                if has_key(done, u) {
                    let p = index_of(done, u);
                    assert(next[p].0 == u);
                }
                if has_key(next, u) {
                    let p = index_of(next, u);
                    if p < k {
                        assert(done[p].0 == u);
                    }
                }
                if u == user {
                    assert(next[k as int].0 == u);
                }
            }
        }
        k = k + 1;
    }
    assert(pairs@.subrange(0, k as int) =~= pairs@);
}

/// The users, in ascending order, who rated an item of either side and
/// have no cached mean.
pub fn missing_users(ver: &Vec<ItemRaters>, hor: &Vec<ItemRaters>, cache: &MeanCache) -> (r: Vec<
    u64,
>)
    ensures
        missing_are(r@, ver@, hor@, cache@),
{
    let mut acc = Ratings::new();
    let mut i: usize = 0;
    assert forall|u: u64| !rated_by(ver@.subrange(0, 0), u) by {
    }
    while i < ver.len()
        invariant
            i <= ver@.len(),
            forall|u: u64|
                #![all_triggers]
                acc@.contains_key(u) <==> rated_by(ver@.subrange(0, i as int), u) && !holds(
                    cache@,
                    u,
                ),
        decreases ver@.len() - i,
    {
        let ghost done = ver@.subrange(0, i as int);
        let ghost next = ver@.subrange(0, i + 1);
        collect_missing(&mut acc, &ver[i].raters, cache);
        proof {
            assert forall|u: u64|
                #![all_triggers]
                acc@.contains_key(u) <==> rated_by(next, u) && !holds(cache@, u) by {
                if rated_by(done, u) {
                    let p = choose|p: int|
                        0 <= p < done.len() && (#[trigger] done[p]).raters@.contains_key(u);
                    assert(next[p].raters@.contains_key(u));
                }
                if rated_by(next, u) {
                    let p = choose|p: int|
                        0 <= p < next.len() && (#[trigger] next[p]).raters@.contains_key(u);
                    if p < i {
                        assert(done[p].raters@.contains_key(u));
                    }
                }
                if ver@[i as int].raters@.contains_key(u) {
                    assert(next[i as int].raters@.contains_key(u));
                }
            }
        }
        i = i + 1;
    }
    assert(ver@.subrange(0, i as int) =~= ver@);
    let mut j: usize = 0;
    assert forall|u: u64| !rated_by(hor@.subrange(0, 0), u) by {
    }
    while j < hor.len()
        invariant
            j <= hor@.len(),
            forall|u: u64|
                #![all_triggers]
                acc@.contains_key(u) <==> (rated_by(ver@, u) || rated_by(
                    hor@.subrange(0, j as int),
                    u,
                )) && !holds(cache@, u),
        decreases hor@.len() - j,
    {
        let ghost done = hor@.subrange(0, j as int);
        let ghost next = hor@.subrange(0, j + 1);
        collect_missing(&mut acc, &hor[j].raters, cache);
        proof {
            assert forall|u: u64|
                #![all_triggers]
                acc@.contains_key(u) <==> (rated_by(ver@, u) || rated_by(next, u)) && !holds(
                    cache@,
                    u,
                ) by {
                if rated_by(done, u) {
                    let p = choose|p: int|
                        0 <= p < done.len() && (#[trigger] done[p]).raters@.contains_key(u);
                    assert(next[p].raters@.contains_key(u));
                }
                if rated_by(next, u) {
                    let p = choose|p: int|
                        0 <= p < next.len() && (#[trigger] next[p]).raters@.contains_key(u);
                    if p < j {
                        assert(done[p].raters@.contains_key(u));
                    }
                }
                if hor@[j as int].raters@.contains_key(u) {
                    assert(next[j as int].raters@.contains_key(u));
                }
            }
        }
        j = j + 1;
    }
    assert(hor@.subrange(0, j as int) =~= hor@);
    acc.keys()
}

/// The parts laid end to end.
pub open spec fn joined(parts: Seq<Vec<u64>>) -> Seq<u64>
    decreases parts.len(),
{
    if parts.len() == 0 {
        Seq::<u64>::empty()
    } else {
        joined(parts.drop_last()) + parts.last()@
    }
}

/// Cuts `users` into consecutive batches of `size`; the last may be shorter,
/// none is empty.
pub fn batches(users: &Vec<u64>, size: usize) -> (r: Vec<Vec<u64>>)
    requires
        size > 0,
    ensures
        joined(r@) == users@,
        forall|b: int| 0 <= b < r@.len() ==> 0 < (#[trigger] r@[b])@.len() <= size,
        forall|b: int| 0 <= b < r@.len() - 1 ==> (#[trigger] r@[b])@.len() == size,
{
    let mut r: Vec<Vec<u64>> = Vec::new();
    let mut start: usize = 0;
    let total: usize = users.len();
    assert(users@.subrange(0, 0) =~= Seq::<u64>::empty());
    while start < total
        invariant
            size > 0,
            total == users@.len(),
            start <= total,
            joined(r@) == users@.subrange(0, start as int),
            forall|b: int| 0 <= b < r@.len() ==> 0 < (#[trigger] r@[b])@.len() <= size,
            forall|b: int| 0 <= b < r@.len() - 1 ==> (#[trigger] r@[b])@.len() == size,
            start < total && r@.len() > 0 ==> r@[r@.len() - 1]@.len() == size,
        decreases total - start,
    {
        let room: usize = total - start;
        let take: usize = if room < size {
            room
        } else {
            size
        };
        let mut part: Vec<u64> = Vec::new();
        let mut k: usize = 0;
        assert(part@ =~= users@.subrange(start as int, start as int));
        while k < take
            invariant
                k <= take,
                total == users@.len(),
                start + take <= total,
                part@ == users@.subrange(start as int, start + k),
            decreases take - k,
        {
            part.push(users[start + k]);
            k = k + 1;
            assert(part@ =~= users@.subrange(start as int, start + k));
        }
        let ghost earlier = r@;
        r.push(part);
        proof {
            assert(r@.drop_last() =~= earlier);
            assert(r@.last() == part);
            assert(joined(r@) =~= users@.subrange(0, start + take));
            assert forall|b: int| 0 <= b < r@.len() - 1 implies (#[trigger] r@[b])@.len()
                == size by {
                assert(r@[b] == earlier[b]);
            }
        }
        start = start + take;
    }
    assert(users@.subrange(0, users@.len() as int) =~= users@);
    r
}

/// Where the batch number `index` of `size` ids begins and ends in a list
/// of `len` ids, if there is such a batch.
pub open spec fn batch_bounds(len: int, index: int, size: int) -> Option<(int, int)> {
    if size == 0 || index * size >= len {
        None
    } else if index * size + size <= len {
        Some((index * size, index * size + size))
    } else {
        Some((index * size, len))
    }
}

/// The batch number `index`, counted from zero, of the batches of `size`
/// that `ids` is cut into; nothing past the last batch, or where `size` is
/// zero.
pub fn nth_batch(ids: &Vec<u64>, index: usize, size: usize) -> (r: Option<Vec<u64>>)
    ensures
        match (r, batch_bounds(ids@.len() as int, index as int, size as int)) {
            (Some(part), Some(bounds)) => part@ == ids@.subrange(bounds.0, bounds.1),
            (None, None) => true,
            _ => false,
        },
{
    let total: usize = ids.len();
    if size == 0 {
        return None;
    }
    let wide: u128 = index as u128;
    let step: u128 = size as u128;
    assert(wide * step <= 0xffff_ffff_ffff_ffff * 0xffff_ffff_ffff_ffff) by (nonlinear_arith)
        requires
            wide <= 0xffff_ffff_ffff_ffff,
            step <= 0xffff_ffff_ffff_ffff,
    ;
    let begin: u128 = wide * step;
    if begin >= total as u128 {
        return None;
    }
    let start: usize = begin as usize;
    let room: usize = total - start;
    let take: usize = if room < size {
        room
    } else {
        size
    };
    let mut part: Vec<u64> = Vec::new();
    let mut k: usize = 0;
    assert(part@ =~= ids@.subrange(start as int, start as int));
    while k < take
        invariant
            k <= take,
            total == ids@.len(),
            start + take <= total,
            part@ == ids@.subrange(start as int, start + k),
        decreases take - k,
    {
        part.push(ids[start + k]);
        k = k + 1;
        assert(part@ =~= ids@.subrange(start as int, start + k));
    }
    Some(part)
}

/// `parts` are the batches of `size` that `users` is cut into.
pub open spec fn batched(parts: Seq<Vec<u64>>, users: Seq<u64>, size: usize) -> bool {
    &&& joined(parts) == users
    &&& forall|b: int| 0 <= b < parts.len() ==> 0 < (#[trigger] parts[b])@.len() <= size
    &&& forall|b: int| 0 <= b < parts.len() - 1 ==> (#[trigger] parts[b])@.len() == size
}

/// `after` is the cache `before` once the means of the batches `parts`
/// were asked of the store, batch after batch, and each answer was
/// absorbed.
pub open spec fn means_filled<C: Controller>(
    store: &C,
    parts: Seq<Vec<u64>>,
    before: Seq<MeanEntry>,
    after: Seq<MeanEntry>,
) -> bool
    decreases parts.len(),
{
    if parts.len() == 0 {
        after == before
    } else {
        exists|prev: Seq<MeanEntry>, means: Ratings|
            #![trigger absorb(prev, means.pairs())]
            means_filled(store, parts.drop_last(), before, prev) && store.means_answer(
                parts.last()@,
                Ok(means),
            ) && after == absorb(prev, means.pairs())
    }
}

/// `r` and the cache `after` are what filling the cache `before` with the
/// means of `users` comes to, in batches of `size`: all batches were
/// answered and absorbed, or the store failed on a batch after the batches
/// before it were.
pub open spec fn filling_is<C: Controller>(
    store: &C,
    users: Seq<u64>,
    size: usize,
    before: Seq<MeanEntry>,
    after: Seq<MeanEntry>,
    r: Result<(), ErrorKind>,
) -> bool {
    exists|parts: Seq<Vec<u64>>|
        #![trigger batched(parts, users, size)]
        batched(parts, users, size) && match r {
            Ok(_) => means_filled(store, parts, before, after),
            Err(e) => exists|k: int|
                #![trigger store.means_answer(parts[k]@, Err(e))]
                0 <= k < parts.len() && means_filled(store, parts.subrange(0, k), before, after)
                    && store.means_answer(parts[k]@, Err(e)),
        }
}

/// Asks the store, batch by batch, for the means of `users` and caches
/// them. The first failure ends the filling; what was cached stays.
pub fn fill_means<C: Controller>(
    controller: &C,
    cache: &mut MeanCache,
    users: &Vec<u64>,
    batch: usize,
) -> (r: Result<(), ErrorKind>)
    requires
        batch > 0,
    ensures
        filling_is(controller, users@, batch, old(cache)@, final(cache)@, r),
        final(cache).limit() == old(cache).limit(),
        final(cache).kept() == old(cache).kept(),
        old(cache)@.len() <= final(cache)@.len(),
        final(cache)@.subrange(0, old(cache)@.len() as int) == old(cache)@,
{
    let parts = batches(users, batch);
    let mut b: usize = 0;
    let ghost before = cache@;
    assert(before.subrange(0, before.len() as int) =~= before);
    assert(batched(parts@, users@, batch));
    assert(parts@.subrange(0, 0) =~= Seq::<Vec<u64>>::empty());
    while b < parts.len()
        invariant
            b <= parts@.len(),
            batched(parts@, users@, batch),
            cache.limit() == old(cache).limit(),
            cache.kept() == old(cache).kept(),
            before == old(cache)@,
            before.len() <= cache@.len(),
            cache@.subrange(0, before.len() as int) == before,
            means_filled(controller, parts@.subrange(0, b as int), before, cache@),
        decreases parts@.len() - b,
    {
        let answer = controller.get_means(&parts[b]);
        assert(controller.means_answer(parts@[b as int]@, answer));
        match answer {
            Ok(means) => {
                let ghost mid = cache@;
                cache.add_new_means(&means);
                proof {
                    assert(cache@.subrange(0, before.len() as int) =~= mid.subrange(
                        0,
                        before.len() as int,
                    ));
                    let next = parts@.subrange(0, b + 1);
                    assert(next.drop_last() =~= parts@.subrange(0, b as int));
                    assert(next.last() == parts@[b as int]);
                    assert(cache@ == absorb(mid, means.pairs()));
                }
            },
            Err(e) => {
                return Err(e);
            },
        }
        b = b + 1;
    }
    assert(parts@.subrange(0, b as int) =~= parts@);
    Ok(())
}

/// `r` is what a fetch makes of an answer of the store to the request for
/// the chunk `index` of `size` items: the items, `IndexOutOfBound` past the
/// last chunk, or the store's failure.
pub open spec fn chunk_fetched<C: Controller>(
    store: &C,
    index: usize,
    size: usize,
    r: Result<Vec<u64>, ErrorKind>,
) -> bool {
    exists|answer: Result<Option<Vec<u64>>, ErrorKind>|
        #![trigger store.items_answer(index, size, answer)]
        store.items_answer(index, size, answer) && r == match answer {
            Ok(Some(items)) => Ok::<Vec<u64>, ErrorKind>(items),
            Ok(None) => Err::<Vec<u64>, ErrorKind>(ErrorKind::IndexOutOfBound),
            Err(e) => Err::<Vec<u64>, ErrorKind>(e),
        }
}

/// `side` is what is usable of `found` for scores from `lo` to `hi`.
pub open spec fn side_is(side: Seq<ItemRaters>, found: Seq<ItemRaters>, lo: i64, hi: i64) -> bool {
    &&& side.len() == usable(found, lo, hi).len()
    &&& forall|k: int|
        0 <= k < side.len() ==> (#[trigger] side[k]).item == usable(found, lo, hi)[k].0
            && side[k].raters@ == usable(found, lo, hi)[k].1
    &&& distinct_items(side)
}

/// `r` is what a fetch makes of an answer of the store to the request for
/// the raters of `items`: what is usable of the answer for scores from `lo`
/// to `hi`, or the store's failure.
pub open spec fn side_fetched<C: Controller>(
    store: &C,
    items: Seq<u64>,
    lo: i64,
    hi: i64,
    r: Result<Vec<ItemRaters>, ErrorKind>,
) -> bool {
    exists|answer: Result<Vec<ItemRaters>, ErrorKind>|
        #![trigger store.raters_answer(items, answer)]
        store.raters_answer(items, answer) && match answer {
            Ok(found) => r is Ok && side_is(r->Ok_0@, found@, lo, hi),
            Err(e) => r == Err::<Vec<ItemRaters>, ErrorKind>(e),
        }
}

/// `r` is what fetching the row chunk `i` of `m` items and the column
/// chunk `j` of `n` items comes to: the store is asked for the two chunks,
/// for its score range and for the raters of the two chunks, in this
/// order; its first failure, or a chunk past the end, ends the fetch with
/// that failure; else `r` holds what is usable of the two answers.
pub open spec fn sides_fetched<C: Controller>(
    store: &C,
    i: usize,
    j: usize,
    m: usize,
    n: usize,
    r: Result<(Vec<ItemRaters>, Vec<ItemRaters>), ErrorKind>,
) -> bool {
    exists|rows: Result<Vec<u64>, ErrorKind>|
        #![trigger chunk_fetched(store, i, m, rows)]
        chunk_fetched(store, i, m, rows) && match rows {
            Err(e) => r == Err::<(Vec<ItemRaters>, Vec<ItemRaters>), ErrorKind>(e),
            Ok(ver_items) => exists|columns: Result<Vec<u64>, ErrorKind>|
                #![trigger chunk_fetched(store, j, n, columns)]
                chunk_fetched(store, j, n, columns) && match columns {
                    Err(e) => r == Err::<(Vec<ItemRaters>, Vec<ItemRaters>), ErrorKind>(e),
                    Ok(hor_items) => exists|range: (i64, i64)|
                        #![trigger store.range_answer(range)]
                        store.range_answer(range) && raters_fetched(
                            store,
                            ver_items@,
                            hor_items@,
                            range,
                            r,
                        ),
                },
        }
}

/// `r` is what fetching the raters of the row items and of the column
/// items comes to, for scores in `range`.
pub open spec fn raters_fetched<C: Controller>(
    store: &C,
    ver_items: Seq<u64>,
    hor_items: Seq<u64>,
    range: (i64, i64),
    r: Result<(Vec<ItemRaters>, Vec<ItemRaters>), ErrorKind>,
) -> bool {
    exists|ver: Result<Vec<ItemRaters>, ErrorKind>|
        #![trigger side_fetched(store, ver_items, range.0, range.1, ver)]
        side_fetched(store, ver_items, range.0, range.1, ver) && match ver {
            Err(e) => r == Err::<(Vec<ItemRaters>, Vec<ItemRaters>), ErrorKind>(e),
            Ok(v) => exists|hor: Result<Vec<ItemRaters>, ErrorKind>|
                #![trigger side_fetched(store, hor_items, range.0, range.1, hor)]
                side_fetched(store, hor_items, range.0, range.1, hor) && match hor {
                    Err(e) => r == Err::<(Vec<ItemRaters>, Vec<ItemRaters>), ErrorKind>(e),
                    Ok(h) => r == Ok::<(Vec<ItemRaters>, Vec<ItemRaters>), ErrorKind>((v, h)),
                },
        }
}

/// Asks the store for the chunk `index` of `size` items.
pub fn fetch_chunk<C: Controller>(controller: &C, index: usize, size: usize) -> (r: Result<
    Vec<u64>,
    ErrorKind,
>)
    ensures
        chunk_fetched(controller, index, size, r),
{
    let answer = controller.items_chunk(index, size);
    assert(controller.items_answer(index, size, answer));
    match answer {
        Ok(Some(items)) => Ok(items),
        Ok(None) => Err(ErrorKind::IndexOutOfBound),
        Err(e) => Err(e),
    }
}

/// Asks the store for the raters of `items` and leaves what is usable of
/// them for scores from `lo` to `hi`.
pub fn fetch_side<C: Controller>(controller: &C, items: &Vec<u64>, lo: i64, hi: i64) -> (r: Result<
    Vec<ItemRaters>,
    ErrorKind,
>)
    ensures
        side_fetched(controller, items@, lo, hi, r),
        r matches Ok(side) ==> distinct_items(side@),
{
    let answer = controller.users_who_rated(items);
    assert(controller.raters_answer(items@, answer));
    match answer {
        Ok(found) => Ok(usable_side(&found, lo, hi)),
        Err(e) => Err(e),
    }
}

/// Fetches the row chunk `i` and the column chunk `j` with their raters,
/// and leaves what is usable of them. The first failure of the store ends
/// the fetch; a chunk past the end is `IndexOutOfBound`.
pub fn fetch_sides<C: Controller>(
    controller: &C,
    i: usize,
    j: usize,
    m: usize,
    n: usize,
) -> (r: Result<(Vec<ItemRaters>, Vec<ItemRaters>), ErrorKind>)
    ensures
        sides_fetched(controller, i, j, m, n, r),
        r matches Ok(sides) ==> distinct_items(sides.0@) && distinct_items(sides.1@),
{
    let rows = fetch_chunk(controller, i, m);
    let ver_items = match rows {
        Ok(items) => items,
        Err(e) => {
            return Err(e);
        },
    };
    let columns = fetch_chunk(controller, j, n);
    let hor_items = match columns {
        Ok(items) => items,
        Err(e) => {
            return Err(e);
        },
    };
    let range = controller.score_range();
    assert(controller.range_answer(range));
    let ver = match fetch_side(controller, &ver_items, range.0, range.1) {
        Ok(side) => side,
        Err(e) => {
            assert(side_fetched(
                controller,
                ver_items@,
                range.0,
                range.1,
                Err::<Vec<ItemRaters>, ErrorKind>(e),
            ));
            return Err(e);
        },
    };
    let hor = match fetch_side(controller, &hor_items, range.0, range.1) {
        Ok(side) => side,
        Err(e) => {
            assert(side_fetched(
                controller,
                hor_items@,
                range.0,
                range.1,
                Err::<Vec<ItemRaters>, ErrorKind>(e),
            ));
            return Err(e);
        },
    };
    Ok((ver, hor))
}

} // verus!
