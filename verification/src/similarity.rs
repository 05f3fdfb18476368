//! The adjusted-cosine similarity tile.
use crate::chunks::{distinct_items, has_item};
use crate::distances::{fast_adjusted_cosine, lemma_similarity_stable, similarity_is};
use crate::mean_cache::{distinct, refreshed, MeanCache, MeanEntry};
use crate::pairing::{all_cached, centre_reads, shared, Centered};
use crate::ratings::Ratings;
use crate::score::{is_finite, ONE};
use crate::store::ItemRaters;
use crate::tile::{
    all_finite, cell_of, diagonal, exclusive, lemma_put_row, similarity_lookup, Cells, Tile,
};
use vstd::prelude::*;

verus! {

/// What the tile `t` holds for a row item against a different column item:
/// its cell is the similarity that the kernel comes to on the means in
/// `cache`, or it is empty because the opposite cell is not, or because the
/// kernel comes to none.
pub open spec fn similarity_settled<K: Fn(&Vec<Centered>) -> Option<i64>>(
    kernel: &K,
    t: Cells,
    cache: Seq<MeanEntry>,
    ver: ItemRaters,
    hor: ItemRaters,
) -> bool {
    ver.item != hor.item ==> match cell_of(t, ver.item, hor.item) {
        Some(v) => similarity_is(kernel, ver.raters.pairs(), hor.raters@, cache, Some(v)),
        None => cell_of(t, hor.item, ver.item).is_some() || similarity_is(
            kernel,
            ver.raters.pairs(),
            hor.raters@,
            cache,
            None,
        ),
    }
}

/// What the row of `a` holds for a different column item, next to the tile
/// `t` of the rows before it.
pub open spec fn similarity_row_settled<K: Fn(&Vec<Centered>) -> Option<i64>>(
    kernel: &K,
    t: Cells,
    cache: Seq<MeanEntry>,
    a: u64,
    pairs: Seq<(u64, i64)>,
    row: Map<u64, i64>,
    hor: ItemRaters,
) -> bool {
    a != hor.item ==> if row.contains_key(hor.item) {
        similarity_is(kernel, pairs, hor.raters@, cache, Some(row[hor.item]))
    } else {
        cell_of(t, hor.item, a).is_some() || similarity_is(kernel, pairs, hor.raters@, cache, None)
    }
}

/// `cells` are the similarity tile of the rows `ver` against the columns
/// `hor` on the means in `cache`: a row for each row item and no other, one
/// on the diagonal, only finite values, no two different items holding a
/// value for each other, no value but between a row item and a column
/// item, and every row item settled against every column item.
pub open spec fn similarity_tile_is<K: Fn(&Vec<Centered>) -> Option<i64>>(
    kernel: &K,
    cells: Cells,
    cache: Seq<MeanEntry>,
    ver: Seq<ItemRaters>,
    hor: Seq<ItemRaters>,
) -> bool {
    &&& forall|a: u64| cells.contains_key(a) <==> has_item(ver, a)
    &&& diagonal(cells, ONE)
    &&& all_finite(cells)
    &&& exclusive(cells)
    &&& forall|a: u64, b: u64|
        a != b && (#[trigger] cell_of(cells, a, b)).is_some() ==> has_item(ver, a) && has_item(
            hor,
            b,
        )
    &&& forall|i: int, j: int|
        0 <= i < ver.len() && 0 <= j < hor.len() ==> similarity_settled(
            kernel,
            cells,
            cache,
            #[trigger] ver[i],
            #[trigger] hor[j],
        )
}

/// In the similarity tile of `ver` against `hor` every row item gives one
/// for the pair with itself, and holds no value for a different column
/// item that shares no rater with it.
pub proof fn lemma_similarity_tile<K: Fn(&Vec<Centered>) -> Option<i64>>(
    kernel: &K,
    cells: Cells,
    cache: Seq<MeanEntry>,
    ver: Seq<ItemRaters>,
    hor: Seq<ItemRaters>,
    i: int,
    j: int,
)
    requires
        similarity_tile_is(kernel, cells, cache, ver, hor),
        0 <= i < ver.len(),
        0 <= j < hor.len(),
    ensures
        similarity_lookup(cells, ver[i].item, ver[i].item) == Some(ONE),
        ver[i].item != hor[j].item && shared(ver[i].raters.pairs(), hor[j].raters@).len() == 0
            ==> cell_of(cells, ver[i].item, hor[j].item).is_none(),
{
    assert(has_item(ver, ver[i].item));
    assert(cells.contains_key(ver[i].item));
    assert(similarity_settled(kernel, cells, cache, ver[i], hor[j]));
    if shared(ver[i].raters.pairs(), hor[j].raters@).len() == 0 {
        assert(all_cached(shared(ver[i].raters.pairs(), hor[j].raters@), cache));
    }
}

/// The cache after the row of `a` was built next to the tile `t` of the
/// rows before it: for each column item in turn that is not `a` and holds
/// no value for `a` in `t`, the means of the users who rated both were
/// read.
pub open spec fn row_reads(
    s: Seq<MeanEntry>,
    t: Cells,
    a: u64,
    pairs: Seq<(u64, i64)>,
    hor: Seq<ItemRaters>,
) -> Seq<MeanEntry>
    decreases hor.len(),
{
    if hor.len() == 0 {
        s
    } else {
        let prev = row_reads(s, t, a, pairs, hor.drop_last());
        let b = hor.last();
        if b.item != a && cell_of(t, b.item, a).is_none() {
            centre_reads(prev, shared(pairs, b.raters@))
        } else {
            prev
        }
    }
}

/// The rows of `t` that belong to the items of `rows`.
pub open spec fn rows_of(t: Cells, rows: Seq<ItemRaters>) -> Cells {
    t.restrict(Set::new(|a: u64| has_item(rows, a)))
}

/// The cache after the tile `t` of the rows `ver` against the columns
/// `hor` was built, row after row, each row next to the rows before it.
pub open spec fn tile_reads(
    s: Seq<MeanEntry>,
    t: Cells,
    ver: Seq<ItemRaters>,
    hor: Seq<ItemRaters>,
) -> Seq<MeanEntry>
    decreases ver.len(),
{
    if ver.len() == 0 {
        s
    } else {
        row_reads(
            tile_reads(s, t, ver.drop_last(), hor),
            rows_of(t, ver.drop_last()),
            ver.last().item,
            ver.last().raters.pairs(),
            hor,
        )
    }
}

/// The reads of the first rows do not depend on a row that is none of
/// them.
pub proof fn lemma_tile_reads_frame(
    s: Seq<MeanEntry>,
    t: Cells,
    a: u64,
    row: Map<u64, i64>,
    ver: Seq<ItemRaters>,
    hor: Seq<ItemRaters>,
)
    requires
        !has_item(ver, a),
    ensures
        tile_reads(s, t.insert(a, row), ver, hor) == tile_reads(s, t, ver, hor),
        rows_of(t.insert(a, row), ver) == rows_of(t, ver),
    decreases ver.len(),
{
    assert(rows_of(t.insert(a, row), ver) =~= rows_of(t, ver));
    if ver.len() > 0 {
        let front = ver.drop_last();
        assert(!has_item(front, a)) by {
            if has_item(front, a) {
                let k = choose|k: int| 0 <= k < front.len() && front[k].item == a;
                assert(ver[k].item == a);
            }
        }
        lemma_tile_reads_frame(s, t, a, row, front, hor);
    }
}

/// The row of item `a` in a similarity tile.
fn similarity_row<K: Fn(&Vec<Centered>) -> Option<i64>>(
    a: u64,
    ra: &Ratings,
    hor: &Vec<ItemRaters>,
    tile: &Tile,
    cache: &mut MeanCache,
    kernel: &K,
) -> (row: Ratings)
    requires
        forall|t: &Vec<Centered>| call_requires(*kernel, (t,)),
        distinct_items(hor@),
    ensures
        row@.contains_key(a),
        row@[a] == ONE,
        forall|b: u64|
            b != a && #[trigger] row@.contains_key(b) ==> is_finite(row@[b]) && cell_of(
                tile@,
                b,
                a,
            ).is_none() && has_item(hor@, b),
        forall|j: int|
            0 <= j < hor@.len() ==> similarity_row_settled(
                kernel,
                tile@,
                old(cache)@,
                a,
                ra.pairs(),
                row@,
                #[trigger] hor@[j],
            ),
        final(cache)@ == row_reads(old(cache)@, tile@, a, ra.pairs(), hor@),
        refreshed(old(cache)@, final(cache)@),
        distinct(old(cache)@),
        final(cache).limit() == old(cache).limit(),
        final(cache).kept() == old(cache).kept(),
{
    let ghost start = cache@;
    cache.users_are_distinct();
    let mut row = Ratings::new();
    assert(hor@.subrange(0, 0) =~= Seq::<ItemRaters>::empty());
    let mut j: usize = 0;
    while j < hor.len()
        invariant
            j <= hor@.len(),
            forall|t: &Vec<Centered>| call_requires(*kernel, (t,)),
            distinct_items(hor@),
            start == old(cache)@,
            distinct(start),
            refreshed(start, cache@),
            cache.limit() == old(cache).limit(),
            cache.kept() == old(cache).kept(),
            cache@ == row_reads(start, tile@, a, ra.pairs(), hor@.subrange(0, j as int)),
            !row@.contains_key(a),
            forall|b: u64|
                #[trigger] row@.contains_key(b) ==> is_finite(row@[b]) && cell_of(
                    tile@,
                    b,
                    a,
                ).is_none() && exists|k: int| 0 <= k < j && hor@[k].item == b,
            forall|k: int|
                0 <= k < j ==> similarity_row_settled(
                    kernel,
                    tile@,
                    start,
                    a,
                    ra.pairs(),
                    row@,
                    #[trigger] hor@[k],
                ),
        decreases hor@.len() - j,
    {
        let b: u64 = hor[j].item;
        let ghost before = row@;
        let ghost mid = cache@;
        proof {
            if before.contains_key(b) {
                let k = choose|k: int| 0 <= k < j && hor@[k].item == b;
                assert(hor@[k].item != hor@[j as int].item);
            }
            let next = hor@.subrange(0, j + 1);
            assert(next.drop_last() =~= hor@.subrange(0, j as int));
            assert(next.last() == hor@[j as int]);
        }
        if b != a && tile.cell(b, a).is_none() {
            match fast_adjusted_cosine(ra, &hor[j].raters, cache, kernel) {
                Ok(v) => {
                    proof {
                        lemma_similarity_stable(
                            kernel,
                            ra.pairs(),
                            hor@[j as int].raters@,
                            start,
                            mid,
                            Some(v),
                        );
                        assert(is_finite(v));
                    }
                    row.insert(b, v);
                },
                Err(_) => {
                    proof {
                        lemma_similarity_stable(
                            kernel,
                            ra.pairs(),
                            hor@[j as int].raters@,
                            start,
                            mid,
                            None,
                        );
                    }
                },
            }
        }
        proof {
            assert forall|c: u64| #[trigger] row@.contains_key(c) implies is_finite(row@[c])
                && cell_of(tile@, c, a).is_none() && exists|k: int|
                0 <= k < j + 1 && hor@[k].item == c by {
                if c == b && !before.contains_key(b) {
                    assert(hor@[j as int].item == c);
                } else {
                    assert(before.contains_key(c));
                    let k = choose|k: int| 0 <= k < j && hor@[k].item == c;
                    assert(hor@[k].item == c);
                }
            }
            assert forall|k: int| 0 <= k < j + 1 implies similarity_row_settled(
                kernel,
                tile@,
                start,
                a,
                ra.pairs(),
                row@,
                #[trigger] hor@[k],
            ) by {
                if k < j {
                    assert(similarity_row_settled(
                        kernel,
                        tile@,
                        start,
                        a,
                        ra.pairs(),
                        before,
                        hor@[k],
                    ));
                    assert(hor@[k].item != hor@[j as int].item);
                }
            }
        }
        j = j + 1;
    }
    assert(hor@.subrange(0, j as int) =~= hor@);
    let ghost before = row@;
    row.insert(a, ONE);
    proof {
        assert forall|b: u64| b != a && #[trigger] row@.contains_key(b) implies is_finite(row@[b])
            && cell_of(tile@, b, a).is_none() && has_item(hor@, b) by {
            assert(before.contains_key(b));
        }
        assert forall|k: int| 0 <= k < hor@.len() implies similarity_row_settled(
            kernel,
            tile@,
            start,
            a,
            ra.pairs(),
            row@,
            #[trigger] hor@[k],
        ) by {
            assert(similarity_row_settled(kernel, tile@, start, a, ra.pairs(), before, hor@[k]));
        }
    }
    row
}

/// The similarity tile of the rows `ver` against the columns `hor`: a row
/// for each row item with one on the diagonal, and for each row item against
/// a different column item the similarity that `kernel` comes to on the
/// cached means, unless the opposite direction holds a value already.
/// Nothing else is in the tile. Reading a mean counts as a read.
pub fn similarity_tile<K: Fn(&Vec<Centered>) -> Option<i64>>(
    ver: &Vec<ItemRaters>,
    hor: &Vec<ItemRaters>,
    cache: &mut MeanCache,
    kernel: &K,
) -> (tile: Tile)
    requires
        forall|t: &Vec<Centered>| call_requires(*kernel, (t,)),
        distinct_items(ver@),
        distinct_items(hor@),
    ensures
        similarity_tile_is(kernel, tile@, old(cache)@, ver@, hor@),
        final(cache)@ == tile_reads(old(cache)@, tile@, ver@, hor@),
        refreshed(old(cache)@, final(cache)@),
        final(cache).limit() == old(cache).limit(),
        final(cache).kept() == old(cache).kept(),
{
    let ghost start = cache@;
    cache.users_are_distinct();
    let mut tile = Tile::new();
    let mut i: usize = 0;
    while i < ver.len()
        invariant
            i <= ver@.len(),
            forall|t: &Vec<Centered>| call_requires(*kernel, (t,)),
            distinct_items(ver@),
            distinct_items(hor@),
            start == old(cache)@,
            distinct(start),
            refreshed(start, cache@),
            cache.limit() == old(cache).limit(),
            cache.kept() == old(cache).kept(),
            cache@ == tile_reads(start, tile@, ver@.subrange(0, i as int), hor@),
            forall|a: u64| tile@.contains_key(a) <==> has_item(ver@.subrange(0, i as int), a),
            diagonal(tile@, ONE),
            all_finite(tile@),
            exclusive(tile@),
            forall|a: u64, b: u64|
                a != b && (#[trigger] cell_of(tile@, a, b)).is_some() ==> has_item(ver@, a)
                    && has_item(hor@, b),
            forall|p: int, j: int|
                0 <= p < i && 0 <= j < hor@.len() ==> similarity_settled(
                    kernel,
                    tile@,
                    start,
                    #[trigger] ver@[p],
                    #[trigger] hor@[j],
                ),
        decreases ver@.len() - i,
    {
        let a: u64 = ver[i].item;
        let ghost mid = cache@;
        let row = similarity_row(a, &ver[i].raters, hor, &tile, cache, kernel);
        let ghost before = tile@;
        tile.put_row(a, row);
        proof {
            let after = tile@;
            let done = ver@.subrange(0, i as int);
            let next = ver@.subrange(0, i + 1);
            lemma_put_row(before, a, row@, ONE);
            assert(!before.contains_key(a)) by {
                if has_item(done, a) {
                    let k = choose|k: int| 0 <= k < done.len() && done[k].item == a;
                    assert(ver@[k].item != ver@[i as int].item);
                }
            }
            assert(next.drop_last() =~= done);
            assert(next.last() == ver@[i as int]);
            lemma_tile_reads_frame(start, before, a, row@, done, hor@);
            assert(rows_of(before, done) =~= before);
            assert forall|x: u64| after.contains_key(x) <==> has_item(next, x) by {
                if has_item(done, x) {
                    let k = choose|k: int| 0 <= k < done.len() && done[k].item == x;
                    assert(next[k].item == x);
                }
                if has_item(next, x) {
                    let k = choose|k: int| 0 <= k < next.len() && next[k].item == x;
                    if k < i {
                        assert(done[k].item == x);
                    }
                }
                if x == a {
                    assert(next[i as int].item == x);
                }
            }
            assert forall|x: u64, y: u64|
                x != y && (#[trigger] cell_of(after, x, y)).is_some() implies has_item(ver@, x)
                && has_item(hor@, y) by {
                if x == a {
                    assert(row@.contains_key(y));
                    assert(ver@[i as int].item == x);
                } else {
                    assert(cell_of(before, x, y).is_some());
                }
            }
            assert forall|p: int, j: int|
                0 <= p < i + 1 && 0 <= j < hor@.len() implies similarity_settled(
                kernel,
                after,
                start,
                #[trigger] ver@[p],
                #[trigger] hor@[j],
            ) by {
                if p < i {
                    assert(similarity_settled(kernel, before, start, ver@[p], hor@[j]));
                    assert(ver@[p].item != ver@[i as int].item);
                } else {
                    assert(similarity_row_settled(
                        kernel,
                        before,
                        mid,
                        a,
                        ver@[i as int].raters.pairs(),
                        row@,
                        hor@[j],
                    ));
                    if a != hor@[j].item {
                        lemma_similarity_stable(
                            kernel,
                            ver@[i as int].raters.pairs(),
                            hor@[j].raters@,
                            start,
                            mid,
                            Some(row@[hor@[j].item]),
                        );
                        lemma_similarity_stable(
                            kernel,
                            ver@[i as int].raters.pairs(),
                            hor@[j].raters@,
                            start,
                            mid,
                            None,
                        );
                    }
                }
            }
        }
        i = i + 1;
    }
    assert(ver@.subrange(0, i as int) =~= ver@);
    tile
}

} // verus!
