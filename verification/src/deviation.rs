//! The slope-one deviation tile.
use crate::chunks::{distinct_items, has_item};
use crate::distances::{deviation_is, slope_one};
use crate::pairing::{shared, Term};
use crate::ratings::Ratings;
use crate::score::{is_finite, ZERO};
use crate::store::ItemRaters;
use crate::tile::{
    all_finite, cell_of, deviation_lookup, diagonal, exclusive, lemma_put_row, Cells, Tile,
};
use vstd::prelude::*;

verus! {

/// What the tile `t` holds for a row item against a different column item:
/// its cell is the deviation that the kernel comes to, or it is empty
/// because the opposite cell is not, or because the kernel comes to none.
pub open spec fn deviation_settled<K: Fn(&Vec<Term>) -> Option<i64>>(
    kernel: &K,
    t: Cells,
    ver: ItemRaters,
    hor: ItemRaters,
) -> bool {
    ver.item != hor.item ==> match cell_of(t, ver.item, hor.item) {
        Some(v) => deviation_is(kernel, ver.raters.pairs(), hor.raters@, Some(v)),
        None => cell_of(t, hor.item, ver.item).is_some() || deviation_is(
            kernel,
            ver.raters.pairs(),
            hor.raters@,
            None,
        ),
    }
}

/// What the row of `a` holds for a different column item, next to the tile
/// `t` of the rows before it.
pub open spec fn deviation_row_settled<K: Fn(&Vec<Term>) -> Option<i64>>(
    kernel: &K,
    t: Cells,
    a: u64,
    pairs: Seq<(u64, i64)>,
    row: Map<u64, i64>,
    hor: ItemRaters,
) -> bool {
    a != hor.item ==> if row.contains_key(hor.item) {
        deviation_is(kernel, pairs, hor.raters@, Some(row[hor.item]))
    } else {
        cell_of(t, hor.item, a).is_some() || deviation_is(kernel, pairs, hor.raters@, None)
    }
}

/// `cells` are the deviation tile of the rows `ver` against the columns
/// `hor`: a row for each row item and no other, zero on the diagonal, only
/// finite values, no two different items holding a value for each other,
/// no value but between a row item and a column item, and every row item
/// settled against every column item.
pub open spec fn deviation_tile_is<K: Fn(&Vec<Term>) -> Option<i64>>(
    kernel: &K,
    cells: Cells,
    ver: Seq<ItemRaters>,
    hor: Seq<ItemRaters>,
) -> bool {
    &&& forall|a: u64| cells.contains_key(a) <==> has_item(ver, a)
    &&& diagonal(cells, ZERO)
    &&& all_finite(cells)
    &&& exclusive(cells)
    &&& forall|a: u64, b: u64|
        a != b && (#[trigger] cell_of(cells, a, b)).is_some() ==> has_item(ver, a) && has_item(
            hor,
            b,
        )
    &&& forall|i: int, j: int|
        0 <= i < ver.len() && 0 <= j < hor.len() ==> deviation_settled(
            kernel,
            cells,
            #[trigger] ver[i],
            #[trigger] hor[j],
        )
}

/// In the deviation tile of `ver` against `hor` every row item gives zero
/// for the pair with itself, and holds no value for a different column
/// item that shares no rater with it.
pub proof fn lemma_deviation_tile<K: Fn(&Vec<Term>) -> Option<i64>>(
    kernel: &K,
    cells: Cells,
    ver: Seq<ItemRaters>,
    hor: Seq<ItemRaters>,
    i: int,
    j: int,
)
    requires
        deviation_tile_is(kernel, cells, ver, hor),
        0 <= i < ver.len(),
        0 <= j < hor.len(),
    ensures
        deviation_lookup(cells, ver[i].item, ver[i].item) == Some(ZERO),
        ver[i].item != hor[j].item && shared(ver[i].raters.pairs(), hor[j].raters@).len() == 0
            ==> cell_of(cells, ver[i].item, hor[j].item).is_none(),
{
    assert(has_item(ver, ver[i].item));
    assert(cells.contains_key(ver[i].item));
    assert(deviation_settled(kernel, cells, ver[i], hor[j]));
}

/// The row of item `a` in a deviation tile.
fn deviation_row<K: Fn(&Vec<Term>) -> Option<i64>>(
    a: u64,
    ra: &Ratings,
    hor: &Vec<ItemRaters>,
    tile: &Tile,
    kernel: &K,
) -> (row: Ratings)
    requires
        forall|t: &Vec<Term>| call_requires(*kernel, (t,)),
        distinct_items(hor@),
    ensures
        row@.contains_key(a),
        row@[a] == ZERO,
        forall|b: u64|
            b != a && #[trigger] row@.contains_key(b) ==> is_finite(row@[b]) && cell_of(
                tile@,
                b,
                a,
            ).is_none() && has_item(hor@, b),
        forall|j: int|
            0 <= j < hor@.len() ==> deviation_row_settled(
                kernel,
                tile@,
                a,
                ra.pairs(),
                row@,
                #[trigger] hor@[j],
            ),
{
    let mut row = Ratings::new();
    let mut j: usize = 0;
    while j < hor.len()
        invariant
            j <= hor@.len(),
            forall|t: &Vec<Term>| call_requires(*kernel, (t,)),
            distinct_items(hor@),
            !row@.contains_key(a),
            forall|b: u64|
                #[trigger] row@.contains_key(b) ==> is_finite(row@[b]) && cell_of(
                    tile@,
                    b,
                    a,
                ).is_none() && exists|k: int| 0 <= k < j && hor@[k].item == b,
            forall|k: int|
                0 <= k < j ==> deviation_row_settled(
                    kernel,
                    tile@,
                    a,
                    ra.pairs(),
                    row@,
                    #[trigger] hor@[k],
                ),
        decreases hor@.len() - j,
    {
        let b: u64 = hor[j].item;
        let ghost before = row@;
        proof {
            if before.contains_key(b) {
                let k = choose|k: int| 0 <= k < j && hor@[k].item == b;
                assert(hor@[k].item != hor@[j as int].item);
            }
        }
        if b != a && tile.cell(b, a).is_none() {
            match slope_one(ra, &hor[j].raters, kernel) {
                Ok((v, _)) => {
                    assert(is_finite(v)) by {
                        assert(deviation_is(kernel, ra.pairs(), hor@[j as int].raters@, Some(v)));
                    }
                    row.insert(b, v);
                },
                Err(_) => {},
            }
        }
        proof {
            assert forall|c: u64| #[trigger] row@.contains_key(c) implies is_finite(row@[c])
                && cell_of(tile@, c, a).is_none() && exists|k: int|
                0 <= k < j + 1 && hor@[k].item == c by {
                if c == b && !before.contains_key(b) {
                    assert(hor@[j as int].item == c);
                } else {
                    assert(before.contains_key(c));
                    let k = choose|k: int| 0 <= k < j && hor@[k].item == c;
                    assert(hor@[k].item == c);
                }
            }
            assert forall|k: int| 0 <= k < j + 1 implies deviation_row_settled(
                kernel,
                tile@,
                a,
                ra.pairs(),
                row@,
                #[trigger] hor@[k],
            ) by {
                if k < j {
                    assert(deviation_row_settled(
                        kernel,
                        tile@,
                        a,
                        ra.pairs(),
                        before,
                        hor@[k],
                    ));
                    assert(hor@[k].item != hor@[j as int].item);
                }
            }
        }
        j = j + 1;
    }
    let ghost before = row@;
    row.insert(a, ZERO);
    proof {
        assert forall|b: u64| b != a && #[trigger] row@.contains_key(b) implies is_finite(row@[b])
            && cell_of(tile@, b, a).is_none() && has_item(hor@, b) by {
            assert(before.contains_key(b));
        }
        assert forall|k: int| 0 <= k < hor@.len() implies deviation_row_settled(
            kernel,
            tile@,
            a,
            ra.pairs(),
            row@,
            #[trigger] hor@[k],
        ) by {
            assert(deviation_row_settled(kernel, tile@, a, ra.pairs(), before, hor@[k]));
        }
    }
    row
}

/// The deviation tile of the rows `ver` against the columns `hor`: a row for
/// each row item with zero on the diagonal, and for each row item against a
/// different column item the deviation that `kernel` comes to, unless the
/// opposite direction holds a value already. Nothing else is in the tile.
pub fn deviation_tile<K: Fn(&Vec<Term>) -> Option<i64>>(
    ver: &Vec<ItemRaters>,
    hor: &Vec<ItemRaters>,
    kernel: &K,
) -> (tile: Tile)
    requires
        forall|t: &Vec<Term>| call_requires(*kernel, (t,)),
        distinct_items(ver@),
        distinct_items(hor@),
    ensures
        deviation_tile_is(kernel, tile@, ver@, hor@),
{
    let mut tile = Tile::new();
    let mut i: usize = 0;
    while i < ver.len()
        invariant
            i <= ver@.len(),
            forall|t: &Vec<Term>| call_requires(*kernel, (t,)),
            distinct_items(ver@),
            distinct_items(hor@),
            forall|a: u64| tile@.contains_key(a) <==> has_item(ver@.subrange(0, i as int), a),
            diagonal(tile@, ZERO),
            all_finite(tile@),
            exclusive(tile@),
            forall|a: u64, b: u64|
                a != b && (#[trigger] cell_of(tile@, a, b)).is_some() ==> has_item(ver@, a)
                    && has_item(hor@, b),
            forall|p: int, j: int|
                0 <= p < i && 0 <= j < hor@.len() ==> deviation_settled(
                    kernel,
                    tile@,
                    #[trigger] ver@[p],
                    #[trigger] hor@[j],
                ),
        decreases ver@.len() - i,
    {
        let a: u64 = ver[i].item;
        let row = deviation_row(a, &ver[i].raters, hor, &tile, kernel);
        let ghost before = tile@;
        tile.put_row(a, row);
        proof {
            let after = tile@;
            let done = ver@.subrange(0, i as int);
            let next = ver@.subrange(0, i + 1);
            lemma_put_row(before, a, row@, ZERO);
            assert(!before.contains_key(a)) by {
                if has_item(done, a) {
                    let k = choose|k: int| 0 <= k < done.len() && done[k].item == a;
                    assert(ver@[k].item != ver@[i as int].item);
                }
            }
            assert forall|x: u64| after.contains_key(x) <==> has_item(next, x) by {
                if has_item(done, x) {
                    let k = choose|k: int| 0 <= k < done.len() && done[k].item == x;
                    assert(next[k].item == x);
                }
                if has_item(next, x) {
                    let k = choose|k: int| 0 <= k < next.len() && next[k].item == x;
                    if k < i {
                        assert(done[k].item == x);
                    }
                }
                if x == a {
                    assert(next[i as int].item == x);
                }
            }
            assert forall|x: u64, y: u64|
                x != y && (#[trigger] cell_of(after, x, y)).is_some() implies has_item(ver@, x)
                && has_item(hor@, y) by {
                if x == a {
                    assert(row@.contains_key(y));
                    assert(ver@[i as int].item == x);
                } else {
                    assert(cell_of(before, x, y).is_some());
                }
            }
            assert forall|p: int, j: int|
                0 <= p < i + 1 && 0 <= j < hor@.len() implies deviation_settled(
                kernel,
                after,
                #[trigger] ver@[p],
                #[trigger] hor@[j],
            ) by {
                if p < i {
                    assert(deviation_settled(kernel, before, ver@[p], hor@[j]));
                    assert(ver@[p].item != ver@[i as int].item);
                } else {
                    assert(deviation_row_settled(
                        kernel,
                        before,
                        a,
                        ver@[i as int].raters.pairs(),
                        row@,
                        hor@[j],
                    ));
                }
            }
        }
        i = i + 1;
    }
    assert(ver@.subrange(0, i as int) =~= ver@);
    tile
}

} // verus!
