//! One rectangular block of the item-by-item matrix, stored sparsely by row.
use crate::ratings::Ratings;
use crate::score::{is_finite, ONE, ZERO};
use std::collections::HashMap;
use vstd::prelude::*;

verus! {

broadcast use vstd::std_specs::hash::group_hash_axioms;

/// The cells of a tile: row item, then column item.
pub type Cells = Map<u64, Map<u64, i64>>;

/// The value at row `a`, column `b`, if the tile holds one.
pub open spec fn cell_of(t: Cells, a: u64, b: u64) -> Option<i64> {
    if t.contains_key(a) && t[a].contains_key(b) {
        Some(t[a][b])
    } else {
        None
    }
}

/// A tile.
pub struct Tile {
    rows: HashMap<u64, Ratings>,
}

impl View for Tile {
    type V = Cells;

    closed spec fn view(&self) -> Cells {
        Map::new(|a: u64| self.rows@.contains_key(a), |a: u64| self.rows@[a]@)
    }
}

impl Tile {
    /// The tile without rows.
    pub fn new() -> (t: Tile)
        ensures
            t@ == Map::<u64, Map<u64, i64>>::empty(),
    {
        let t = Tile { rows: HashMap::new() };
        assert(t@ =~= Map::<u64, Map<u64, i64>>::empty());
        t
    }

    /// Number of rows.
    pub fn len(&self) -> (n: usize)
        ensures
            n == self@.dom().len(),
            self@.dom().finite(),
    {
        assert(self@.dom() =~= self.rows@.dom());
        self.rows.len()
    }

    /// Whether the tile has a row for `a`.
    pub fn has_row(&self, a: u64) -> (b: bool)
        ensures
            b == self@.contains_key(a),
    {
        self.rows.contains_key(&a)
    }

    /// The value at row `a`, column `b`.
    pub fn cell(&self, a: u64, b: u64) -> (r: Option<i64>)
        ensures
            r == cell_of(self@, a, b),
    {
        match self.rows.get(&a) {
            Some(row) => row.get(b),
            None => None,
        }
    }

    /// Sets the whole row of `a`.
    pub fn put_row(&mut self, a: u64, row: Ratings)
        ensures
            final(self)@ == old(self)@.insert(a, row@),
    {
        self.rows.insert(a, row);
        assert(self@ =~= old(self)@.insert(a, row@));
    }
}

/// No two different items hold a value for each other.
pub open spec fn exclusive(t: Cells) -> bool {
    forall|a: u64, b: u64|
        a != b && (#[trigger] cell_of(t, a, b)).is_some() ==> cell_of(t, b, a).is_none()
}

/// Every value of the tile is finite.
pub open spec fn all_finite(t: Cells) -> bool {
    forall|a: u64, b: u64| (#[trigger] cell_of(t, a, b)) matches Some(v) ==> is_finite(v)
}

/// Every row holds `d` on the diagonal.
pub open spec fn diagonal(t: Cells, d: i64) -> bool {
    forall|a: u64| #[trigger] t.contains_key(a) ==> cell_of(t, a, a) == Some(d)
}

/// A deviation tile as `deviation_tile` builds it.
pub open spec fn deviation_wf(t: Cells) -> bool {
    diagonal(t, ZERO) && all_finite(t) && exclusive(t)
}

/// A similarity tile as `similarity_tile` builds it.
pub open spec fn similarity_wf(t: Cells) -> bool {
    diagonal(t, ONE) && all_finite(t) && exclusive(t)
}

/// Setting the row of `a` keeps a tile well formed where the row holds the
/// diagonal value for `a` itself, only finite values, and no value for an
/// item that already holds one for `a`.
pub proof fn lemma_put_row(t: Cells, a: u64, row: Map<u64, i64>, d: i64)
    requires
        diagonal(t, d),
        all_finite(t),
        exclusive(t),
        is_finite(d),
        row.contains_key(a),
        row[a] == d,
        forall|b: u64|
            b != a && #[trigger] row.contains_key(b) ==> is_finite(row[b]) && cell_of(
                t,
                b,
                a,
            ).is_none(),
    ensures
        diagonal(t.insert(a, row), d),
        all_finite(t.insert(a, row)),
        exclusive(t.insert(a, row)),
{
    let after = t.insert(a, row);
    assert forall|x: u64, y: u64|
        x != y && (#[trigger] cell_of(after, x, y)).is_some() implies cell_of(
        after,
        y,
        x,
    ).is_none() by {
        if x == a {
            assert(row.contains_key(y));
            assert(cell_of(t, y, a).is_none());
        } else {
            assert(cell_of(t, x, y).is_some());
            if y == a {
                if row.contains_key(x) {
                    assert(cell_of(t, x, a).is_none());
                }
            }
        }
    }
    assert forall|x: u64, y: u64| (#[trigger] cell_of(after, x, y)).is_some() implies is_finite(
        cell_of(after, x, y).unwrap(),
    ) by {
        if x == a {
            assert(row.contains_key(y));
        } else {
            assert(cell_of(t, x, y).is_some());
        }
    }
    assert forall|x: u64| #[trigger] after.contains_key(x) implies cell_of(after, x, x) == Some(
        d,
    ) by {
        if x != a {
            assert(t.contains_key(x));
        }
    }
}

/// The value that a deviation tile gives for the pair `(a, b)`: its own
/// cell, else the negated cell of the opposite direction.
pub open spec fn deviation_lookup(t: Cells, a: u64, b: u64) -> Option<i64> {
    match cell_of(t, a, b) {
        Some(v) => Some(v),
        None => match cell_of(t, b, a) {
            Some(v) => if is_finite(v) {
                Some((-v) as i64)
            } else {
                None
            },
            None => None,
        },
    }
}

/// The value that a similarity tile gives for the pair `(a, b)`: its own
/// cell, else the cell of the opposite direction.
pub open spec fn similarity_lookup(t: Cells, a: u64, b: u64) -> Option<i64> {
    match cell_of(t, a, b) {
        Some(v) => Some(v),
        None => cell_of(t, b, a),
    }
}

/// In a deviation tile the two directions of a pair are each other's
/// negation wherever both have a value.
pub proof fn lemma_deviation_antisymmetric(t: Cells, a: u64, b: u64)
    requires
        deviation_wf(t),
        deviation_lookup(t, a, b).is_some(),
        deviation_lookup(t, b, a).is_some(),
    ensures
        deviation_lookup(t, a, b).unwrap() == -deviation_lookup(t, b, a).unwrap(),
{
    if a == b {
        assert(cell_of(t, a, a).is_some());
        assert(t.contains_key(a));
    } else {
        if cell_of(t, a, b).is_some() {
            assert(cell_of(t, b, a).is_none());
            assert(is_finite(cell_of(t, a, b).unwrap()));
        } else {
            assert(cell_of(t, b, a).is_some());
        }
    }
}

/// Every row of a tile gives its diagonal value for the pair of its item
/// with itself.
pub proof fn lemma_diagonal_value(t: Cells, d: i64, a: u64)
    requires
        diagonal(t, d),
        t.contains_key(a),
    ensures
        deviation_lookup(t, a, a) == Some(d),
        similarity_lookup(t, a, a) == Some(d),
{
}

} // verus!
