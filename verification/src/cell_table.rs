//! The associative index from occupied grid cells to accumulator slots.
//!
//! Spatial hashing is what turns the O(n²) neighbor problem into O(n): one
//! hash lookup per point instead of a scan. The table is backed by
//! `rustc_hash::FxHashMap`, a `std::collections::HashMap` with the fast,
//! deterministic Fx hasher. Verus does not read the map itself; the few
//! operations the library needs are stated over the table's contents and
//! trusted.

use vstd::prelude::*;
use rustc_hash::FxHashMap;
use crate::grid::Cell;

verus! {

/// Maps each occupied cell to the slot of its accumulator, so aggregation
/// output can keep first-seen cell order while lookups stay O(1).
#[verifier::external_body]
pub struct CellTable {
    map: FxHashMap<Cell, usize>,
}

/// What a `CellTable` holds: the finite map from occupied cells to slots.
pub uninterp spec fn cell_table_contents(t: CellTable) -> Map<Cell, usize>;

/// The contents of a table with no occupied cells.
pub open spec fn cell_table_empty() -> Map<Cell, usize> {
    Map::empty()
}

impl CellTable {
    /// Relies on `FxHashMap::default`: a fresh map is empty.
    #[verifier::external_body]
    pub fn new() -> (t: CellTable)
        ensures
            cell_table_contents(t) == cell_table_empty(),
    {
        CellTable { map: FxHashMap::default() }
    }

    /// Relies on `HashMap::get` (`FxHashMap` is std's `HashMap` with the Fx
    /// hasher, and `Cell`'s derived `Eq` and `Hash` compare and hash its
    /// three fields): returns the slot the cell maps to, if any.
    #[verifier::external_body]
    pub fn get(&self, k: Cell) -> (r: Option<usize>)
        ensures
            r == if cell_table_contents(*self).contains_key(k) {
                Some(cell_table_contents(*self)[k])
            } else {
                None::<usize>
            },
    {
        self.map.get(&k).copied()
    }

    /// Relies on `HashMap::insert`: afterward the given cell maps to `slot`
    /// and every other cell maps as before.
    #[verifier::external_body]
    pub fn insert(&mut self, k: Cell, slot: usize)
        ensures
            cell_table_contents(*final(self)) == cell_table_contents(*old(self)).insert(k, slot),
    {
        self.map.insert(k, slot);
    }
}

} // verus!
