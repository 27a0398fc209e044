//! Surface heights by position, as far as they have been sampled.
//!
//! Heights are written once: a later sample of a position that has one is
//! ignored, so whatever was derived from a height stays valid.

use crate::double::Double;
use std::collections::HashMap;
use vstd::prelude::*;
use vstd::std_specs::hash::group_hash_axioms;

verus! {

broadcast use group_hash_axioms;

/// The key of a column: its two coordinates in one number.
pub open spec fn spec_column_key(x: int, z: int) -> int {
    x * 0x1_0000_0000_0000_0000 + (z + 0x8000_0000_0000_0000)
}

/// The key of a column: its two coordinates in one number.
pub fn column_key(x: i64, z: i64) -> (r: i128)
    ensures
        r == spec_column_key(x as int, z as int),
{
    x as i128 * 0x1_0000_0000_0000_0000 + (z as i128 + 0x8000_0000_0000_0000)
}

/// Columns with one key are the same column.
pub proof fn column_keys_differ(x0: i64, z0: i64, x1: i64, z1: i64)
    requires
        spec_column_key(x0 as int, z0 as int) == spec_column_key(x1 as int, z1 as int),
    ensures
        x0 == x1,
        z0 == z1,
{
}

/// The sampled surface heights.
pub struct HeightTable {
    cells: HashMap<i128, u64>,
}

impl HeightTable {
    /// Whether the height of a position has been sampled.
    pub closed spec fn known(&self, x: i64, z: i64) -> bool {
        self.cells@.contains_key(spec_column_key(x as int, z as int) as i128)
    }

    /// The height of a position that has been sampled.
    pub closed spec fn at(&self, x: i64, z: i64) -> Double {
        if self.known(x, z) {
            Double { bits: self.cells@[spec_column_key(x as int, z as int) as i128] }
        } else {
            Double { bits: 0 }
        }
    }

    /// Whether all heights of a rectangle have been sampled.
    pub open spec fn covers(&self, min_x: int, max_x: int, min_z: int, max_z: int) -> bool {
        forall|x: i64, z: i64|
            min_x <= x <= max_x && min_z <= z <= max_z ==> #[trigger] self.known(x, z)
    }

    /// What is known, over and above one sampled position.
    pub open spec fn gained(&self, before: &HeightTable, x: i64, z: i64, h: Double) -> bool {
        forall|a: i64, b: i64|
            #![trigger self.known(a, b)]
            #![trigger self.at(a, b)]
            if a == x && b == z && !before.known(a, b) {
                self.known(a, b) && self.at(a, b) == h
            } else {
                self.known(a, b) == before.known(a, b) && self.at(a, b) == before.at(a, b)
            }
    }

    /// A table without samples.
    pub fn new() -> (r: HeightTable)
        ensures
            forall|x: i64, z: i64| !(#[trigger] r.known(x, z)),
            forall|x: i64, z: i64| (#[trigger] r.at(x, z)) == (Double { bits: 0 }),
    {
        HeightTable { cells: HashMap::new() }
    }

    /// Whether the height of a position has been sampled.
    pub fn is_known(&self, x: i64, z: i64) -> (r: bool)
        ensures
            r == self.known(x, z),
    {
        self.cells.contains_key(&column_key(x, z))
    }

    /// The height of a position that has been sampled.
    pub fn height(&self, x: i64, z: i64) -> (r: Double)
        requires
            self.known(x, z),
        ensures
            r == self.at(x, z),
    {
        match self.cells.get(&column_key(x, z)) {
            Some(bits) => Double { bits: *bits },
            None => Double { bits: 0 },
        }
    }

    /// Takes a sample, unless the position has one.
    pub fn supply(&mut self, x: i64, z: i64, h: Double)
        ensures
            final(self).gained(old(self), x, z, h),
    {
        let key: i128 = column_key(x, z);
        if !self.cells.contains_key(&key) {
            self.cells.insert(key, h.bits);
            proof {
                assert forall|a: i64, b: i64|
                    spec_column_key(a as int, b as int) as i128 == key implies a == x && b
                    == z by {
                    column_keys_differ(a, b, x, z);
                }
            }
        }
    }
}

} // verus!
