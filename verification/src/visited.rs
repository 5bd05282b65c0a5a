//! The set of grid states that a search has already reached.
//!
//! States are filed under their state key and compared by their colors, so
//! two states count as one exactly when every cell has the same color.

use crate::grid::Grid;
use crate::key::{cells_key, rows_key, rows_shaped, same_cells};
use crate::matrix::{matrix_rows, CellMatrix};
use std::collections::HashMap;
use vstd::prelude::*;
use vstd::std_specs::hash::*;

verus! {

/// A set of grid states of one shape.
pub struct VisitedSet {
    width: usize,
    height: usize,
    buckets: HashMap<u64, Vec<CellMatrix>>,
}

/// Some bucket holds a state with these colors.
spec fn filed(buckets: Map<u64, Vec<CellMatrix>>, rows: Seq<Seq<u8>>) -> bool {
    exists|key: u64, i: int|
        buckets.contains_key(key) && 0 <= i < buckets[key]@.len() && matrix_rows(
            #[trigger] buckets[key]@[i],
        ) == rows
}

/// Every state has the shape of the set and lies in the bucket of its key.
spec fn sorted(buckets: Map<u64, Vec<CellMatrix>>, width: int, height: int) -> bool {
    forall|key: u64, i: int|
        buckets.contains_key(key) && 0 <= i < buckets[key]@.len() ==> {
            let rows = matrix_rows(#[trigger] buckets[key]@[i]);
            rows_shaped(rows, width, height) && rows_key(rows) == key
        }
}

/// The bucket holds a state with these colors.
spec fn bucket_has(bucket: Seq<CellMatrix>, rows: Seq<Seq<u8>>) -> bool {
    exists|i: int| 0 <= i < bucket.len() && matrix_rows(#[trigger] bucket[i]) == rows
}

impl View for VisitedSet {
    type V = Set<Seq<Seq<u8>>>;

    /// The states in the set, each as its rows of colors.
    closed spec fn view(&self) -> Set<Seq<Seq<u8>>> {
        Set::new(|rows: Seq<Seq<u8>>| filed(self.buckets@, rows))
    }
}

fn bucket_holds(bucket: &Vec<CellMatrix>, m: &CellMatrix, width: usize, height: usize) -> (found:
    bool)
    requires
        rows_shaped(matrix_rows(*m), width as int, height as int),
        forall|i: int|
            0 <= i < bucket@.len() ==> rows_shaped(
                matrix_rows(#[trigger] bucket@[i]),
                width as int,
                height as int,
            ),
    ensures
        found == bucket_has(bucket@, matrix_rows(*m)),
{
    let mut i: usize = 0;
    while i < bucket.len()
        invariant
            i <= bucket@.len(),
            rows_shaped(matrix_rows(*m), width as int, height as int),
            forall|k: int|
                0 <= k < bucket@.len() ==> rows_shaped(
                    matrix_rows(#[trigger] bucket@[k]),
                    width as int,
                    height as int,
                ),
            forall|k: int| 0 <= k < i ==> matrix_rows(#[trigger] bucket@[k]) != matrix_rows(*m),
        decreases bucket@.len() - i,
    {
        if same_cells(&bucket[i], m, width, height) {
            return true;
        }
        i = i + 1;
    }
    false
}

impl VisitedSet {
    /// The width of the states that the set takes.
    pub closed spec fn width(&self) -> nat {
        self.width as nat
    }

    /// The height of the states that the set takes.
    pub closed spec fn height(&self) -> nat {
        self.height as nat
    }

    /// The set is consistent with itself.
    pub closed spec fn wf(&self) -> bool {
        sorted(self.buckets@, self.width as int, self.height as int)
    }

    /// An empty set for states of the given shape.
    pub fn new(width: usize, height: usize) -> (set: VisitedSet)
        ensures
            set.wf(),
            set.width() == width,
            set.height() == height,
            set@ == Set::<Seq<Seq<u8>>>::empty(),
    {
        let set = VisitedSet { width, height, buckets: HashMap::new() };
        proof {
            assert(set@ =~= Set::<Seq<Seq<u8>>>::empty());
        }
        set
    }

    /// Adds the state of a grid to the set and tells whether it was new.
    pub fn insert(&mut self, grid: &Grid) -> (fresh: bool)
        requires
            old(self).wf(),
            grid@.shaped(),
            grid@.width == old(self).width(),
            grid@.height == old(self).height(),
        ensures
            final(self).wf(),
            final(self).width() == old(self).width(),
            final(self).height() == old(self).height(),
            final(self)@ == old(self)@.insert(grid@.rows),
            fresh == !old(self)@.contains(grid@.rows),
    {
        broadcast use group_hash_axioms;

        let m = grid.snapshot();
        let ghost rows = matrix_rows(m);
        let key = cells_key(&m, self.width, self.height);
        let ghost before = self.buckets@;
        let taken = self.buckets.remove(&key);
        match taken {
            Some(mut bucket) => {
                let ghost earlier = bucket@;
                let found = bucket_holds(&bucket, &m, self.width, self.height);
                if !found {
                    bucket.push(m);
                }
                let ghost later = bucket@;
                self.buckets.insert(key, bucket);
                proof {
                    let after = self.buckets@;
                    assert(before.contains_key(key) && before[key]@ == earlier);
                    assert forall|k: u64, i: int|
                        after.contains_key(k) && 0 <= i < after[k]@.len() implies {
                        let held = matrix_rows(#[trigger] after[k]@[i]);
                        rows_shaped(held, self.width as int, self.height as int) && rows_key(held)
                            == k
                    } by {
                        if k != key {
                            assert(after[k] == before[k]);
                        } else if i < earlier.len() {
                            assert(after[k]@[i] == before[key]@[i]);
                        }
                    }
                    assert forall|held: Seq<Seq<u8>>| filed(before, held) implies filed(
                        after,
                        held,
                    ) by {
                        let (k, i) = choose|k: u64, i: int|
                            before.contains_key(k) && 0 <= i < before[k]@.len() && matrix_rows(
                                #[trigger] before[k]@[i],
                            ) == held;
                        if k != key {
                            assert(after[k] == before[k]);
                        }
                        assert(matrix_rows(after[k]@[i]) == held);
                    }
                    assert forall|held: Seq<Seq<u8>>| filed(after, held) implies filed(
                        before,
                        held,
                    ) || held == rows by {
                        let (k, i) = choose|k: u64, i: int|
                            after.contains_key(k) && 0 <= i < after[k]@.len() && matrix_rows(
                                #[trigger] after[k]@[i],
                            ) == held;
                        if k != key {
                            assert(after[k] == before[k]);
                            assert(matrix_rows(before[k]@[i]) == held);
                        } else if i < earlier.len() {
                            assert(matrix_rows(before[k]@[i]) == held);
                        }
                    }
                    if found {
                        let i = choose|i: int|
                            0 <= i < earlier.len() && matrix_rows(#[trigger] earlier[i]) == rows;
                        assert(matrix_rows(before[key]@[i]) == rows);
                        assert(filed(before, rows));
                    } else {
                        assert(matrix_rows(after[key]@[earlier.len() as int]) == rows);
                        assert(filed(after, rows));
                        if filed(before, rows) {
                            let (k, i) = choose|k: u64, i: int|
                                before.contains_key(k) && 0 <= i < before[k]@.len()
                                    && matrix_rows(#[trigger] before[k]@[i]) == rows;
                            assert(k == key);
                            assert(matrix_rows(earlier[i]) == rows);
                            assert(false);
                        }
                    }
                    assert(self@ =~= old(self)@.insert(rows));
                }
                !found
            },
            None => {
                let mut bucket: Vec<CellMatrix> = Vec::new();
                bucket.push(m);
                self.buckets.insert(key, bucket);
                proof {
                    let after = self.buckets@;
                    assert(!before.contains_key(key));
                    assert forall|k: u64, i: int|
                        after.contains_key(k) && 0 <= i < after[k]@.len() implies {
                        let held = matrix_rows(#[trigger] after[k]@[i]);
                        rows_shaped(held, self.width as int, self.height as int) && rows_key(held)
                            == k
                    } by {
                        if k != key {
                            assert(after[k] == before[k]);
                        }
                    }
                    assert forall|held: Seq<Seq<u8>>| filed(before, held) implies filed(
                        after,
                        held,
                    ) by {
                        let (k, i) = choose|k: u64, i: int|
                            before.contains_key(k) && 0 <= i < before[k]@.len() && matrix_rows(
                                #[trigger] before[k]@[i],
                            ) == held;
                        assert(after[k] == before[k]);
                        assert(matrix_rows(after[k]@[i]) == held);
                    }
                    assert forall|held: Seq<Seq<u8>>| filed(after, held) implies filed(
                        before,
                        held,
                    ) || held == rows by {
                        let (k, i) = choose|k: u64, i: int|
                            after.contains_key(k) && 0 <= i < after[k]@.len() && matrix_rows(
                                #[trigger] after[k]@[i],
                            ) == held;
                        if k != key {
                            assert(after[k] == before[k]);
                            assert(matrix_rows(before[k]@[i]) == held);
                        }
                    }
                    assert(matrix_rows(after[key]@[0]) == rows);
                    assert(filed(after, rows));
                    if filed(before, rows) {
                        let (k, i) = choose|k: u64, i: int|
                            before.contains_key(k) && 0 <= i < before[k]@.len() && matrix_rows(
                                #[trigger] before[k]@[i],
                            ) == rows;
                        assert(k == key);
                        assert(false);
                    }
                    assert(self@ =~= old(self)@.insert(rows));
                }
                true
            },
        }
    }
}

} // verus!
