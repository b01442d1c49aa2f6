//! Flat storage of the 81 digit values (0 = unknown) with a parallel
//! conflict-flag array, and the pairwise-conflict validator.

use vstd::prelude::*;

use crate::board_neighbours::is_peer;
use crate::board_neighbours::neighbours;
use crate::board_neighbours::to_index;

verus! {

/// The cell at `idx` breaks no uniqueness rule: no peer holds the same
/// nonzero value.
pub open spec fn square_ok(values: Seq<u8>, idx: int) -> bool {
    forall|n: int| 0 <= n < 81 && #[trigger] is_peer(n, idx) ==> !(values[n] == values[idx]
        && values[n] != 0)
}

/// A 9x9 grid: 81 digit values in `{0..9}` and, per cell, the conflict flag
/// computed by the last validation pass.
pub struct Board {
    data: Vec<u8>,
    problems: Vec<bool>,
}

impl Board {
    /// The 81 stored digit values.
    pub closed spec fn values(&self) -> Seq<u8> {
        self.data@
    }

    /// Both arrays hold 81 entries and every value is a digit or 0.
    pub open spec fn wf(&self) -> bool {
        &&& self.values().len() == 81
        &&& self.conflicts().len() == 81
        &&& forall|i: int| 0 <= i < 81 ==> self.values()[i] <= 9
    }

    /// The 81 conflict flags of the last validation pass.
    pub closed spec fn conflicts(&self) -> Seq<bool> {
        self.problems@
    }

    /// An empty grid: every value unknown, no conflict flagged.
    pub fn new() -> (b: Board)
        ensures
            b.wf(),
            forall|i: int| 0 <= i < 81 ==> b.values()[i] == 0,
            forall|i: int| 0 <= i < 81 ==> !b.conflicts()[i],
    {
        let mut data: Vec<u8> = Vec::new();
        let mut problems: Vec<bool> = Vec::new();
        for k in 0..81usize
            invariant
                data@.len() == k,
                problems@.len() == k,
                forall|i: int| 0 <= i < k ==> data@[i] == 0,
                forall|i: int| 0 <= i < k ==> !problems@[i],
        {
            data.push(0);
            problems.push(false);
        }
        Board { data, problems }
    }

    /// A grid holding the 81 given values, with no conflict flagged yet.
    pub fn from_array(data: [u8; 81]) -> (b: Board)
        requires
            forall|i: int| 0 <= i < 81 ==> data@[i] <= 9,
        ensures
            b.wf(),
            b.values() == data@,
            forall|i: int| 0 <= i < 81 ==> !b.conflicts()[i],
    {
        let mut values: Vec<u8> = Vec::new();
        let mut problems: Vec<bool> = Vec::new();
        for k in 0..81usize
            invariant
                forall|i: int| 0 <= i < 81 ==> data@[i] <= 9,
                values@.len() == k,
                problems@.len() == k,
                forall|i: int| 0 <= i < k ==> values@[i] == data@[i],
                forall|i: int| 0 <= i < k ==> !problems@[i],
        {
            values.push(data[k]);
            problems.push(false);
        }
        proof {
            assert(values@ =~= data@);
        }
        Board { data: values, problems }
    }

    /// True when the cell at (`row`, `column`) conflicts with no peer.
    pub fn validate_square(&self, row: u8, column: u8) -> (ok: bool)
        requires
            self.wf(),
            row < 9,
            column < 9,
        ensures
            ok == square_ok(self.values(), 9 * row + column),
    {
        let idx = to_index(row, column);
        let val = self.data[idx];
        let ns = neighbours(row, column);
        for k in 0..20usize
            invariant
                self.wf(),
                row < 9,
                column < 9,
                idx == 9 * row + column,
                val == self.values()[idx as int],
                ns@.len() == 20,
                forall|j: int| 0 <= j < 20 ==> (#[trigger] ns@[j]) < 81,
                forall|j: int| 0 <= j < 20 ==> #[trigger] is_peer(ns@[j] as int, idx as int),
                forall|n: int| 0 <= n < 81 && #[trigger] is_peer(n, idx as int) ==> ns@.contains(
                    n as usize,
                ),
                forall|j: int| 0 <= j < k ==> !(self.values()[#[trigger] ns@[j] as int] == val
                    && val != 0),
        {
            if self.data[ns[k]] == val && val != 0 {
                proof {
                    assert(is_peer(ns@[k as int] as int, idx as int));
                    assert(!square_ok(self.values(), idx as int));
                }
                return false;
            }
        }
        proof {
            assert forall|n: int| 0 <= n < 81 && #[trigger] is_peer(n, idx as int) implies !(
            self.values()[n] == val && val != 0) by {
                assert(ns@.contains(n as usize));
                let j = choose|j: int| 0 <= j < ns@.len() && ns@[j] == n as usize;
                assert(!(self.values()[ns@[j] as int] == val && val != 0));
            }
        }
        true
    }

    /// Recomputes every cell's conflict flag from the current values: the
    /// flag at `idx` is set exactly when the cell at `idx` conflicts with
    /// some peer. The values themselves are untouched.
    pub fn validate_all(&mut self)
        requires
            old(self).wf(),
        ensures
            final(self).wf(),
            final(self).values() == old(self).values(),
            forall|i: int| 0 <= i < 81 ==> final(self).conflicts()[i] == !square_ok(
                final(self).values(),
                i,
            ),
    {
        let mut problems: Vec<bool> = Vec::new();
        for k in 0..81usize
            invariant
                problems@.len() == k,
                forall|i: int| 0 <= i < k ==> !problems@[i],
        {
            problems.push(false);
        }
        self.problems = problems;
        for row in 0..9u8
            invariant
                self.wf(),
                self.values() == old(self).values(),
                forall|i: int| 0 <= i < 9 * row ==> self.conflicts()[i] == !square_ok(
                    self.values(),
                    i,
                ),
                forall|i: int| 9 * row <= i < 81 ==> !self.conflicts()[i],
        {
            for column in 0..9u8
                invariant
                    self.wf(),
                    row < 9,
                    self.values() == old(self).values(),
                    forall|i: int| 0 <= i < 9 * row + column ==> self.conflicts()[i] == !square_ok(
                        self.values(),
                        i,
                    ),
                    forall|i: int| 9 * row + column <= i < 81 ==> !self.conflicts()[i],
            {
                let ghost pre = self.conflicts();
                let ok = self.validate_square(row, column);
                if !ok {
                    let idx = to_index(row, column);
                    self.problems.set(idx, true);
                    proof {
                        assert(self.conflicts() == pre.update(idx as int, true));
                    }
                } else {
                    proof {
                        assert(self.conflicts() == pre);
                    }
                }
            }
        }
    }

    /// Stores a digit (or 0 for unknown) at the linear index.
    pub fn set(&mut self, index: usize, val: u8)
        requires
            old(self).wf(),
            index < 81,
            val <= 9,
        ensures
            final(self).wf(),
            final(self).values() == old(self).values().update(index as int, val),
            final(self).conflicts() == old(self).conflicts(),
    {
        self.data.set(index, val);
    }

    /// The value stored at the linear index.
    pub fn get(&self, index: usize) -> (val: u8)
        requires
            self.wf(),
            index < 81,
        ensures
            val == self.values()[index as int],
            val <= 9,
    {
        self.data[index]
    }

    /// Resets every value to unknown; the conflict flags are untouched.
    pub fn clear(&mut self)
        requires
            old(self).wf(),
        ensures
            final(self).wf(),
            forall|i: int| 0 <= i < 81 ==> final(self).values()[i] == 0,
            final(self).conflicts() == old(self).conflicts(),
    {
        let mut data: Vec<u8> = Vec::new();
        for k in 0..81usize
            invariant
                data@.len() == k,
                forall|i: int| 0 <= i < k ==> data@[i] == 0,
        {
            data.push(0);
        }
        self.data = data;
    }

    /// The conflict flag the last validation pass stored for the cell.
    pub fn get_error(&self, idx: usize) -> (flagged: bool)
        requires
            self.wf(),
            idx < 81,
        ensures
            flagged == self.conflicts()[idx as int],
    {
        self.problems[idx]
    }
}

/// Two equal nonzero values in the same row, column, or box make the
/// validator flag both cells: each fails `square_ok`, so after
/// `validate_all` both conflict flags are set.
pub proof fn lemma_conflict_pair_flagged(values: Seq<u8>, i: int, j: int)
    requires
        0 <= i < 81,
        0 <= j < 81,
        is_peer(i, j),
        values[i] == values[j],
        values[i] != 0,
    ensures
        !square_ok(values, i),
        !square_ok(values, j),
{
    assert(is_peer(j, i));
    assert(!(values[j] == values[i] && values[j] != 0) ==> false);
    assert(!(values[i] == values[j] && values[i] != 0) ==> false);
}

/// A grid with every value unknown has no conflict anywhere: after
/// `validate_all` no flag is set.
pub proof fn lemma_empty_grid_no_conflicts(values: Seq<u8>)
    requires
        forall|i: int| 0 <= i < 81 ==> values[i] == 0,
    ensures
        forall|idx: int| 0 <= idx < 81 ==> square_ok(values, idx),
{
}

} // verus!
