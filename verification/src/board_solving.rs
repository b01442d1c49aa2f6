//! The propagation engine: per-cell candidate sets with a finished flag,
//! an assignment operation whose elimination cascade forces naked singles,
//! a hidden-single pass, and conversion from and to a `Board`.

use vstd::prelude::*;

use crate::board::Board;
use crate::board_neighbours::is_peer;
use crate::board_neighbours::neighbours;
use crate::board_neighbours::to_index;

verus! {

/// The candidate sets of the assignments made so far admit no completion:
/// some cell has no digit left. Once reported, the engine instance holds a
/// half-applied cascade and should be discarded.
#[derive(Clone, Copy, PartialEq, Eq, Debug)]
pub struct Contradiction;

/// Number of true entries of a boolean sequence.
pub open spec fn count_true(s: Seq<bool>) -> int
    decreases s.len(),
{
    if s.len() == 0 {
        0
    } else {
        count_true(s.drop_last()) + if s.last() {
            1int
        } else {
            0int
        }
    }
}

pub proof fn lemma_count_true_bounds(s: Seq<bool>)
    ensures
        0 <= count_true(s) <= s.len(),
    decreases s.len(),
{
    if s.len() > 0 {
        lemma_count_true_bounds(s.drop_last());
    }
}

pub proof fn lemma_count_true_all_false(s: Seq<bool>)
    requires
        forall|i: int| 0 <= i < s.len() ==> !s[i],
    ensures
        count_true(s) == 0,
    decreases s.len(),
{
    if s.len() > 0 {
        lemma_count_true_all_false(s.drop_last());
    }
}

pub proof fn lemma_count_true_update(s: Seq<bool>, k: int, v: bool)
    requires
        0 <= k < s.len(),
    ensures
        count_true(s.update(k, v)) == count_true(s) - (if s[k] {
            1int
        } else {
            0int
        }) + (if v {
            1int
        } else {
            0int
        }),
    decreases s.len(),
{
    let t = s.update(k, v);
    if k == s.len() - 1 {
        assert(t.drop_last() =~= s.drop_last());
    } else {
        assert(t.drop_last() =~= s.drop_last().update(k, v));
        lemma_count_true_update(s.drop_last(), k, v);
    }
}

pub proof fn lemma_count_true_le(s1: Seq<bool>, s2: Seq<bool>)
    requires
        s1.len() == s2.len(),
        forall|i: int| 0 <= i < s1.len() && s1[i] ==> s2[i],
    ensures
        count_true(s1) <= count_true(s2),
    decreases s1.len(),
{
    if s1.len() > 0 {
        lemma_count_true_le(s1.drop_last(), s2.drop_last());
    }
}

/// A sequence that is true at `k` and false elsewhere has exactly one true.
pub proof fn lemma_count_true_singleton(s: Seq<bool>, k: int)
    requires
        0 <= k < s.len(),
        s[k],
        forall|l: int| 0 <= l < s.len() && l != k ==> !s[l],
    ensures
        count_true(s) == 1,
    decreases s.len(),
{
    if k == s.len() - 1 {
        lemma_count_true_all_false(s.drop_last());
    } else {
        lemma_count_true_singleton(s.drop_last(), k);
    }
}

/// Two distinct true positions give a count of at least two.
pub proof fn lemma_count_true_ge_two(s: Seq<bool>, a: int, b: int)
    requires
        0 <= a < b < s.len(),
        s[a],
        s[b],
    ensures
        count_true(s) >= 2,
    decreases s.len(),
{
    if b == s.len() - 1 {
        lemma_count_true_pos(s.drop_last(), a);
    } else {
        lemma_count_true_ge_two(s.drop_last(), a, b);
    }
}

/// A true position gives a count of at least one.
pub proof fn lemma_count_true_pos(s: Seq<bool>, a: int)
    requires
        0 <= a < s.len(),
        s[a],
    ensures
        count_true(s) >= 1,
    decreases s.len(),
{
    if a == s.len() - 1 {
        lemma_count_true_bounds(s.drop_last());
    } else {
        lemma_count_true_pos(s.drop_last(), a);
    }
}

/// In a sequence with exactly one true entry, two true positions coincide.
pub proof fn lemma_count_true_one_unique(s: Seq<bool>, a: int, b: int)
    requires
        count_true(s) == 1,
        0 <= a < s.len(),
        0 <= b < s.len(),
        s[a],
        s[b],
    ensures
        a == b,
{
    if a < b {
        lemma_count_true_ge_two(s, a, b);
    } else if b < a {
        lemma_count_true_ge_two(s, b, a);
    }
}

/// A sequence of only true entries has as many trues as entries.
pub proof fn lemma_count_true_all_true(s: Seq<bool>)
    requires
        forall|i: int| 0 <= i < s.len() ==> s[i],
    ensures
        count_true(s) == s.len(),
    decreases s.len(),
{
    if s.len() > 0 {
        lemma_count_true_all_true(s.drop_last());
    }
}

/// Counting a one-longer prefix adds the entry at its end.
pub proof fn lemma_count_true_extend(s: Seq<bool>, k: int)
    requires
        0 <= k < s.len(),
    ensures
        count_true(s.subrange(0, k + 1)) == count_true(s.subrange(0, k)) + (if s[k] {
            1int
        } else {
            0int
        }),
{
    assert(s.subrange(0, k + 1).drop_last() =~= s.subrange(0, k));
    assert(s.subrange(0, k + 1).last() == s[k]);
}

/// A complete, rule-abiding assignment: every one of the 81 cells holds a
/// digit 1..=9 and no two peers agree. The engine's contracts promise that
/// eliminations never cut off such a completion, and that a
/// `Contradiction` is only reported when none is left.
pub open spec fn full_solution(sol: Seq<u8>) -> bool {
    &&& sol.len() == 81
    &&& forall|i: int| 0 <= i < 81 ==> 1 <= #[trigger] sol[i] <= 9
    &&& forall|i: int, j: int|
        0 <= i < 81 && 0 <= j < 81 && #[trigger] is_peer(i, j) ==> sol[i] != sol[j]
}

/// `sol` agrees with every nonzero value of a grid snapshot.
pub open spec fn agrees_with(sol: Seq<u8>, values: Seq<u8>) -> bool {
    forall|i: int| 0 <= i < 81 && values[i] != 0 ==> sol[i] == #[trigger] values[i]
}

/// In a complete solution, nine pairwise-constraining cells hold nine
/// distinct digits, so every digit 1..=9 appears among them.
proof fn lemma_group_digit_present(sol: Seq<u8>, cells: Seq<usize>, d: int)
    requires
        full_solution(sol),
        cells.len() == 9,
        forall|k: int| 0 <= k < 9 ==> (#[trigger] cells[k]) < 81,
        forall|k: int, l: int| 0 <= k < l < 9 ==> is_peer(cells[k] as int, cells[l] as int),
        1 <= d <= 9,
    ensures
        exists|k: int| 0 <= k < 9 && sol[#[trigger] cells[k] as int] == d,
{
    broadcast use vstd::seq_lib::group_seq_lib_default;
    broadcast use vstd::set::group_set_axioms;

    let vs = Seq::new(9, |k: int| sol[cells[k] as int] as int);
    assert forall|k: int, l: int|
        0 <= k < vs.len() && 0 <= l < vs.len() && k != l implies vs[k] != vs[l] by {
        if k < l {
            assert(is_peer(cells[k] as int, cells[l] as int));
        } else {
            assert(is_peer(cells[l] as int, cells[k] as int));
            assert(is_peer(cells[k] as int, cells[l] as int));
        }
        assert(sol[cells[k] as int] != sol[cells[l] as int]);
    }
    assert(vs.no_duplicates());
    if !(exists|k: int| 0 <= k < 9 && sol[#[trigger] cells[k] as int] == d) {
        vs.unique_seq_to_set();
        let others = vstd::set_lib::set_int_range(1, 10).remove(d);
        assert forall|x: int| vs.to_set().contains(x) implies others.contains(x) by {
            let k = choose|k: int| 0 <= k < vs.len() && vs[k] == x;
            assert(1 <= sol[cells[k] as int] <= 9);
            assert(sol[cells[k] as int] != d);
        }
        vstd::set_lib::lemma_int_range(1, 10);
        assert(others.len() == 8);
        vstd::set_lib::lemma_len_subset(vs.to_set(), others);
        assert(false);
    }
}

/// The engine: 81 cells, each with a nine-digit candidate set (entry `d-1`
/// means digit `d` is still possible) and a finished flag. The candidate
/// sets live in one flat array of 81 * 9 entries, cell-major.
pub struct BoardSolving {
    possible: Vec<bool>,
    finished: Vec<bool>,
}

impl BoardSolving {
    /// The flat candidate array (81 * 9 entries, cell-major).
    pub closed spec fn candidates_seq(&self) -> Seq<bool> {
        self.possible@
    }

    /// The 81 finished flags.
    pub closed spec fn finished_seq(&self) -> Seq<bool> {
        self.finished@
    }

    /// The nine candidate entries of one cell.
    pub open spec fn cell_candidates(&self, cell: int) -> Seq<bool> {
        self.candidates_seq().subrange(9 * cell, 9 * cell + 9)
    }

    /// Digit `d` (1..=9) is still possible for the cell.
    pub open spec fn candidate(&self, cell: int, d: int) -> bool {
        self.candidates_seq()[9 * cell + d - 1]
    }

    /// How many digits are still possible for the cell.
    pub open spec fn candidate_count(&self, cell: int) -> int {
        count_true(self.cell_candidates(cell))
    }

    /// The cell's value has been determined, directly or by force.
    pub open spec fn is_finished(&self, cell: int) -> bool {
        self.finished_seq()[cell]
    }

    /// How many cells are finished.
    pub open spec fn finished_count(&self) -> int {
        count_true(self.finished_seq())
    }

    /// Well-formed: 81 cells of 9 candidate entries, and every finished
    /// cell has a singleton candidate set (its assigned digit).
    pub open spec fn wf(&self) -> bool {
        &&& self.candidates_seq().len() == 729
        &&& self.finished_seq().len() == 81
        &&& forall|i: int| 0 <= i < 81 && self.is_finished(i) ==> self.candidate_count(i) == 1
    }

    /// No cell still holds a digit a finished peer has taken: an
    /// unfinished cell's candidate set lies in the complement of the
    /// digits finished among its neighbours, and two finished peers never
    /// share their digit. Assignments that return without a contradiction
    /// preserve this; a reported contradiction leaves a half-applied
    /// cascade behind, for which nothing is claimed.
    pub open spec fn consistent(&self) -> bool {
        forall|i: int, j: int, d: int|
            0 <= i < 81 && 0 <= j < 81 && 1 <= d <= 9 && #[trigger] is_peer(i, j)
                && self.is_finished(i) && #[trigger] self.candidate(i, d) ==> !self.candidate(
                j,
                d,
            )
    }

    /// The engine still admits the complete solution `sol`: every cell's
    /// digit under `sol` is among that cell's remaining candidates.
    pub open spec fn admits(&self, sol: Seq<u8>) -> bool {
        forall|c: int| 0 <= c < 81 ==> #[trigger] self.candidate(c, sol[c] as int)
    }

    /// No naked single is pending: every unfinished cell still has either
    /// no candidate or at least two. Assignments finish every cell their
    /// cascade reduces to a single candidate, so this is preserved
    /// whenever no contradiction is reported.
    pub open spec fn saturated(&self) -> bool {
        forall|c: int|
            0 <= c < 81 && !self.is_finished(c) ==> #[trigger] self.candidate_count(c) != 1
    }

    /// A digit removed from a cell's candidate set is accounted for: the
    /// cell itself ended finished, or some finished peer holds the digit.
    /// Eliminations never happen for any other reason.
    pub open spec fn removal_justified(&self, c: int, d: int) -> bool {
        self.is_finished(c) || (exists|q: int|
            #![auto]
            0 <= q < 81 && is_peer(q, c) && self.is_finished(q) && self.candidate(q, d))
    }

    /// Some cell of the group is already finished with digit `d`.
    pub open spec fn group_satisfied(&self, idxs: Seq<usize>, d: int) -> bool {
        exists|k: int|
            0 <= k < idxs.len() && self.is_finished(#[trigger] idxs[k] as int) && self.candidate(
                idxs[k] as int,
                d,
            )
    }

    /// How many cells of the group can still hold digit `d`.
    pub open spec fn group_holders(&self, idxs: Seq<usize>, d: int) -> int {
        count_true(Seq::new(idxs.len(), |k: int| self.candidate(idxs[k] as int, d)))
    }

    /// The group forces no assignment of digit `d`: it is already
    /// satisfied, or the number of cells that can still hold `d` is not
    /// exactly one.
    pub open spec fn no_hidden_single(&self, idxs: Seq<usize>, d: int) -> bool {
        self.group_satisfied(idxs, d) || self.group_holders(idxs, d) != 1
    }

    /// What an export writes for the cell: its sole remaining candidate if
    /// exactly one digit is left, else 0 (still unknown).
    pub open spec fn export_digit(&self, cell: int) -> int {
        if self.candidate_count(cell) == 1 {
            choose|d: int| 1 <= d <= 9 && self.candidate(cell, d)
        } else {
            0
        }
    }

    /// A fresh engine: every digit possible everywhere, no cell finished.
    pub fn new() -> (bs: BoardSolving)
        ensures
            bs.wf(),
            forall|i: int, d: int| 0 <= i < 81 && 1 <= d <= 9 ==> bs.candidate(i, d),
            forall|i: int| 0 <= i < 81 ==> !bs.is_finished(i),
            bs.consistent(),
            bs.saturated(),
    {
        let mut possible: Vec<bool> = Vec::new();
        let mut finished: Vec<bool> = Vec::new();
        for k in 0..729usize
            invariant
                possible@.len() == k,
                forall|i: int| 0 <= i < k ==> possible@[i],
        {
            possible.push(true);
        }
        for k in 0..81usize
            invariant
                finished@.len() == k,
                forall|i: int| 0 <= i < k ==> !finished@[i],
        {
            finished.push(false);
        }
        let bs = BoardSolving { possible, finished };
        proof {
            assert forall|c: int| 0 <= c < 81 implies #[trigger] bs.candidate_count(c) == 9 by {
                lemma_count_true_all_true(bs.cell_candidates(c));
            }
        }
        bs
    }

    /// Counts the digits still possible for the cell.
    fn count_candidates(&self, cell: usize) -> (n: usize)
        requires
            self.candidates_seq().len() == 729,
            cell < 81,
        ensures
            n == self.candidate_count(cell as int),
            n <= 9,
    {
        let mut n: usize = 0;
        for d in 0..9usize
            invariant
                self.candidates_seq().len() == 729,
                cell < 81,
                n <= d,
                n == count_true(self.cell_candidates(cell as int).subrange(0, d as int)),
        {
            proof {
                lemma_count_true_extend(self.cell_candidates(cell as int), d as int);
            }
            if self.possible[9 * cell + d] {
                n = n + 1;
            }
        }
        proof {
            assert(self.cell_candidates(cell as int).subrange(0, 9) =~= self.cell_candidates(
                cell as int,
            ));
        }
        n
    }

    /// Returns some digit still possible for the cell; with a singleton
    /// candidate set this is the cell's one remaining digit.
    fn some_candidate(&self, cell: usize) -> (d: u8)
        requires
            self.candidates_seq().len() == 729,
            cell < 81,
            self.candidate_count(cell as int) >= 1,
        ensures
            1 <= d <= 9,
            self.candidate(cell as int, d as int),
    {
        for d in 0..9usize
            invariant
                self.candidates_seq().len() == 729,
                cell < 81,
                self.candidate_count(cell as int) >= 1,
                forall|l: int| 0 <= l < d ==> !self.cell_candidates(cell as int)[l],
        {
            if self.possible[9 * cell + d] {
                return (d + 1) as u8;
            }
        }
        proof {
            lemma_count_true_all_false(self.cell_candidates(cell as int));
        }
        1
    }

    /// Marks the cell finished with `value`, overwrites its candidate set
    /// with the singleton `{value}`, removes `value` from every unfinished
    /// peer, and queues peers whose candidate set became a singleton. An
    /// emptied peer is a contradiction and stops the cascade at once.
    fn place(&mut self, idx: usize, value: u8, queue: &mut Vec<usize>) -> (r: Result<
        (),
        Contradiction,
    >)
        requires
            old(self).wf(),
            idx < 81,
            1 <= value <= 9,
            old(self).candidate(idx as int, value as int),
            forall|k: int| 0 <= k < old(queue)@.len() ==> (#[trigger] old(queue)@[k]) < 81,
        ensures
            final(self).wf(),
            final(self).finished_seq() == old(self).finished_seq().update(idx as int, true),
            forall|d: int| 1 <= d <= 9 ==> (final(self).candidate(idx as int, d) <==> d == value),
            forall|c: int, d: int|
                0 <= c < 81 && 1 <= d <= 9 && final(self).candidate(c, d) ==> old(self).candidate(
                    c,
                    d,
                ),
            forall|c: int|
                0 <= c < 81 && old(self).is_finished(c) ==> final(self).cell_candidates(c) == old(
                    self,
                ).cell_candidates(c),
            forall|k: int| 0 <= k < final(queue)@.len() ==> (#[trigger] final(queue)@[k]) < 81,
            final(queue)@.len() >= old(queue)@.len(),
            forall|k: int| 0 <= k < old(queue)@.len() ==> final(queue)@[k] == old(queue)@[k],
            forall|sol: Seq<u8>|
                full_solution(sol) && old(self).admits(sol) && sol[idx as int] == value
                    ==> #[trigger] final(self).admits(sol),
            forall|c: int, d: int|
                0 <= c < 81 && 1 <= d <= 9 && c != idx && old(self).candidate(c, d) && !final(self).candidate(c, d)
                    ==> d == value && is_peer(c, idx as int),
            forall|c: int|
                0 <= c < 81 && c != idx && !final(self).is_finished(c) && #[trigger] final(self).candidate_count(c) == 1
                    && old(self).candidate_count(c) != 1 ==> final(queue)@.contains(c as usize),
            r is Ok ==> forall|p: int|
                0 <= p < 81 && #[trigger] is_peer(p, idx as int) && !final(self).is_finished(p)
                    ==> !final(self).candidate(p, value as int),
            old(self).consistent() && r is Ok ==> final(self).consistent(),
            r is Err ==> exists|c: int|
                #![auto]
                0 <= c < 81 && !final(self).is_finished(c) && final(self).candidate_count(c)
                    == 0,
    {
        let ghost pre = *self;
        let vi = (value as usize) - 1;
        // overwrite the target's candidate set with the singleton {value}
        for d in 0..9usize
            invariant
                idx < 81,
                1 <= value <= 9,
                vi == value - 1,
                self.candidates_seq().len() == 729,
                self.finished_seq() == pre.finished_seq(),
                forall|k: int|
                    0 <= k < 729 && !(9 * idx <= k < 9 * idx + d) ==> self.candidates_seq()[k]
                        == pre.candidates_seq()[k],
                forall|k: int|
                    9 * idx <= k < 9 * idx + d ==> (self.candidates_seq()[k] <==> k == 9 * idx
                        + vi),
        {
            self.possible.set(9 * idx + d, d == vi);
        }
        self.finished.set(idx, true);
        proof {
            assert forall|c: int| 0 <= c < 81 && c != idx implies self.cell_candidates(c)
                == pre.cell_candidates(c) by {
                assert(self.cell_candidates(c) =~= pre.cell_candidates(c));
            }
            lemma_count_true_singleton(self.cell_candidates(idx as int), vi as int);
            if pre.is_finished(idx as int) {
                assert(pre.candidate_count(idx as int) == 1);
                assert forall|l: int| 0 <= l < 9 && l != vi implies !pre.cell_candidates(
                    idx as int,
                )[l] by {
                    if pre.cell_candidates(idx as int)[l] {
                        lemma_count_true_one_unique(
                            pre.cell_candidates(idx as int),
                            l,
                            vi as int,
                        );
                    }
                }
                assert(self.cell_candidates(idx as int) =~= pre.cell_candidates(idx as int));
            }
            assert(self.finished_seq() == pre.finished_seq().update(idx as int, true));
            assert forall|i: int| 0 <= i < 81 && self.is_finished(i) implies self.candidate_count(
                i,
            ) == 1 by {
                if i != idx {
                    assert(pre.is_finished(i));
                    assert(pre.candidate_count(i) == 1);
                    assert(self.cell_candidates(i) == pre.cell_candidates(i));
                }
            }
            assert forall|sol: Seq<u8>|
                full_solution(sol) && pre.admits(sol) && sol[idx as int]
                    == value implies #[trigger] self.admits(sol) by {
                assert forall|c: int| 0 <= c < 81 implies #[trigger] self.candidate(
                    c,
                    sol[c] as int,
                ) by {
                    assert(1 <= sol[c] <= 9);
                    assert(pre.candidate(c, sol[c] as int));
                    if c != idx {
                        assert(self.cell_candidates(c)[sol[c] as int - 1] == pre.cell_candidates(
                            c,
                        )[sol[c] as int - 1]);
                    }
                }
            }
            assert forall|c: int|
                0 <= c < 81 && c != idx && !self.is_finished(c) && #[trigger] self.candidate_count(
                    c,
                ) == 1 && pre.candidate_count(c) != 1 implies queue@.contains(c as usize) by {
                assert(self.cell_candidates(c) == pre.cell_candidates(c));
            }
            assert forall|c: int, d: int|
                0 <= c < 81 && 1 <= d <= 9 && c != idx && pre.candidate(c, d) && !self.candidate(
                    c,
                    d,
                ) implies d == value && is_peer(c, idx as int) by {
                assert(self.cell_candidates(c)[d - 1] == pre.cell_candidates(c)[d - 1]);
            }
        }
        // remove `value` from the unfinished peers; a peer left with one
        // candidate is forced and queued for assignment
        let row = (idx / 9) as u8;
        let col = (idx % 9) as u8;
        proof {
            assert(9 * (idx as int / 9) + idx as int % 9 == idx as int);
        }
        let ns = neighbours(row, col);
        for k in 0..20usize
            invariant
                pre == *old(self),
                pre.wf(),
                self.wf(),
                idx < 81,
                1 <= value <= 9,
                vi == value - 1,
                self.finished_seq() == pre.finished_seq().update(idx as int, true),
                forall|d: int| 1 <= d <= 9 ==> (self.candidate(idx as int, d) <==> d == value),
                forall|c: int, d: int|
                    0 <= c < 81 && 1 <= d <= 9 && self.candidate(c, d) ==> pre.candidate(c, d),
                forall|c: int|
                    0 <= c < 81 && pre.is_finished(c) ==> self.cell_candidates(c)
                        == pre.cell_candidates(c),
                forall|j: int| 0 <= j < queue@.len() ==> (#[trigger] queue@[j]) < 81,
                queue@.len() >= old(queue)@.len(),
                forall|j: int| 0 <= j < old(queue)@.len() ==> queue@[j] == old(queue)@[j],
                forall|sol: Seq<u8>|
                    full_solution(sol) && pre.admits(sol) && sol[idx as int] == value
                        ==> #[trigger] self.admits(sol),
                forall|c: int, d: int|
                    0 <= c < 81 && 1 <= d <= 9 && c != idx && pre.candidate(c, d)
                        && !self.candidate(c, d) ==> d == value && is_peer(c, idx as int),
                forall|c: int|
                    0 <= c < 81 && c != idx && !self.is_finished(c)
                        && #[trigger] self.candidate_count(c) == 1 && pre.candidate_count(c) != 1
                        ==> queue@.contains(c as usize),
                ns@.len() == 20,
                forall|j: int| 0 <= j < 20 ==> (#[trigger] ns@[j]) < 81,
                forall|j: int| 0 <= j < 20 ==> #[trigger] is_peer(ns@[j] as int, idx as int),
                forall|n: int|
                    0 <= n < 81 && #[trigger] is_peer(n, idx as int) ==> ns@.contains(n as usize),
                forall|j: int|
                    0 <= j < k && !self.is_finished(#[trigger] ns@[j] as int)
                        ==> !self.candidate(ns@[j] as int, value as int),
        {
            let p = ns[k];
            proof {
                assert(is_peer(ns@[k as int] as int, idx as int));
            }
            if !self.finished[p] {
                let ghost prev = *self;
                let ghost qpre = queue@;
                let bit = 9 * p + vi;
                self.possible.set(bit, false);
                proof {
                    lemma_update_one_cell(prev.candidates_seq(), bit as int, false);
                    assert(bit as int / 9 == p as int);
                    assert(p != idx);
                    assert(self.finished_seq() == prev.finished_seq());
                    assert(prev.finished_seq() == pre.finished_seq().update(idx as int, true));
                    assert forall|d: int|
                        1 <= d <= 9 implies (self.candidate(idx as int, d) <==> d == value) by {
                        assert(prev.candidate(idx as int, d) <==> d == value);
                        assert(9 * (idx as int) + d - 1 != bit as int);
                    }
                    assert forall|c: int| 0 <= c < 81 && c != p implies self.cell_candidates(c)
                        == prev.cell_candidates(c) by {
                        assert(self.cell_candidates(c) == prev.candidates_seq().update(
                            bit as int,
                            false,
                        ).subrange(9 * c, 9 * c + 9));
                    }
                    assert forall|i: int|
                        0 <= i < 81 && self.is_finished(i) implies self.candidate_count(i)
                        == 1 by {
                        assert(prev.is_finished(i));
                        assert(prev.candidate_count(i) == 1);
                        assert(i != p);
                        assert(self.cell_candidates(i) == prev.cell_candidates(i));
                    }
                    assert forall|c: int, d: int|
                        0 <= c < 81 && 1 <= d <= 9 && self.candidate(c, d) implies pre.candidate(
                            c,
                            d,
                        ) by {
                        assert(prev.candidate(c, d));
                    }
                    assert forall|c: int|
                        0 <= c < 81 && pre.is_finished(c) implies self.cell_candidates(c)
                        == pre.cell_candidates(c) by {
                        assert(!prev.is_finished(p as int));
                        assert(pre.finished_seq()[c]);
                        assert(pre.finished_seq().update(idx as int, true)[c]);
                        assert(prev.finished_seq()[c]);
                        assert(c != p);
                        assert(self.cell_candidates(c) == prev.cell_candidates(c));
                    }
                    assert forall|sol: Seq<u8>|
                        full_solution(sol) && pre.admits(sol) && sol[idx as int]
                            == value implies #[trigger] self.admits(sol) by {
                        assert(prev.admits(sol));
                        assert forall|c: int| 0 <= c < 81 implies #[trigger] self.candidate(
                            c,
                            sol[c] as int,
                        ) by {
                            assert(1 <= sol[c] <= 9);
                            assert(prev.candidate(c, sol[c] as int));
                            if c == p as int {
                                assert(sol[p as int] != sol[idx as int]);
                                assert(9 * c + sol[c] as int - 1 != bit as int);
                            } else {
                                assert(9 * c + sol[c] as int - 1 != bit as int);
                            }
                        }
                    }
                    assert forall|c: int, d: int|
                        0 <= c < 81 && 1 <= d <= 9 && c != idx && pre.candidate(c, d)
                            && !self.candidate(c, d) implies d == value && is_peer(
                        c,
                        idx as int,
                    ) by {
                        if c == p as int && d == value {
                        } else {
                            assert(9 * c + d - 1 != bit as int);
                            assert(self.candidate(c, d) == prev.candidate(c, d));
                        }
                    }
                }
                let cnt = self.count_candidates(p);
                if cnt == 0 {
                    proof {
                        assert forall|c: int|
                            0 <= c < 81 && c != idx && !self.is_finished(c)
                                && #[trigger] self.candidate_count(c) == 1
                                && pre.candidate_count(c) != 1 implies queue@.contains(
                            c as usize,
                        ) by {
                            assert(c != p);
                            assert(self.cell_candidates(c) == prev.cell_candidates(c));
                            assert(prev.candidate_count(c) == 1);
                            assert(qpre.contains(c as usize));
                        }
                    }
                    return Err(Contradiction);
                }
                if cnt == 1 {
                    queue.push(p);
                }
                proof {
                    assert forall|c: int|
                        0 <= c < 81 && c != idx && !self.is_finished(c)
                            && #[trigger] self.candidate_count(c) == 1 && pre.candidate_count(c)
                            != 1 implies queue@.contains(c as usize) by {
                        if c == p as int {
                            assert(self.candidate_count(p as int) == cnt);
                            assert(queue@[queue@.len() - 1] == p);
                        } else {
                            assert(self.cell_candidates(c) == prev.cell_candidates(c));
                            assert(prev.candidate_count(c) == 1);
                            assert(qpre.contains(c as usize));
                            let j = choose|j: int| 0 <= j < qpre.len() && qpre[j] == c as usize;
                            assert(queue@[j] == c as usize);
                        }
                    }
                }
            }
        }
        proof {
            assert forall|p: int|
                0 <= p < 81 && #[trigger] is_peer(p, idx as int) && !self.is_finished(
                    p,
                ) implies !self.candidate(p, value as int) by {
                assert(ns@.contains(p as usize));
                let j = choose|j: int| 0 <= j < ns@.len() && ns@[j] == p as usize;
                assert(!self.candidate(ns@[j] as int, value as int));
            }
            if pre.consistent() {
                assert forall|i: int, j: int, d: int|
                    0 <= i < 81 && 0 <= j < 81 && 1 <= d <= 9 && #[trigger] is_peer(i, j)
                        && self.is_finished(i) && #[trigger] self.candidate(
                    i,
                    d,
                ) implies !self.candidate(j, d) by {
                    if i == idx as int {
                        assert(d == value);
                        assert(is_peer(j, idx as int));
                        if self.is_finished(j) {
                            // a finished peer of the target cannot hold `value`:
                            // it held its digit before the call, and the target
                            // held `value`, which the old consistency forbids
                            assert(j != idx);
                            assert(pre.is_finished(j));
                            assert(self.cell_candidates(j) == pre.cell_candidates(j));
                            if self.candidate(j, value as int) {
                                assert(self.cell_candidates(j)[value - 1] == pre.cell_candidates(
                                    j,
                                )[value - 1]);
                                assert(pre.candidate(j, value as int));
                                assert(is_peer(idx as int, j));
                                assert(!pre.candidate(idx as int, value as int));
                            }
                        }
                    } else {
                        assert(pre.is_finished(i));
                        assert(self.cell_candidates(i) == pre.cell_candidates(i));
                        assert(self.cell_candidates(i)[d - 1] == pre.cell_candidates(i)[d - 1]);
                        assert(pre.candidate(i, d));
                        if j == idx as int {
                            // the target's new singleton is `value`, and the old
                            // consistency forbade `d == value` at the target
                            assert(is_peer(i, idx as int));
                            assert(!pre.candidate(idx as int, d));
                            assert(d != value);
                        } else {
                            assert(!pre.candidate(j, d));
                            if self.candidate(j, d) {
                                assert(pre.candidate(j, d));
                            }
                        }
                    }
                }
            }
        }
        Ok(())
    }

    /// Assigns `value` to the cell at (`row`, `column`). A `value` of 0
    /// means "leave unknown" and changes nothing. A `value` already
    /// eliminated for the cell would empty its candidate set, so it is
    /// reported as a `Contradiction` with nothing changed. Otherwise the
    /// cell is finished with `value` and the elimination cascade runs
    /// over a worklist until no forced cell is pending; a cell left
    /// without candidates stops the cascade with a `Contradiction`, in
    /// which case the half-applied state should be discarded. Candidates
    /// are only ever removed, each removal is accounted for by a finished
    /// cell, and finished cells stay finished with their digit. Every
    /// complete solution that places `value` here survives the cascade,
    /// so when one exists the call cannot fail.
    pub fn set(&mut self, row: u8, column: u8, value: u8) -> (r: Result<(), Contradiction>)
        requires
            old(self).wf(),
            row < 9,
            column < 9,
            value <= 9,
        ensures
            final(self).wf(),
            forall|c: int, d: int|
                0 <= c < 81 && 1 <= d <= 9 && final(self).candidate(c, d) ==> old(self).candidate(
                    c,
                    d,
                ),
            forall|c: int|
                0 <= c < 81 && old(self).is_finished(c) ==> final(self).is_finished(c),
            forall|c: int|
                0 <= c < 81 && old(self).is_finished(c) ==> final(self).cell_candidates(c) == old(
                    self,
                ).cell_candidates(c),
            final(self).finished_count() >= old(self).finished_count(),
            value == 0 ==> r is Ok && final(self).candidates_seq() == old(self).candidates_seq()
                && final(self).finished_seq() == old(self).finished_seq(),
            value != 0 && !old(self).candidate(9 * row + column, value as int) ==> r is Err
                && final(self).candidates_seq() == old(self).candidates_seq() && final(self).finished_seq() == old(self).finished_seq(),
            value != 0 && old(self).candidate(9 * row + column, value as int) ==> final(self).is_finished(9 * row + column) && (forall|d: int|
                1 <= d <= 9 ==> (#[trigger] final(self).candidate(9 * row + column, d) <==> d
                    == value)),
            value != 0 && old(self).candidate(9 * row + column, value as int) && !old(
                self,
            ).is_finished(9 * row + column) ==> final(self).finished_count() > old(
                self,
            ).finished_count(),
            r is Ok && value != 0 ==> forall|p: int|
                0 <= p < 81 && #[trigger] is_peer(p, 9 * row + column) && !final(self).is_finished(p) ==> !final(self).candidate(p, value as int),
            old(self).consistent() && r is Ok ==> final(self).consistent(),
            forall|sol: Seq<u8>|
                full_solution(sol) && old(self).admits(sol) && (value != 0 ==> sol[9 * row
                    + column] == value) ==> #[trigger] final(self).admits(sol),
            value != 0 && (exists|sol: Seq<u8>|
                full_solution(sol) && old(self).admits(sol) && sol[9 * row + column] == value)
                ==> r is Ok,
            old(self).saturated() && r is Ok ==> final(self).saturated(),
            forall|c: int, d: int|
                0 <= c < 81 && 1 <= d <= 9 && old(self).candidate(c, d) && !final(self).candidate(
                    c,
                    d,
                ) ==> final(self).removal_justified(c, d),
            r is Err ==> value != 0,
            r is Err && old(self).candidate(9 * row + column, value as int) ==> exists|c: int|
                #![auto]
                0 <= c < 81 && !final(self).is_finished(c) && final(self).candidate_count(c)
                    == 0,
    {
        if value == 0 {
            return Ok(());
        }
        let idx = to_index(row, column);
        if !self.possible[9 * idx + (value as usize) - 1] {
            proof {
                if exists|sol: Seq<u8>|
                    full_solution(sol) && old(self).admits(sol) && sol[9 * row + column]
                        == value {
                    let sol = choose|sol: Seq<u8>|
                        full_solution(sol) && old(self).admits(sol) && sol[9 * row + column]
                            == value;
                    assert(old(self).candidate(idx as int, sol[idx as int] as int));
                    assert(false);
                }
            }
            return Err(Contradiction);
        }
        let mut queue: Vec<usize> = Vec::new();
        let ghost pre = *self;
        let first = self.place(idx, value, &mut queue);
        if let Err(e) = first {
            proof {
                lemma_count_true_update(pre.finished_seq(), idx as int, true);
                lemma_count_true_le(pre.finished_seq().update(idx as int, true),
                    self.finished_seq());
                assert forall|c: int, d: int|
                    0 <= c < 81 && 1 <= d <= 9 && pre.candidate(c, d) && !self.candidate(
                        c,
                        d,
                    ) implies self.removal_justified(c, d) by {
                    if c != idx {
                        assert(d == value && is_peer(c, idx as int));
                        assert(is_peer(idx as int, c));
                        assert(self.is_finished(idx as int));
                        assert(self.candidate(idx as int, d));
                    }
                }
                if exists|sol: Seq<u8>|
                    full_solution(sol) && old(self).admits(sol) && sol[9 * row + column]
                        == value {
                    let sol = choose|sol: Seq<u8>|
                        full_solution(sol) && old(self).admits(sol) && sol[9 * row + column]
                            == value;
                    assert(self.admits(sol));
                    let c0 = choose|c: int|
                        0 <= c < 81 && !self.is_finished(c) && self.candidate_count(c) == 0;
                    assert(self.candidate(c0, sol[c0] as int));
                    assert(1 <= sol[c0] <= 9);
                    assert(self.cell_candidates(c0)[sol[c0] as int - 1]);
                    lemma_count_true_pos(self.cell_candidates(c0), sol[c0] as int - 1);
                    assert(false);
                }
            }
            return Err(e);
        }
        proof {
            lemma_count_true_update(pre.finished_seq(), idx as int, true);
            lemma_count_true_le(pre.finished_seq().update(idx as int, true), self.finished_seq());
            lemma_count_true_bounds(self.finished_seq());
            if pre.saturated() {
                assert forall|c: int|
                    0 <= c < 81 && !self.is_finished(c) && #[trigger] self.candidate_count(c)
                        == 1 implies queue@.contains(c as usize) by {
                    assert(c != idx);
                    if pre.is_finished(c) {
                        assert(pre.finished_seq().update(idx as int, true)[c]);
                        assert(false);
                    }
                    assert(pre.candidate_count(c) != 1);
                }
            }
            assert forall|c: int, d: int|
                0 <= c < 81 && 1 <= d <= 9 && pre.candidate(c, d) && !self.candidate(
                    c,
                    d,
                ) implies self.removal_justified(c, d) by {
                if c != idx {
                    assert(d == value && is_peer(c, idx as int));
                    assert(is_peer(idx as int, c));
                    assert(self.is_finished(idx as int));
                    assert(self.candidate(idx as int, d));
                }
            }
        }
        while queue.len() > 0
            invariant
                pre == *old(self),
                pre.wf(),
                self.wf(),
                1 <= value <= 9,
                idx == 9 * row + column,
                idx < 81,
                pre.candidate(idx as int, value as int),
                forall|j: int| 0 <= j < queue@.len() ==> (#[trigger] queue@[j]) < 81,
                forall|c: int, d: int|
                    0 <= c < 81 && 1 <= d <= 9 && self.candidate(c, d) ==> pre.candidate(c, d),
                forall|c: int| 0 <= c < 81 && pre.is_finished(c) ==> self.is_finished(c),
                forall|c: int|
                    0 <= c < 81 && pre.is_finished(c) ==> self.cell_candidates(c)
                        == pre.cell_candidates(c),
                self.is_finished(idx as int),
                forall|d: int| 1 <= d <= 9 ==> (self.candidate(idx as int, d) <==> d == value),
                forall|p: int|
                    0 <= p < 81 && #[trigger] is_peer(p, idx as int) && !self.is_finished(p)
                        ==> !self.candidate(p, value as int),
                self.finished_count() >= pre.finished_count(),
                !pre.is_finished(idx as int) ==> self.finished_count() > pre.finished_count(),
                self.finished_count() <= 81,
                pre.consistent() ==> self.consistent(),
                forall|sol: Seq<u8>|
                    full_solution(sol) && pre.admits(sol) && sol[idx as int] == value
                        ==> #[trigger] self.admits(sol),
                pre.saturated() ==> forall|c: int|
                    0 <= c < 81 && !self.is_finished(c) && #[trigger] self.candidate_count(c)
                        == 1 ==> queue@.contains(c as usize),
                forall|c: int, d: int|
                    0 <= c < 81 && 1 <= d <= 9 && pre.candidate(c, d) && !self.candidate(c, d)
                        ==> self.removal_justified(c, d),
            decreases 81 - self.finished_count(), queue@.len(),
        {
            let ghost qstart = queue@;
            let p_opt = queue.pop();
            if let Some(p) = p_opt {
                if !self.finished[p] {
                    let cnt = self.count_candidates(p);
                    if cnt == 0 {
                        proof {
                            if exists|sol: Seq<u8>|
                                full_solution(sol) && old(self).admits(sol) && sol[9 * row
                                    + column] == value {
                                let sol = choose|sol: Seq<u8>|
                                    full_solution(sol) && old(self).admits(sol) && sol[9 * row
                                        + column] == value;
                                assert(self.admits(sol));
                                assert(self.candidate(p as int, sol[p as int] as int));
                                assert(1 <= sol[p as int] <= 9);
                                assert(self.cell_candidates(p as int)[sol[p as int] as int - 1]);
                                lemma_count_true_pos(
                                    self.cell_candidates(p as int),
                                    sol[p as int] as int - 1,
                                );
                                assert(false);
                            }
                        }
                        return Err(Contradiction);
                    }
                    if cnt == 1 {
                        let ghost prev = *self;
                        let d = self.some_candidate(p);
                        let res = self.place(p, d, &mut queue);
                        proof {
                            lemma_count_true_update(prev.finished_seq(), p as int, true);
                            lemma_count_true_bounds(self.finished_seq());
                            assert forall|c: int, d2: int|
                                0 <= c < 81 && 1 <= d2 <= 9 && self.candidate(
                                    c,
                                    d2,
                                ) implies pre.candidate(c, d2) by {
                                assert(prev.candidate(c, d2));
                            }
                            assert(prev.is_finished(idx as int));
                            assert(p != idx);
                            assert forall|c: int|
                                0 <= c < 81 && pre.is_finished(c) implies self.is_finished(c)
                                && self.cell_candidates(c) == pre.cell_candidates(c) by {
                                assert(prev.is_finished(c));
                                assert(self.is_finished(c));
                                assert(self.cell_candidates(c) == prev.cell_candidates(c));
                            }
                            assert forall|d2: int|
                                1 <= d2 <= 9 implies (self.candidate(idx as int, d2) <==> d2
                                == value) by {
                                assert(prev.candidate(idx as int, d2) <==> d2 == value);
                                assert(self.cell_candidates(idx as int)[d2 - 1]
                                    == prev.cell_candidates(idx as int)[d2 - 1]);
                            }
                            assert forall|p2: int|
                                0 <= p2 < 81 && #[trigger] is_peer(p2, idx as int)
                                    && !self.is_finished(p2) implies !self.candidate(
                                p2,
                                value as int,
                            ) by {
                                assert(!prev.is_finished(p2));
                                assert(!prev.candidate(p2, value as int));
                            }
                            assert forall|sol: Seq<u8>|
                                full_solution(sol) && pre.admits(sol) && sol[idx as int]
                                    == value implies #[trigger] self.admits(sol) by {
                                assert(prev.admits(sol));
                                assert(1 <= sol[p as int] <= 9);
                                assert(prev.candidate(p as int, sol[p as int] as int));
                                assert(prev.cell_candidates(p as int)[sol[p as int] as int - 1]);
                                assert(prev.candidate(p as int, d as int));
                                assert(prev.cell_candidates(p as int)[d as int - 1]);
                                lemma_count_true_one_unique(
                                    prev.cell_candidates(p as int),
                                    sol[p as int] as int - 1,
                                    d as int - 1,
                                );
                                assert(sol[p as int] == d);
                            }
                            assert forall|c: int, d2: int|
                                0 <= c < 81 && 1 <= d2 <= 9 && pre.candidate(c, d2)
                                    && !self.candidate(c, d2) implies self.removal_justified(
                                c,
                                d2,
                            ) by {
                                if prev.candidate(c, d2) {
                                    // removed by this forced assignment
                                    if c == p as int {
                                        assert(self.is_finished(p as int));
                                    } else {
                                        assert(d2 == d as int && is_peer(c, p as int));
                                        assert(is_peer(p as int, c));
                                        assert(self.is_finished(p as int));
                                        assert(self.candidate(p as int, d2));
                                    }
                                } else if prev.is_finished(c) {
                                    assert(self.is_finished(c));
                                } else {
                                    // the removal predates this assignment; its
                                    // finished witness is untouched
                                    let q = choose|q: int|
                                        0 <= q < 81 && is_peer(q, c) && prev.is_finished(q)
                                            && prev.candidate(q, d2);
                                    assert(self.is_finished(q));
                                    assert(self.cell_candidates(q) == prev.cell_candidates(q));
                                    assert(self.cell_candidates(q)[d2 - 1]
                                        == prev.cell_candidates(q)[d2 - 1]);
                                    assert(self.candidate(q, d2));
                                }
                            }
                            if pre.saturated() {
                                assert(self.is_finished(p as int));
                                assert forall|c: int|
                                    0 <= c < 81 && !self.is_finished(c)
                                        && #[trigger] self.candidate_count(c)
                                        == 1 implies queue@.contains(c as usize) by {
                                    assert(c != p);
                                    if prev.candidate_count(c) == 1 {
                                        assert(!prev.is_finished(c));
                                        assert(qstart.contains(c as usize));
                                        let j = choose|j: int|
                                            0 <= j < qstart.len() && qstart[j] == c as usize;
                                        if j == qstart.len() - 1 {
                                            assert(c as usize == p);
                                            assert(false);
                                        }
                                        assert(queue@[j] == c as usize);
                                    }
                                }
                            }
                        }
                        if let Err(e) = res {
                            proof {
                                if exists|sol: Seq<u8>|
                                    full_solution(sol) && old(self).admits(sol) && sol[9 * row
                                        + column] == value {
                                    let sol = choose|sol: Seq<u8>|
                                        full_solution(sol) && old(self).admits(sol) && sol[9 * row
                                            + column] == value;
                                    assert(self.admits(sol));
                                    let c0 = choose|c: int|
                                        0 <= c < 81 && !self.is_finished(c)
                                            && self.candidate_count(c) == 0;
                                    assert(self.candidate(c0, sol[c0] as int));
                                    assert(1 <= sol[c0] <= 9);
                                    assert(self.cell_candidates(c0)[sol[c0] as int - 1]);
                                    lemma_count_true_pos(
                                        self.cell_candidates(c0),
                                        sol[c0] as int - 1,
                                    );
                                    assert(false);
                                }
                            }
                            return Err(e);
                        }
                    } else {
                        proof {
                            if pre.saturated() {
                                assert forall|c: int|
                                    0 <= c < 81 && !self.is_finished(c)
                                        && #[trigger] self.candidate_count(c)
                                        == 1 implies queue@.contains(c as usize) by {
                                    assert(self.candidate_count(p as int) == cnt);
                                    assert(c != p);
                                    assert(qstart.contains(c as usize));
                                    let j = choose|j: int|
                                        0 <= j < qstart.len() && qstart[j] == c as usize;
                                    if j == qstart.len() - 1 {
                                        assert(c as usize == p);
                                        assert(false);
                                    }
                                    assert(queue@[j] == c as usize);
                                }
                            }
                        }
                    }
                } else {
                    proof {
                        if pre.saturated() {
                            assert forall|c: int|
                                0 <= c < 81 && !self.is_finished(c)
                                    && #[trigger] self.candidate_count(c)
                                    == 1 implies queue@.contains(c as usize) by {
                                assert(self.is_finished(p as int));
                                assert(c != p);
                                assert(qstart.contains(c as usize));
                                let j = choose|j: int|
                                    0 <= j < qstart.len() && qstart[j] == c as usize;
                                if j == qstart.len() - 1 {
                                    assert(c as usize == p);
                                    assert(false);
                                }
                                assert(queue@[j] == c as usize);
                            }
                        }
                    }
                }
            }
        }
        proof {
            if pre.saturated() {
                assert forall|c: int|
                    0 <= c < 81 && !self.is_finished(c) implies #[trigger] self.candidate_count(
                    c,
                ) != 1 by {
                    if self.candidate_count(c) == 1 {
                        assert(queue@.contains(c as usize));
                        assert(false);
                    }
                }
            }
        }
        Ok(())
    }

    /// One hidden-single check for `value` on a group of nine cells: if no
    /// cell of the group is already finished with `value` still possible,
    /// and exactly one cell of the group can still hold `value`, that cell
    /// is assigned `value`. Returns whether an assignment happened.
    fn check_only_possible(&mut self, value: u8, indexes: &Vec<usize>) -> (r: Result<
        bool,
        Contradiction,
    >)
        requires
            old(self).wf(),
            1 <= value <= 9,
            indexes@.len() == 9,
            forall|k: int| 0 <= k < 9 ==> (#[trigger] indexes@[k]) < 81,
            forall|k: int, l: int|
                0 <= k < l < 9 ==> is_peer(indexes@[k] as int, indexes@[l] as int),
        ensures
            final(self).wf(),
            forall|c: int, d: int|
                0 <= c < 81 && 1 <= d <= 9 && final(self).candidate(c, d) ==> old(self).candidate(
                    c,
                    d,
                ),
            forall|c: int| 0 <= c < 81 && old(self).is_finished(c) ==> final(self).is_finished(c),
            forall|c: int|
                0 <= c < 81 && old(self).is_finished(c) ==> final(self).cell_candidates(c) == old(
                    self,
                ).cell_candidates(c),
            final(self).finished_count() >= old(self).finished_count(),
            r == Ok::<bool, Contradiction>(false) ==> final(self).candidates_seq() == old(
                self,
            ).candidates_seq() && final(self).finished_seq() == old(self).finished_seq(),
            r == Ok::<bool, Contradiction>(true) ==> final(self).finished_count() > old(
                self,
            ).finished_count(),
            old(self).consistent() && r is Ok ==> final(self).consistent(),
            r == Ok::<bool, Contradiction>(false) ==> final(self).no_hidden_single(
                indexes@,
                value as int,
            ),
            r == Ok::<bool, Contradiction>(true) ==> !old(self).group_satisfied(
                indexes@,
                value as int,
            ) && old(self).group_holders(indexes@, value as int) == 1,
            r == Ok::<bool, Contradiction>(true) ==> exists|k: int|
                0 <= k < 9 && old(self).candidate(#[trigger] indexes@[k] as int, value as int)
                    && !old(self).is_finished(indexes@[k] as int) && final(self).is_finished(
                    indexes@[k] as int,
                ) && (forall|d: int|
                    1 <= d <= 9 ==> (final(self).candidate(indexes@[k] as int, d) <==> d
                        == value)),
            forall|sol: Seq<u8>|
                full_solution(sol) && old(self).admits(sol) ==> #[trigger] final(self).admits(
                    sol,
                ),
            (exists|sol: Seq<u8>| full_solution(sol) && #[trigger] old(self).admits(sol))
                ==> r is Ok,
            old(self).saturated() && r is Ok ==> final(self).saturated(),
            forall|c: int, d: int|
                0 <= c < 81 && 1 <= d <= 9 && old(self).candidate(c, d) && !final(self).candidate(
                    c,
                    d,
                ) ==> final(self).removal_justified(c, d),
            r is Err ==> exists|c: int|
                #![auto]
                0 <= c < 81 && !final(self).is_finished(c) && final(self).candidate_count(c)
                    == 0,
    {
        // the group is already satisfied when some cell is finished with
        // `value` still possible
        for k in 0..9usize
            invariant
                self == old(self),
                self.wf(),
                1 <= value <= 9,
                indexes@.len() == 9,
                forall|j: int| 0 <= j < 9 ==> (#[trigger] indexes@[j]) < 81,
                forall|j: int|
                    0 <= j < k ==> !(self.is_finished(#[trigger] indexes@[j] as int)
                        && self.candidate(indexes@[j] as int, value as int)),
        {
            let c = indexes[k];
            if self.finished[c] && self.possible[9 * c + (value as usize) - 1] {
                proof {
                    assert(self.is_finished(indexes@[k as int] as int) && self.candidate(
                        indexes@[k as int] as int,
                        value as int,
                    ));
                    assert(self.group_satisfied(indexes@, value as int));
                }
                return Ok(false);
            }
        }
        // count the cells that can still hold `value`
        let ghost holders = Seq::new(
            indexes@.len(),
            |k: int| self.candidate(indexes@[k] as int, value as int),
        );
        let mut cnt: u8 = 0;
        let mut pos: usize = 0;
        for k in 0..9usize
            invariant
                self == old(self),
                self.wf(),
                1 <= value <= 9,
                indexes@.len() == 9,
                holders == Seq::new(
                    indexes@.len(),
                    |k: int| self.candidate(indexes@[k] as int, value as int),
                ),
                forall|j: int| 0 <= j < 9 ==> (#[trigger] indexes@[j]) < 81,
                forall|j: int|
                    0 <= j < 9 ==> !(self.is_finished(#[trigger] indexes@[j] as int)
                        && self.candidate(indexes@[j] as int, value as int)),
                cnt <= k,
                cnt as int == count_true(holders.subrange(0, k as int)),
                cnt == 0 ==> forall|j: int|
                    0 <= j < k ==> !self.candidate(#[trigger] indexes@[j] as int, value as int),
                cnt == 1 ==> pos < k && self.candidate(indexes@[pos as int] as int, value as int),
        {
            proof {
                lemma_count_true_extend(holders, k as int);
            }
            if self.possible[9 * indexes[k] + (value as usize) - 1] {
                cnt = cnt + 1;
                pos = k;
            }
        }
        proof {
            assert(holders.subrange(0, 9) =~= holders);
            assert(cnt as int == self.group_holders(indexes@, value as int));
        }
        if cnt == 1 {
            let c = indexes[pos];
            // the one cell that can hold `value` is not finished: a finished
            // cell with `value` possible would have satisfied the group
            let rr = (c / 9) as u8;
            let cc = (c % 9) as u8;
            proof {
                assert(!self.is_finished(c as int));
                assert(9 * (c as int / 9) + c as int % 9 == c as int);
                // in every admitted complete solution, the digit appears in
                // the group, necessarily at its one remaining holder
                assert forall|sol: Seq<u8>|
                    full_solution(sol) && self.admits(sol) implies sol[c as int] == value by {
                    lemma_group_digit_present(sol, indexes@, value as int);
                    let k = choose|k: int| 0 <= k < 9 && sol[#[trigger] indexes@[k] as int]
                        == value;
                    assert(self.candidate(indexes@[k] as int, sol[indexes@[k] as int] as int));
                    assert(holders[k]);
                    assert(holders[pos as int]);
                    lemma_count_true_one_unique(holders, k, pos as int);
                }
            }
            let ghost before = *self;
            let res = self.set(rr, cc, value);
            proof {
                assert forall|sol: Seq<u8>|
                    full_solution(sol) && before.admits(sol) implies #[trigger] self.admits(
                    sol,
                ) by {
                    assert(sol[c as int] == value);
                }
                if exists|sol: Seq<u8>| full_solution(sol) && #[trigger] before.admits(sol) {
                    let sol = choose|sol: Seq<u8>|
                        full_solution(sol) && #[trigger] before.admits(sol);
                    assert(sol[c as int] == value);
                    assert(res is Ok);
                }
            }
            match res {
                Err(e) => Err(e),
                Ok(_) => {
                    proof {
                        assert(old(self).candidate(indexes@[pos as int] as int, value as int));
                        assert(self.is_finished(c as int));
                        assert(!(exists|k: int|
                            0 <= k < 9 && old(self).is_finished(#[trigger] indexes@[k] as int)
                                && old(self).candidate(indexes@[k] as int, value as int)));
                    }
                    Ok(true)
                },
            }
        } else {
            proof {
                assert(self.group_holders(indexes@, value as int) != 1);
            }
            Ok(false)
        }
    }

    /// One bounded pass of hidden-single deduction: for every digit and
    /// every row, column, and box, assigns the digit wherever exactly one
    /// cell of the group can still hold it. Returns whether any assignment
    /// happened, so a caller may iterate to a fixed point; each pass that
    /// reports progress finishes at least one more cell, and a pass that
    /// reports none has changed nothing and left no hidden single behind.
    /// Complete solutions survive every pass, so a state that still
    /// admits one cannot report a contradiction.
    #[verifier::rlimit(60)]
    pub fn solve_step(&mut self) -> (r: Result<bool, Contradiction>)
        requires
            old(self).wf(),
        ensures
            final(self).wf(),
            forall|c: int, d: int|
                0 <= c < 81 && 1 <= d <= 9 && final(self).candidate(c, d) ==> old(self).candidate(
                    c,
                    d,
                ),
            forall|c: int| 0 <= c < 81 && old(self).is_finished(c) ==> final(self).is_finished(c),
            forall|c: int|
                0 <= c < 81 && old(self).is_finished(c) ==> final(self).cell_candidates(c) == old(
                    self,
                ).cell_candidates(c),
            final(self).finished_count() >= old(self).finished_count(),
            r == Ok::<bool, Contradiction>(false) ==> final(self).candidates_seq() == old(
                self,
            ).candidates_seq() && final(self).finished_seq() == old(self).finished_seq(),
            r == Ok::<bool, Contradiction>(true) ==> final(self).finished_count() > old(
                self,
            ).finished_count(),
            old(self).consistent() && r is Ok ==> final(self).consistent(),
            forall|sol: Seq<u8>|
                full_solution(sol) && old(self).admits(sol) ==> #[trigger] final(self).admits(
                    sol,
                ),
            (exists|sol: Seq<u8>| full_solution(sol) && #[trigger] old(self).admits(sol))
                ==> r is Ok,
            old(self).saturated() && r is Ok ==> final(self).saturated(),
            forall|c: int, d: int|
                0 <= c < 81 && 1 <= d <= 9 && old(self).candidate(c, d) && !final(self).candidate(
                    c,
                    d,
                ) ==> final(self).removal_justified(c, d),
            r == Ok::<bool, Contradiction>(false) ==> forall|v: int, g: int|
                #![trigger final(self).no_hidden_single(crate::board_neighbours::row_group(g), v)]
                #![trigger final(self).no_hidden_single(crate::board_neighbours::column_group(g), v)]
                #![trigger final(self).no_hidden_single(crate::board_neighbours::box_group(g), v)]
                1 <= v <= 9 && 0 <= g < 9 ==> final(self).no_hidden_single(
                    crate::board_neighbours::row_group(g),
                    v,
                ) && final(self).no_hidden_single(crate::board_neighbours::column_group(g), v)
                    && final(self).no_hidden_single(crate::board_neighbours::box_group(g), v),
            r is Err ==> exists|c: int|
                #![auto]
                0 <= c < 81 && !final(self).is_finished(c) && final(self).candidate_count(c)
                    == 0,
    {
        let mut progress = false;
        for value in 1..10u8
            invariant
                self.wf(),
                forall|c: int, d: int|
                    0 <= c < 81 && 1 <= d <= 9 && self.candidate(c, d) ==> old(self).candidate(
                        c,
                        d,
                    ),
                forall|c: int|
                    0 <= c < 81 && old(self).is_finished(c) ==> self.is_finished(c),
                forall|c: int|
                    0 <= c < 81 && old(self).is_finished(c) ==> self.cell_candidates(c) == old(
                        self,
                    ).cell_candidates(c),
                self.finished_count() >= old(self).finished_count(),
                !progress ==> self.candidates_seq() == old(self).candidates_seq()
                    && self.finished_seq() == old(self).finished_seq(),
                progress ==> self.finished_count() > old(self).finished_count(),
                old(self).consistent() ==> self.consistent(),
                forall|sol: Seq<u8>|
                    full_solution(sol) && old(self).admits(sol) ==> #[trigger] self.admits(sol),
                old(self).saturated() ==> self.saturated(),
                forall|c: int, d: int|
                    0 <= c < 81 && 1 <= d <= 9 && old(self).candidate(c, d) && !self.candidate(
                        c,
                        d,
                    ) ==> self.removal_justified(c, d),
                !progress ==> forall|v: int, g: int|
                    #![auto]
                    1 <= v < value && 0 <= g < 9 ==> old(self).no_hidden_single(
                        crate::board_neighbours::row_group(g),
                        v,
                    ) && old(self).no_hidden_single(crate::board_neighbours::column_group(g), v)
                        && old(self).no_hidden_single(
                        crate::board_neighbours::box_group(g),
                        v,
                    ),
        {
            for r in 0..9u8
                invariant
                    self.wf(),
                    1 <= value <= 9,
                    forall|c: int, d: int|
                        0 <= c < 81 && 1 <= d <= 9 && self.candidate(c, d) ==> old(
                            self,
                        ).candidate(c, d),
                    forall|c: int|
                        0 <= c < 81 && old(self).is_finished(c) ==> self.is_finished(c),
                    forall|c: int|
                        0 <= c < 81 && old(self).is_finished(c) ==> self.cell_candidates(c) == old(
                            self,
                        ).cell_candidates(c),
                    self.finished_count() >= old(self).finished_count(),
                    !progress ==> self.candidates_seq() == old(self).candidates_seq()
                        && self.finished_seq() == old(self).finished_seq(),
                    progress ==> self.finished_count() > old(self).finished_count(),
                    old(self).consistent() ==> self.consistent(),
                    forall|sol: Seq<u8>|
                        full_solution(sol) && old(self).admits(sol) ==> #[trigger] self.admits(
                            sol,
                        ),
                    old(self).saturated() ==> self.saturated(),
                    forall|c: int, d: int|
                    0 <= c < 81 && 1 <= d <= 9 && old(self).candidate(c, d) && !self.candidate(
                        c,
                        d,
                    ) ==> self.removal_justified(c, d),
                    !progress ==> forall|v: int, g: int|
                        #![auto]
                        1 <= v < value && 0 <= g < 9 ==> old(self).no_hidden_single(
                            crate::board_neighbours::row_group(g),
                            v,
                        ) && old(self).no_hidden_single(
                            crate::board_neighbours::column_group(g),
                            v,
                        ) && old(self).no_hidden_single(crate::board_neighbours::box_group(g), v),
                    !progress ==> forall|g: int|
                        #![auto]
                        0 <= g < r ==> old(self).no_hidden_single(
                            crate::board_neighbours::row_group(g),
                            value as int,
                        ) && old(self).no_hidden_single(
                            crate::board_neighbours::column_group(g),
                            value as int,
                        ) && old(self).no_hidden_single(
                            crate::board_neighbours::box_group(g),
                            value as int,
                        ),
            {
                let ghost before = *self;
                let group_row = crate::board_neighbours::row_indexes(r);
                proof {
                    crate::board_neighbours::lemma_row_group_peers(r as int);
                }
                match self.check_only_possible(value, &group_row) {
                    Err(e) => {
                        proof {
                            refute_solvable(before, *old(self));
                            lemma_justified_compose(*old(self), before, *self);
                        }
                        return Err(e);
                    },
                    Ok(p) => {
                        proof {
                            lemma_step_compose(before, *self, *old(self));
                            lemma_justified_compose(*old(self), before, *self);
                            assert forall|sol: Seq<u8>|
                                full_solution(sol) && old(self).admits(sol) implies #[trigger] self.admits(
                                sol,
                            ) by {
                                assert(before.admits(sol));
                            }
                            if old(self).saturated() {
                                assert(before.saturated());
                            }
                            if !p && !progress {
                                lemma_no_hidden_transfer(
                                    *self,
                                    *old(self),
                                    crate::board_neighbours::row_group(r as int),
                                    value as int,
                                );
                            }
                        }
                        if p {
                            progress = true;
                        }
                    },
                }
                let ghost before2 = *self;
                let group_col = crate::board_neighbours::column_indexes(r);
                proof {
                    crate::board_neighbours::lemma_column_group_peers(r as int);
                }
                match self.check_only_possible(value, &group_col) {
                    Err(e) => {
                        proof {
                            refute_solvable(before2, *old(self));
                            lemma_justified_compose(*old(self), before2, *self);
                        }
                        return Err(e);
                    },
                    Ok(p) => {
                        proof {
                            lemma_step_compose(before2, *self, *old(self));
                            lemma_justified_compose(*old(self), before2, *self);
                            assert forall|sol: Seq<u8>|
                                full_solution(sol) && old(self).admits(sol) implies #[trigger] self.admits(
                                sol,
                            ) by {
                                assert(before2.admits(sol));
                            }
                            if old(self).saturated() {
                                assert(before2.saturated());
                            }
                            if !p && !progress {
                                lemma_no_hidden_transfer(
                                    *self,
                                    *old(self),
                                    crate::board_neighbours::column_group(r as int),
                                    value as int,
                                );
                            }
                        }
                        if p {
                            progress = true;
                        }
                    },
                }
                let ghost before3 = *self;
                let group_box = crate::board_neighbours::square_indexes(r / 3, r % 3);
                proof {
                    crate::board_neighbours::lemma_box_group_peers(r as int);
                    assert(3 * ((r as int) / 3) + (r as int) % 3 == r as int);
                }
                match self.check_only_possible(value, &group_box) {
                    Err(e) => {
                        proof {
                            refute_solvable(before3, *old(self));
                            lemma_justified_compose(*old(self), before3, *self);
                        }
                        return Err(e);
                    },
                    Ok(p) => {
                        proof {
                            lemma_step_compose(before3, *self, *old(self));
                            lemma_justified_compose(*old(self), before3, *self);
                            assert forall|sol: Seq<u8>|
                                full_solution(sol) && old(self).admits(sol) implies #[trigger] self.admits(
                                sol,
                            ) by {
                                assert(before3.admits(sol));
                            }
                            if old(self).saturated() {
                                assert(before3.saturated());
                            }
                            if !p && !progress {
                                lemma_no_hidden_transfer(
                                    *self,
                                    *old(self),
                                    crate::board_neighbours::box_group(r as int),
                                    value as int,
                                );
                            }
                        }
                        if p {
                            progress = true;
                        }
                    },
                }
            }
        }
        proof {
            if !progress {
                assert forall|v: int, g: int|
                    #![trigger self.no_hidden_single(crate::board_neighbours::row_group(g), v)]
                    #![trigger self.no_hidden_single(crate::board_neighbours::column_group(g), v)]
                    #![trigger self.no_hidden_single(crate::board_neighbours::box_group(g), v)]
                    1 <= v <= 9 && 0 <= g < 9 implies self.no_hidden_single(
                    crate::board_neighbours::row_group(g),
                    v,
                ) && self.no_hidden_single(crate::board_neighbours::column_group(g), v)
                    && self.no_hidden_single(crate::board_neighbours::box_group(g), v) by {
                    lemma_no_hidden_transfer(
                        *old(self),
                        *self,
                        crate::board_neighbours::row_group(g),
                        v,
                    );
                    lemma_no_hidden_transfer(
                        *old(self),
                        *self,
                        crate::board_neighbours::column_group(g),
                        v,
                    );
                    lemma_no_hidden_transfer(
                        *old(self),
                        *self,
                        crate::board_neighbours::box_group(g),
                        v,
                    );
                }
            }
        }
        Ok(progress)
    }

    /// Writes the engine's deductions into `board`: each cell receives its
    /// sole remaining candidate if exactly one digit is left for it, else
    /// 0. A pure projection of the engine state: the engine is not
    /// changed, and the board's conflict flags are untouched.
    pub fn write_board(&self, board: &mut Board)
        requires
            self.wf(),
            old(board).wf(),
        ensures
            final(board).wf(),
            forall|i: int| 0 <= i < 81 ==> final(board).values()[i] as int == self.export_digit(i),
            final(board).conflicts() == old(board).conflicts(),
    {
        board.clear();
        for i in 0..81usize
            invariant
                self.wf(),
                board.wf(),
                board.conflicts() == old(board).conflicts(),
                forall|j: int| 0 <= j < i ==> board.values()[j] as int == self.export_digit(j),
                forall|j: int| i <= j < 81 ==> board.values()[j] == 0,
        {
            let ghost prevals = board.values();
            let cnt = self.count_candidates(i);
            if cnt == 1 {
                let d = self.some_candidate(i);
                proof {
                    assert(exists|dd: int| 1 <= dd <= 9 && self.candidate(i as int, dd)) by {
                        assert(self.candidate(i as int, d as int));
                    }
                    let ch = choose|dd: int| 1 <= dd <= 9 && self.candidate(i as int, dd);
                    assert(self.cell_candidates(i as int)[ch - 1]);
                    assert(self.cell_candidates(i as int)[d as int - 1]);
                    lemma_count_true_one_unique(
                        self.cell_candidates(i as int),
                        ch - 1,
                        d as int - 1,
                    );
                    assert(self.export_digit(i as int) == d as int);
                }
                board.set(i, d);
                proof {
                    assert(board.values() == prevals.update(i as int, d));
                    assert forall|j: int|
                        0 <= j < i + 1 implies board.values()[j] as int == self.export_digit(
                        j,
                    ) by {
                        if j < i {
                            assert(prevals[j] as int == self.export_digit(j));
                        }
                    }
                    assert forall|j: int| i + 1 <= j < 81 implies board.values()[j] == 0 by {
                        assert(prevals[j] == 0);
                    }
                }
            } else {
                proof {
                    assert(board.values() == prevals);
                    assert(self.export_digit(i as int) == 0);
                    assert forall|j: int|
                        0 <= j < i + 1 implies board.values()[j] as int == self.export_digit(
                        j,
                    ) by {
                        if j < i {
                            assert(prevals[j] as int == self.export_digit(j));
                        } else {
                            assert(prevals[j] == 0);
                        }
                    }
                    assert forall|j: int| i + 1 <= j < 81 implies board.values()[j] == 0 by {
                        assert(prevals[j] == 0);
                    }
                }
            }
        }
    }

    /// Builds an engine from a grid snapshot: a fresh engine, then one
    /// assignment per nonzero cell in increasing linear-index order. The
    /// order only decides which of two conflicting givens is blamed for a
    /// contradiction; a grid whose givens extend to a complete solution
    /// always builds, with every such solution still admitted, and a grid
    /// of zeroes builds an untouched engine.
    pub fn from_board(b: &Board) -> (r: Result<BoardSolving, Contradiction>)
        requires
            b.wf(),
        ensures
            r matches Ok(bs) ==> bs.wf() && bs.consistent(),
            r matches Ok(bs) ==> forall|i: int|
                0 <= i < 81 && b.values()[i] != 0 ==> #[trigger] bs.is_finished(i),
            r matches Ok(bs) ==> forall|i: int, d: int|
                0 <= i < 81 && 1 <= d <= 9 && b.values()[i] != 0 ==> (#[trigger] bs.candidate(
                    i,
                    d,
                ) <==> d == b.values()[i]),
            r matches Ok(bs) ==> bs.saturated(),
            r matches Ok(bs) ==> forall|c: int, d: int|
                0 <= c < 81 && 1 <= d <= 9 && !(#[trigger] bs.candidate(c, d))
                    ==> bs.removal_justified(c, d),
            r matches Ok(bs) ==> forall|sol: Seq<u8>|
                full_solution(sol) && agrees_with(sol, b.values()) ==> #[trigger] bs.admits(sol),
            (exists|sol: Seq<u8>| full_solution(sol) && #[trigger] agrees_with(sol, b.values()))
                ==> r is Ok,
            (forall|i: int| 0 <= i < 81 ==> b.values()[i] == 0) ==> r is Ok,
            (forall|i: int| 0 <= i < 81 ==> b.values()[i] == 0) ==> (r matches Ok(bs) ==> (forall|
                c: int,
                d: int,
            |
                0 <= c < 81 && 1 <= d <= 9 ==> #[trigger] bs.candidate(c, d)) && (forall|c: int|
                0 <= c < 81 ==> !(#[trigger] bs.is_finished(c)))),
    {
        let mut bs = BoardSolving::new();
        let ghost init = bs;
        proof {
            assert forall|sol: Seq<u8>|
                full_solution(sol) && agrees_with(sol, b.values()) implies #[trigger] bs.admits(
                sol,
            ) by {
                assert forall|c: int| 0 <= c < 81 implies #[trigger] bs.candidate(
                    c,
                    sol[c] as int,
                ) by {
                    assert(1 <= sol[c] <= 9);
                }
            }
        }
        for i in 0..81usize
            invariant
                b.wf(),
                bs.wf(),
                bs.consistent(),
                bs.saturated(),
                forall|c: int, d: int|
                    0 <= c < 81 && 1 <= d <= 9 && !(#[trigger] bs.candidate(c, d))
                        ==> bs.removal_justified(c, d),
                forall|sol: Seq<u8>|
                    full_solution(sol) && agrees_with(sol, b.values()) ==> #[trigger] bs.admits(
                        sol,
                    ),
                init.wf(),
                forall|c: int, d: int| 0 <= c < 81 && 1 <= d <= 9 ==> #[trigger] init.candidate(
                    c,
                    d,
                ),
                forall|c: int| 0 <= c < 81 ==> !(#[trigger] init.is_finished(c)),
                forall|j: int| 0 <= j < i && b.values()[j] != 0 ==> #[trigger] bs.is_finished(j),
                forall|j: int, d: int|
                    0 <= j < i && 1 <= d <= 9 && b.values()[j] != 0 ==> (#[trigger] bs.candidate(
                        j,
                        d,
                    ) <==> d == b.values()[j]),
                (forall|j: int| 0 <= j < 81 ==> b.values()[j] == 0) ==> bs.candidates_seq()
                    == init.candidates_seq() && bs.finished_seq() == init.finished_seq(),
        {
            let v = b.get(i);
            let ghost prev = bs;
            let res = bs.set((i / 9) as u8, (i % 9) as u8, v);
            proof {
                assert(9 * (i as int / 9) + i as int % 9 == i as int);
            }
            if let Err(e) = res {
                proof {
                    if forall|j: int| 0 <= j < 81 ==> b.values()[j] == 0 {
                        assert(b.values()[i as int] == 0);
                        assert(v != 0);
                    }
                    if exists|sol: Seq<u8>|
                        full_solution(sol) && #[trigger] agrees_with(sol, b.values()) {
                        let sol = choose|sol: Seq<u8>|
                            full_solution(sol) && #[trigger] agrees_with(sol, b.values());
                        assert(prev.admits(sol));
                        assert(v != 0);
                        assert(sol[i as int] == b.values()[i as int]);
                        assert(res is Ok);
                        assert(false);
                    }
                }
                return Err(e);
            }
            proof {
                assert forall|j: int, d: int|
                    0 <= j < i && 1 <= d <= 9 && b.values()[j] != 0 implies (
                #[trigger] bs.candidate(j, d) <==> d == b.values()[j]) by {
                    assert(prev.is_finished(j));
                    assert(prev.candidate(j, d) <==> d == b.values()[j]);
                    assert(bs.cell_candidates(j)[d - 1] == prev.cell_candidates(j)[d - 1]);
                }
                if v != 0 {
                    assert(prev.candidate(i as int, v as int)) by {
                        if !prev.candidate(i as int, v as int) {
                            assert(res is Err);
                        }
                    }
                }
                assert forall|sol: Seq<u8>|
                    full_solution(sol) && agrees_with(sol, b.values()) implies #[trigger] bs.admits(
                    sol,
                ) by {
                    assert(prev.admits(sol));
                    if v != 0 {
                        assert(sol[i as int] == b.values()[i as int]);
                    }
                }
                lemma_justified_compose(init, prev, bs);
                assert forall|c: int, d: int|
                    0 <= c < 81 && 1 <= d <= 9 && !(#[trigger] bs.candidate(
                        c,
                        d,
                    )) implies bs.removal_justified(c, d) by {
                    assert(init.candidate(c, d));
                }
            }
        }
        proof {
            if forall|j: int| 0 <= j < 81 ==> b.values()[j] == 0 {
                assert forall|c: int, d: int|
                    0 <= c < 81 && 1 <= d <= 9 implies #[trigger] bs.candidate(c, d) by {
                    assert(init.candidate(c, d));
                }
                assert forall|c: int| 0 <= c < 81 implies !(#[trigger] bs.is_finished(c)) by {
                    assert(!init.is_finished(c));
                }
            }
        }
        Ok(bs)
    }
}

/// Exporting is idempotent: two grids written from one engine state, with
/// no assignment or solve pass between the two exports, are the same grid.
pub proof fn lemma_export_deterministic(bs: &BoardSolving, g1: Seq<u8>, g2: Seq<u8>)
    requires
        g1.len() == 81,
        g2.len() == 81,
        forall|i: int| 0 <= i < 81 ==> #[trigger] g1[i] as int == bs.export_digit(i),
        forall|i: int| 0 <= i < 81 ==> #[trigger] g2[i] as int == bs.export_digit(i),
    ensures
        g1 == g2,
{
    assert(g1 =~= g2);
}

/// At most 81 cells can be finished. A solve pass that reports progress
/// finishes at least one more cell, so from any state a caller reaches a
/// pass that reports no progress after at most 81 progressing passes.
pub proof fn lemma_finished_count_bounded(bs: &BoardSolving)
    requires
        bs.wf(),
    ensures
        0 <= bs.finished_count() <= 81,
{
    lemma_count_true_bounds(bs.finished_seq());
}

/// If the pass's starting state still admits a complete solution, so does
/// the state just before any one of its hidden-single checks; a check that
/// reported a contradiction from such a state is impossible.
proof fn refute_solvable(before: BoardSolving, start: BoardSolving)
    requires
        forall|sol: Seq<u8>|
            full_solution(sol) && start.admits(sol) ==> #[trigger] before.admits(sol),
        !(exists|sol: Seq<u8>| full_solution(sol) && #[trigger] before.admits(sol)),
    ensures
        !(exists|sol: Seq<u8>| full_solution(sol) && #[trigger] start.admits(sol)),
{
    if exists|sol: Seq<u8>| full_solution(sol) && #[trigger] start.admits(sol) {
        let sol = choose|sol: Seq<u8>| full_solution(sol) && #[trigger] start.admits(sol);
        assert(before.admits(sol));
        assert(false);
    }
}

/// A group that forces no assignment in one engine state forces none in
/// any state with the same candidate and finished arrays.
proof fn lemma_no_hidden_transfer(a: BoardSolving, b: BoardSolving, idxs: Seq<usize>, d: int)
    requires
        a.no_hidden_single(idxs, d),
        b.candidates_seq() == a.candidates_seq(),
        b.finished_seq() == a.finished_seq(),
    ensures
        b.no_hidden_single(idxs, d),
{
    if a.group_satisfied(idxs, d) {
        let k = choose|k: int|
            0 <= k < idxs.len() && a.is_finished(#[trigger] idxs[k] as int) && a.candidate(
                idxs[k] as int,
                d,
            );
        assert(b.is_finished(idxs[k] as int) && b.candidate(idxs[k] as int, d));
        assert(b.group_satisfied(idxs, d));
    } else {
        assert(Seq::new(idxs.len(), |k: int| b.candidate(idxs[k] as int, d)) =~= Seq::new(
            idxs.len(),
            |k: int| a.candidate(idxs[k] as int, d),
        ));
    }
}

/// Chains elimination justification across two engine steps: a digit
/// removed at any point stays accounted for by a finished cell, because
/// finished cells stay finished and keep their candidate sets.
proof fn lemma_justified_compose(start: BoardSolving, mid: BoardSolving, now: BoardSolving)
    requires
        mid.wf(),
        now.wf(),
        forall|c: int, d: int|
            0 <= c < 81 && 1 <= d <= 9 && start.candidate(c, d) && !mid.candidate(c, d)
                ==> mid.removal_justified(c, d),
        forall|c: int, d: int|
            0 <= c < 81 && 1 <= d <= 9 && mid.candidate(c, d) && !now.candidate(c, d)
                ==> now.removal_justified(c, d),
        forall|c: int| 0 <= c < 81 && mid.is_finished(c) ==> now.is_finished(c),
        forall|c: int|
            0 <= c < 81 && mid.is_finished(c) ==> now.cell_candidates(c) == mid.cell_candidates(
                c,
            ),
    ensures
        forall|c: int, d: int|
            0 <= c < 81 && 1 <= d <= 9 && start.candidate(c, d) && !now.candidate(c, d)
                ==> now.removal_justified(c, d),
{
    assert forall|c: int, d: int|
        0 <= c < 81 && 1 <= d <= 9 && start.candidate(c, d) && !now.candidate(
            c,
            d,
        ) implies now.removal_justified(c, d) by {
        if mid.candidate(c, d) {
        } else {
            assert(mid.removal_justified(c, d));
            if mid.is_finished(c) {
                assert(now.is_finished(c));
            } else {
                let q = choose|q: int|
                    #![auto]
                    0 <= q < 81 && is_peer(q, c) && mid.is_finished(q) && mid.candidate(q, d);
                assert(mid.cell_candidates(q)[d - 1]);
                assert(now.is_finished(q));
                assert(now.cell_candidates(q) == mid.cell_candidates(q));
                assert(now.cell_candidates(q)[d - 1] == mid.cell_candidates(q)[d - 1]);
                assert(now.candidate(q, d));
                assert(now.removal_justified(c, d));
            }
        }
    }
}

/// Composes the monotonicity facts of two engine steps: what one
/// hidden-single check guarantees relative to its own pre-state carries
/// over to the pass's starting state.
proof fn lemma_step_compose(mid: BoardSolving, now: BoardSolving, start: BoardSolving)
    requires
        forall|c: int, d: int|
            0 <= c < 81 && 1 <= d <= 9 && mid.candidate(c, d) ==> start.candidate(c, d),
        forall|c: int| 0 <= c < 81 && start.is_finished(c) ==> mid.is_finished(c),
        forall|c: int|
            0 <= c < 81 && start.is_finished(c) ==> mid.cell_candidates(c) == start.cell_candidates(
                c,
            ),
        forall|c: int, d: int|
            0 <= c < 81 && 1 <= d <= 9 && now.candidate(c, d) ==> mid.candidate(c, d),
        forall|c: int| 0 <= c < 81 && mid.is_finished(c) ==> now.is_finished(c),
        forall|c: int|
            0 <= c < 81 && mid.is_finished(c) ==> now.cell_candidates(c) == mid.cell_candidates(c),
    ensures
        forall|c: int, d: int|
            0 <= c < 81 && 1 <= d <= 9 && now.candidate(c, d) ==> start.candidate(c, d),
        forall|c: int| 0 <= c < 81 && start.is_finished(c) ==> now.is_finished(c),
        forall|c: int|
            0 <= c < 81 && start.is_finished(c) ==> now.cell_candidates(c) == start.cell_candidates(
                c,
            ),
{
    assert forall|c: int, d: int|
        0 <= c < 81 && 1 <= d <= 9 && now.candidate(c, d) implies start.candidate(c, d) by {
        assert(mid.candidate(c, d));
    }
    assert forall|c: int| 0 <= c < 81 && start.is_finished(c) implies now.is_finished(c) by {
        assert(mid.is_finished(c));
    }
    assert forall|c: int| 0 <= c < 81 && start.is_finished(c) implies now.cell_candidates(c)
        == start.cell_candidates(c) by {
        assert(mid.is_finished(c));
        assert(now.cell_candidates(c) == mid.cell_candidates(c));
    }
}

/// Updating one entry of the flat candidate array changes only the cell
/// the entry belongs to, and that cell pointwise at the entry's offset.
proof fn lemma_update_one_cell(s: Seq<bool>, b: int, v: bool)
    requires
        s.len() == 729,
        0 <= b < 729,
    ensures
        forall|c: int|
            0 <= c < 81 && c != b / 9 ==> (#[trigger] s.update(b, v).subrange(9 * c, 9 * c + 9))
                == s.subrange(9 * c, 9 * c + 9),
        s.update(b, v).subrange(9 * (b / 9), 9 * (b / 9) + 9) == s.subrange(
            9 * (b / 9),
            9 * (b / 9) + 9,
        ).update(b % 9, v),
{
    assert forall|c: int| 0 <= c < 81 && c != b / 9 implies (#[trigger] s.update(b, v).subrange(
        9 * c,
        9 * c + 9,
    )) == s.subrange(9 * c, 9 * c + 9) by {
        assert(s.update(b, v).subrange(9 * c, 9 * c + 9) =~= s.subrange(9 * c, 9 * c + 9));
    }
    assert(s.update(b, v).subrange(9 * (b / 9), 9 * (b / 9) + 9) =~= s.subrange(
        9 * (b / 9),
        9 * (b / 9) + 9,
    ).update(b % 9, v));
}

} // verus!
