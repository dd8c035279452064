//! The linear commitment: a key of `rank x height` ring elements, and a
//! column committed as the `rank` inner products of the key rows with it.
use crate::ifma::q;
use crate::ring::{commit_pass, copy_column, lanes_valid, ring_dot_lane};
use vstd::prelude::*;

verus! {

/// A commitment key stored row by row: row `r` is `rows[r * height ..
/// (r + 1) * height]`.
pub struct CommitmentKey {
    pub rows: Vec<[u64; 128]>,
    pub height: usize,
    pub rank: usize,
}

/// The key holds `rank` rows of `height` residue elements.
pub open spec fn key_wf(k: &CommitmentKey) -> bool {
    &&& k.rows.len() == k.height * k.rank
    &&& forall|i: int| 0 <= i < k.rows.len() ==> lanes_valid(#[trigger] k.rows@[i])
}

impl CommitmentKey {
    /// The key with the given rows.
    pub fn from_rows(rows: Vec<[u64; 128]>, height: usize, rank: usize) -> (k: CommitmentKey)
        requires
            rows.len() == height * rank,
        ensures
            k.rows@ == rows@,
            k.height == height,
            k.rank == rank,
    {
        CommitmentKey { rows, height, rank }
    }

    /// The commitment to one column: `out[row] = sum_i key[row][i] column[i]`.
    pub fn commit_column(&self, column: &Vec<[u64; 128]>, zeta: &[u64; 64]) -> (out: Vec<[u64; 128]>)
        requires
            key_wf(self),
            column.len() == self.height,
            forall|i: int| 0 <= i < column.len() ==> lanes_valid(#[trigger] column@[i]),
        ensures
            out.len() == self.rank,
            forall|row: int, lane: int|
                0 <= row < self.rank && 0 <= lane < 128 ==> #[trigger] out@[row][lane] as int
                    == ring_dot_lane(
                    zeta@,
                    self.rows@,
                    column@,
                    row * self.height,
                    lane,
                    self.height as int,
                ) % q(),
    {
        let mut columns: Vec<Vec<[u64; 128]>> = Vec::new();
        columns.push(copy_column(column));
        proof {
            assert(columns@[0]@ == column@);
            assert(self.rows.len() == self.rank * self.height) by (nonlinear_arith)
                requires
                    self.rows.len() == self.height * self.rank,
            ;
        }
        let out = commit_pass(&self.rows, self.height, self.rank, &columns, zeta);
        proof {
            assert forall|row: int, lane: int|
                0 <= row < self.rank && 0 <= lane < 128 implies #[trigger] out@[row][lane] as int
                == ring_dot_lane(zeta@, self.rows@, column@, row * self.height, lane, self.height as int)
                % q() by {
                assert(out@[row * 1 + 0][lane] as int == ring_dot_lane(
                    zeta@,
                    self.rows@,
                    columns@[0]@,
                    row * self.height,
                    lane,
                    self.height as int,
                ) % q());
            }
        }
        out
    }

    /// The commitment to every column, stored row by row:
    /// `out[row * width + col]` commits column `col` under key row `row`.
    pub fn commit(&self, columns: &Vec<Vec<[u64; 128]>>, zeta: &[u64; 64]) -> (out: Vec<[u64; 128]>)
        requires
            key_wf(self),
            forall|c: int| 0 <= c < columns.len() ==> (#[trigger] columns@[c]).len() == self.height,
            forall|c: int, i: int|
                0 <= c < columns.len() && 0 <= i < columns@[c].len() ==> lanes_valid(
                    #[trigger] columns@[c]@[i],
                ),
        ensures
            out.len() == self.rank * columns.len(),
            forall|row: int, col: int, lane: int|
                0 <= row < self.rank && 0 <= col < columns.len() && 0 <= lane < 128
                    ==> #[trigger] out@[row * columns.len() + col][lane] as int == ring_dot_lane(
                    zeta@,
                    self.rows@,
                    columns@[col]@,
                    row * self.height,
                    lane,
                    self.height as int,
                ) % q(),
    {
        assert(self.rows.len() == self.rank * self.height) by (nonlinear_arith)
            requires
                self.rows.len() == self.height * self.rank,
        ;
        commit_pass(&self.rows, self.height, self.rank, columns, zeta)
    }
}

} // verus!
