//! The ternary projection matrices of the coarse layers, stored as two bit
//! planes (non-zero mask and positive mask, eight columns per byte), and the
//! passes that apply them: signed sums of coefficient vectors, and the
//! transposed, extension-weighted column sums used by the sumcheck.
use crate::ifma::{q, Q};
use crate::qe::{qe_add, qe_sub, qe_valid, qe_zero, QuadraticExtension};
use crate::qe_vec::{qe_at, qe_vec_valid, QeVec};
use vstd::arithmetic::div_mod::*;
use vstd::prelude::*;

verus! {

/// A `height x (ratio * height)` matrix over `{-1, 0, 1}`; row `r` occupies
/// bytes `r * width_bytes ..` of both planes, column `c` bit `c % 8` of byte
/// `c / 8`.
pub struct ProjectionMatrix {
    pub height: usize,
    pub ratio: usize,
    pub width_bytes: usize,
    pub pos: Vec<u8>,
    pub nonzero: Vec<u8>,
}

/// The planes hold `height` rows of `width_bytes` bytes each, one bit per
/// column.
pub open spec fn matrix_wf(m: &ProjectionMatrix) -> bool {
    &&& m.pos.len() == m.height * m.width_bytes
    &&& m.nonzero.len() == m.height * m.width_bytes
    &&& m.width_bytes * 8 == m.ratio * m.height
    &&& m.ratio * m.height <= usize::MAX
}

/// The number of columns, `ratio * height`.
pub open spec fn row_len(m: &ProjectionMatrix) -> int {
    m.ratio * m.height
}

/// Bit `i` of byte `b`.
pub open spec fn bit_set(b: u8, i: u8) -> bool {
    (b >> i) & 1u8 == 1u8
}

/// The entry at `row`, `col`: 0 where the non-zero bit is clear, else +1 or
/// -1 by the positive bit.
pub open spec fn matrix_sign(m: &ProjectionMatrix, row: int, col: int) -> int {
    let index = row * m.width_bytes + col / 8;
    let bit = (col % 8) as u8;
    if !bit_set(m.nonzero@[index], bit) {
        0
    } else if bit_set(m.pos@[index], bit) {
        1
    } else {
        -1
    }
}

impl ProjectionMatrix {
    /// The entry at `row`, `col`.
    pub fn sign_at(&self, row: usize, col: usize) -> (r: i8)
        requires
            matrix_wf(self),
            row < self.height,
            col < self.ratio * self.height,
        ensures
            r as int == matrix_sign(self, row as int, col as int),
    {
        assert(row * self.width_bytes + col / 8 < self.height * self.width_bytes) by (nonlinear_arith)
            requires
                row < self.height,
                col < self.width_bytes * 8,
        ;
        let index = row * self.width_bytes + col / 8;
        let bit = (col % 8) as u8;
        assert(bit as int == ((col as int % 8) as u8) as int);
        assert(index as int == row as int * self.width_bytes as int + col as int / 8);
        let nz = self.nonzero[index];
        assert((nz >> bit) & 1u8 == 0u8 || (nz >> bit) & 1u8 == 1u8) by (bit_vector);
        if (nz >> bit) & 1u8 == 0 {
            0
        } else if (self.pos[index] >> bit) & 1u8 == 1 {
            1
        } else {
            proof {
                let p = self.pos@[index as int];
                assert((p >> bit) & 1u8 == 0u8 || (p >> bit) & 1u8 == 1u8) by (bit_vector);
            }
            -1
        }
    }
}

/// `sum_{col < n} sign(row, col) w[base + col][lane]` over the integers.
pub open spec fn signed_lane_sum_i16(
    m: &ProjectionMatrix,
    w: Seq<[i16; 128]>,
    base: int,
    row: int,
    lane: int,
    n: int,
) -> int
    decreases n,
{
    if n <= 0 {
        0
    } else {
        signed_lane_sum_i16(m, w, base, row, lane, n - 1) + matrix_sign(m, row, n - 1) * w[base + n
            - 1][lane]
    }
}

/// `sum_{col < n} sign(row, col) v[col][lane]` over the integers.
pub open spec fn signed_lane_sum_i32(m: &ProjectionMatrix, v: Seq<[i32; 128]>, row: int, lane: int, n: int) -> int
    decreases n,
{
    if n <= 0 {
        0
    } else {
        signed_lane_sum_i32(m, v, row, lane, n - 1) + matrix_sign(m, row, n - 1) * v[n - 1][lane]
    }
}

/// One row applied to one chunk of short coefficient vectors.
fn project_row_i16(
    witness: &Vec<[i16; 128]>,
    base: usize,
    m: &ProjectionMatrix,
    row: usize,
) -> (r: [i32; 128])
    requires
        matrix_wf(m),
        row < m.height,
        base + m.ratio * m.height <= witness.len(),
        m.ratio * m.height * 1024 < 0x8000_0000,
        forall|e: int, i: int|
            0 <= e < witness.len() && 0 <= i < 128 ==> -1024 <= #[trigger] witness@[e][i] <= 1024,
    ensures
        forall|lane: int|
            0 <= lane < 128 ==> #[trigger] r[lane] as int == signed_lane_sum_i16(
                m,
                witness@,
                base as int,
                row as int,
                lane,
                m.ratio * m.height,
            ),
{
    let n = m.ratio * m.height;
    let mut acc = [0i32; 128];
    let mut col: usize = 0;
    while col < n
        invariant
            matrix_wf(m),
            n == m.ratio * m.height,
            row < m.height,
            base + n <= witness.len(),
            n * 1024 < 0x8000_0000,
            forall|e: int, i: int|
                0 <= e < witness.len() && 0 <= i < 128 ==> -1024 <= #[trigger] witness@[e][i] <= 1024,
            col <= n,
            forall|lane: int|
                0 <= lane < 128 ==> #[trigger] acc[lane] as int == signed_lane_sum_i16(
                    m,
                    witness@,
                    base as int,
                    row as int,
                    lane,
                    col as int,
                ),
            forall|lane: int| 0 <= lane < 128 ==> -(col * 1024) <= #[trigger] acc[lane] <= col * 1024,
        decreases n - col,
    {
        let s = m.sign_at(row, col);
        let v = &witness[base + col];
        let mut lane: usize = 0;
        while lane < 128
            invariant
                col < n,
                n * 1024 < 0x8000_0000,
                -1 <= s <= 1,
                forall|i: int| 0 <= i < 128 ==> -1024 <= #[trigger] v[i] <= 1024,
                lane <= 128,
                forall|l: int|
                    lane <= l < 128 ==> #[trigger] acc[l] as int == signed_lane_sum_i16(
                        m,
                        witness@,
                        base as int,
                        row as int,
                        l,
                        col as int,
                    ),
                forall|l: int| lane <= l < 128 ==> -(col * 1024) <= #[trigger] acc[l] <= col * 1024,
                forall|l: int|
                    0 <= l < lane ==> #[trigger] acc[l] as int == signed_lane_sum_i16(
                        m,
                        witness@,
                        base as int,
                        row as int,
                        l,
                        col + 1,
                    ),
                forall|l: int| 0 <= l < lane ==> -((col + 1) * 1024) <= #[trigger] acc[l] <= (col + 1) * 1024,
                s as int == matrix_sign(m, row as int, col as int),
                *v == witness@[base + col],
            decreases 128 - lane,
        {
            let cur = acc[lane];
            let x = v[lane] as i32;
            assert(-((col + 1) * 1024) <= cur + s * x <= (col + 1) * 1024) by (nonlinear_arith)
                requires
                    -(col * 1024) <= cur <= col * 1024,
                    -1024 <= x <= 1024,
                    -1 <= s <= 1,
            ;
            let ghost sw = matrix_sign(m, row as int, col as int) * witness@[base + col][lane as int];
            assert(witness@[base + col][lane as int] == x);
            if s == 1 {
                assert(sw == x) by (nonlinear_arith)
                    requires
                        sw == matrix_sign(m, row as int, col as int) * x,
                        matrix_sign(m, row as int, col as int) == 1,
                ;
                acc[lane] = cur + x;
            } else if s == -1 {
                assert(sw == -x) by (nonlinear_arith)
                    requires
                        sw == matrix_sign(m, row as int, col as int) * x,
                        matrix_sign(m, row as int, col as int) == -1,
                ;
                acc[lane] = cur - x;
            } else {
                assert(sw == 0) by (nonlinear_arith)
                    requires
                        sw == matrix_sign(m, row as int, col as int) * x,
                        matrix_sign(m, row as int, col as int) == 0,
                ;
            }
            assert(signed_lane_sum_i16(m, witness@, base as int, row as int, lane as int, col + 1)
                == signed_lane_sum_i16(m, witness@, base as int, row as int, lane as int, col as int) + sw);
            lane = lane + 1;
        }
        col = col + 1;
    }
    acc
}

/// The first coarse layer on coefficient vectors: chunk `c` of `ratio *
/// height` vectors gives rows `c * height ..` of the image, row `r` the
/// signed sum of the chunk's vectors along matrix row `r`.
fn project_chunks_i16(witness: &Vec<[i16; 128]>, m: &ProjectionMatrix) -> (image: Vec<[i32; 128]>)
    requires
        matrix_wf(m),
        m.ratio * m.height > 0,
        m.ratio * m.height * 1024 < 0x8000_0000,
        forall|e: int, i: int|
            0 <= e < witness.len() && 0 <= i < 128 ==> -1024 <= #[trigger] witness@[e][i] <= 1024,
    ensures
        image.len() == (witness.len() as int / row_len(m)) * m.height,
        forall|c: int, row: int, lane: int|
            0 <= c < witness.len() as int / row_len(m) && 0 <= row < m.height && 0 <= lane < 128
                ==> #[trigger] image@[c * m.height + row][lane] as int == signed_lane_sum_i16(
                m,
                witness@,
                c * row_len(m),
                row,
                lane,
                row_len(m),
            ),
{
    let n = m.ratio * m.height;
    let chunks = witness.len() / n;
    proof {
        lemma_fundamental_div_mod(witness.len() as int, n as int);
        lemma_mod_bound(witness.len() as int, n as int);
    }
    let mut image: Vec<[i32; 128]> = Vec::new();
    let mut c: usize = 0;
    while c < chunks
        invariant
            matrix_wf(m),
            n == m.ratio * m.height,
            n > 0,
            n * 1024 < 0x8000_0000,
            chunks == witness.len() / n,
            chunks * n <= witness.len(),
            forall|e: int, i: int|
                0 <= e < witness.len() && 0 <= i < 128 ==> -1024 <= #[trigger] witness@[e][i] <= 1024,
            c <= chunks,
            image.len() == c * m.height,
            forall|cc: int, row: int, lane: int|
                0 <= cc < c && 0 <= row < m.height && 0 <= lane < 128 ==> #[trigger] image@[cc
                    * m.height + row][lane] as int == signed_lane_sum_i16(
                    m,
                    witness@,
                    cc * n,
                    row,
                    lane,
                    n as int,
                ),
        decreases chunks - c,
    {
        assert((c + 1) * n <= chunks * n) by (nonlinear_arith)
            requires
                c < chunks,
        ;
        assert(c * n + n == (c + 1) * n) by (nonlinear_arith);
        let base = c * n;
        let mut row: usize = 0;
        while row < m.height
            invariant
                matrix_wf(m),
                n == m.ratio * m.height,
                n * 1024 < 0x8000_0000,
                base == c * n,
                base + n <= witness.len(),
                forall|e: int, i: int|
                    0 <= e < witness.len() && 0 <= i < 128 ==> -1024 <= #[trigger] witness@[e][i]
                        <= 1024,
                c < chunks,
                row <= m.height,
                image.len() == c * m.height + row,
                forall|cc: int, r: int, lane: int|
                    0 <= cc < c && 0 <= r < m.height && 0 <= lane < 128 ==> #[trigger] image@[cc
                        * m.height + r][lane] as int == signed_lane_sum_i16(
                        m,
                        witness@,
                        cc * n,
                        r,
                        lane,
                        n as int,
                    ),
                forall|r: int, lane: int|
                    0 <= r < row && 0 <= lane < 128 ==> #[trigger] image@[c * m.height + r][lane] as int
                        == signed_lane_sum_i16(m, witness@, base as int, r, lane, n as int),
            decreases m.height - row,
        {
            let value = project_row_i16(witness, base, m, row);
            let ghost before = image@;
            image.push(value);
            proof {
                assert forall|cc: int, r: int, lane: int|
                    0 <= cc < c && 0 <= r < m.height && 0 <= lane < 128 implies #[trigger] image@[cc
                    * m.height + r][lane] as int == signed_lane_sum_i16(
                    m,
                    witness@,
                    cc * n,
                    r,
                    lane,
                    n as int,
                ) by {
                    assert(cc * m.height + r < c * m.height) by (nonlinear_arith)
                        requires
                            0 <= cc < c,
                            0 <= r < m.height,
                    ;
                    assert(image@[cc * m.height + r] == before[cc * m.height + r]);
                }
                assert forall|r: int, lane: int|
                    0 <= r < row + 1 && 0 <= lane < 128 implies #[trigger] image@[c * m.height
                    + r][lane] as int == signed_lane_sum_i16(m, witness@, base as int, r, lane, n as int) by {
                    if r < row {
                        assert(image@[c * m.height + r] == before[c * m.height + r]);
                    }
                }
            }
            row = row + 1;
        }
        assert((c + 1) * m.height == c * m.height + m.height) by (nonlinear_arith);
        c = c + 1;
    }
    image
}

/// The residue of a small signed value: `v` itself when non-negative, else
/// `q - |v|`.
pub fn lift(v: i64) -> (r: u64)
    requires
        -(Q as int) < v < Q,
    ensures
        r as int == v as int % q(),
        r < Q,
{
    if v >= 0 {
        proof {
            lemma_small_mod(v as nat, Q as nat);
        }
        v as u64
    } else {
        proof {
            lemma_mod_add_multiples_vanish(v as int, q());
            lemma_small_mod((v + Q) as nat, Q as nat);
        }
        Q - ((-v) as u64)
    }
}

/// Every lane of every row as a residue.
pub fn lift_i32(image: &Vec<[i32; 128]>) -> (r: Vec<[u64; 128]>)
    ensures
        r.len() == image.len(),
        forall|j: int, lane: int|
            0 <= j < image.len() && 0 <= lane < 128 ==> #[trigger] r@[j][lane] as int == image@[j][lane]
                as int % q(),
{
    let mut out: Vec<[u64; 128]> = Vec::new();
    let mut i: usize = 0;
    while i < image.len()
        invariant
            i <= image.len(),
            out.len() == i,
            forall|j: int, lane: int|
                0 <= j < i && 0 <= lane < 128 ==> #[trigger] out@[j][lane] as int == image@[j][lane]
                    as int % q(),
        decreases image.len() - i,
    {
        let v = &image[i];
        let mut row = [0u64; 128];
        let mut lane: usize = 0;
        while lane < 128
            invariant
                lane <= 128,
                *v == image@[i as int],
                forall|l: int| 0 <= l < lane ==> #[trigger] row[l] as int == v[l] as int % q(),
            decreases 128 - lane,
        {
            row[lane] = lift(v[lane] as i64);
            lane = lane + 1;
        }
        out.push(row);
        i = i + 1;
    }
    out
}

/// Every lane of every row as a residue; each lane must lie strictly
/// between `-q` and `q`.
pub fn lift_i64(image: &Vec<[i64; 128]>) -> (r: Vec<[u64; 128]>)
    requires
        forall|j: int, lane: int|
            0 <= j < image.len() && 0 <= lane < 128 ==> -(Q as int) < #[trigger] image@[j][lane] < Q,
    ensures
        r.len() == image.len(),
        forall|j: int, lane: int|
            0 <= j < image.len() && 0 <= lane < 128 ==> #[trigger] r@[j][lane] as int == image@[j][lane]
                as int % q(),
{
    let mut out: Vec<[u64; 128]> = Vec::new();
    let mut i: usize = 0;
    while i < image.len()
        invariant
            i <= image.len(),
            out.len() == i,
            forall|j: int, lane: int|
                0 <= j < image.len() && 0 <= lane < 128 ==> -(Q as int) < #[trigger] image@[j][lane] < Q,
            forall|j: int, lane: int|
                0 <= j < i && 0 <= lane < 128 ==> #[trigger] out@[j][lane] as int == image@[j][lane]
                    as int % q(),
        decreases image.len() - i,
    {
        let v = &image[i];
        let mut row = [0u64; 128];
        let mut lane: usize = 0;
        while lane < 128
            invariant
                lane <= 128,
                *v == image@[i as int],
                forall|l: int| 0 <= l < 128 ==> -(Q as int) < #[trigger] v[l] < Q,
                forall|l: int| 0 <= l < lane ==> #[trigger] row[l] as int == v[l] as int % q(),
            decreases 128 - lane,
        {
            assert(-(Q as int) < v[lane as int] < Q);
            row[lane] = lift(v[lane]);
            lane = lane + 1;
        }
        out.push(row);
        i = i + 1;
    }
    out
}

/// The first coarse projection lifted to residues: lane `lane` of image row
/// `c * height + r` is the signed sum of the chunk's coefficients mod `q`.
pub fn project_first_coarse(witness: &Vec<[i16; 128]>, m: &ProjectionMatrix) -> (image: Vec<[u64; 128]>)
    requires
        matrix_wf(m),
        m.ratio * m.height > 0,
        m.ratio * m.height * 1024 < 0x8000_0000,
        forall|e: int, i: int|
            0 <= e < witness.len() && 0 <= i < 128 ==> -1024 <= #[trigger] witness@[e][i] <= 1024,
    ensures
        image.len() == (witness.len() as int / row_len(m)) * m.height,
        forall|c: int, row: int, lane: int|
            0 <= c < witness.len() as int / row_len(m) && 0 <= row < m.height && 0 <= lane < 128
                ==> #[trigger] image@[c * m.height + row][lane] as int == signed_lane_sum_i16(
                m,
                witness@,
                c * row_len(m),
                row,
                lane,
                row_len(m),
            ) % q(),
{
    let sums = project_chunks_i16(witness, m);
    let image = lift_i32(&sums);
    proof {
        let n = row_len(m);
        assert forall|c: int, row: int, lane: int|
            0 <= c < witness.len() as int / n && 0 <= row < m.height && 0 <= lane < 128 implies #[trigger] image@[c
            * m.height + row][lane] as int == signed_lane_sum_i16(m, witness@, c * n, row, lane, n) % q() by {
            assert(c * m.height + row < (witness.len() as int / n) * m.height) by (nonlinear_arith)
                requires
                    0 <= c < witness.len() as int / n,
                    0 <= row < m.height,
            ;
            assert(image@[c * m.height + row][lane] as int == sums@[c * m.height + row][lane] as int % q());
        }
    }
    image
}

/// The second coarse layer on exact 32-bit sums: row `r` of the image is
/// the signed sum of the inputs along matrix row `r`, in 64 bits.
pub fn project_layer1(input: &Vec<[i32; 128]>, m: &ProjectionMatrix) -> (out: Vec<[i64; 128]>)
    requires
        matrix_wf(m),
        input.len() == m.ratio * m.height,
        m.ratio * m.height < 0x8000_0000,
    ensures
        out.len() == m.height,
        forall|row: int, lane: int|
            0 <= row < m.height && 0 <= lane < 128 ==> #[trigger] out@[row][lane] as int
                == signed_lane_sum_i32(m, input@, row, lane, row_len(m)),
{
    let n = input.len();
    let mut out: Vec<[i64; 128]> = Vec::new();
    let mut row: usize = 0;
    while row < m.height
        invariant
            matrix_wf(m),
            n == input.len(),
            n == m.ratio * m.height,
            n < 0x8000_0000,
            row <= m.height,
            out.len() == row,
            forall|r: int, lane: int|
                0 <= r < row && 0 <= lane < 128 ==> #[trigger] out@[r][lane] as int == signed_lane_sum_i32(
                    m,
                    input@,
                    r,
                    lane,
                    n as int,
                ),
        decreases m.height - row,
    {
        let mut acc = [0i64; 128];
        let mut col: usize = 0;
        while col < n
            invariant
                matrix_wf(m),
                n == input.len(),
                n == m.ratio * m.height,
                n < 0x8000_0000,
                row < m.height,
                col <= n,
                forall|lane: int|
                    0 <= lane < 128 ==> #[trigger] acc[lane] as int == signed_lane_sum_i32(
                        m,
                        input@,
                        row as int,
                        lane,
                        col as int,
                    ),
                forall|lane: int|
                    0 <= lane < 128 ==> -(col * 0x8000_0000) <= #[trigger] acc[lane] <= col * 0x8000_0000,
            decreases n - col,
        {
            let s = m.sign_at(row, col);
            let v = &input[col];
            let mut lane: usize = 0;
            while lane < 128
                invariant
                    col < n,
                    n < 0x8000_0000,
                    -1 <= s <= 1,
                    lane <= 128,
                    s as int == matrix_sign(m, row as int, col as int),
                    *v == input@[col as int],
                    forall|l: int|
                        lane <= l < 128 ==> #[trigger] acc[l] as int == signed_lane_sum_i32(
                            m,
                            input@,
                            row as int,
                            l,
                            col as int,
                        ),
                    forall|l: int| lane <= l < 128 ==> -(col * 0x8000_0000) <= #[trigger] acc[l] <= col * 0x8000_0000,
                    forall|l: int|
                        0 <= l < lane ==> #[trigger] acc[l] as int == signed_lane_sum_i32(
                            m,
                            input@,
                            row as int,
                            l,
                            col + 1,
                        ),
                    forall|l: int|
                        0 <= l < lane ==> -((col + 1) * 0x8000_0000) <= #[trigger] acc[l] <= (col + 1)
                            * 0x8000_0000,
                decreases 128 - lane,
            {
                let cur = acc[lane];
                let x = v[lane] as i64;
                let ghost sw = matrix_sign(m, row as int, col as int) * input@[col as int][lane as int];
                assert(-((col + 1) * 0x8000_0000) <= cur + s * x <= (col + 1) * 0x8000_0000) by (nonlinear_arith)
                    requires
                        -(col * 0x8000_0000) <= cur <= col * 0x8000_0000,
                        -0x8000_0000 <= x < 0x8000_0000,
                        -1 <= s <= 1,
                ;
                if s == 1 {
                    assert(sw == x) by (nonlinear_arith)
                        requires
                            sw == matrix_sign(m, row as int, col as int) * x,
                            matrix_sign(m, row as int, col as int) == 1,
                    ;
                    acc[lane] = cur + x;
                } else if s == -1 {
                    assert(sw == -x) by (nonlinear_arith)
                        requires
                            sw == matrix_sign(m, row as int, col as int) * x,
                            matrix_sign(m, row as int, col as int) == -1,
                    ;
                    acc[lane] = cur - x;
                } else {
                    assert(sw == 0) by (nonlinear_arith)
                        requires
                            sw == matrix_sign(m, row as int, col as int) * x,
                            matrix_sign(m, row as int, col as int) == 0,
                    ;
                }
                assert(signed_lane_sum_i32(m, input@, row as int, lane as int, col + 1)
                    == signed_lane_sum_i32(m, input@, row as int, lane as int, col as int) + sw);
                lane = lane + 1;
            }
            col = col + 1;
        }
        out.push(acc);
        row = row + 1;
    }
    out
}

/// `sum_{row < n} sign(row, col) w[row]` over the extension.
pub open spec fn signed_weight_sum(m: &ProjectionMatrix, w: Seq<QuadraticExtension>, col: int, n: int) -> QuadraticExtension
    decreases n,
{
    if n <= 0 {
        qe_zero()
    } else {
        let prev = signed_weight_sum(m, w, col, n - 1);
        let s = matrix_sign(m, n - 1, col);
        if s == 1 {
            qe_add(prev, w[n - 1])
        } else if s == -1 {
            qe_sub(prev, w[n - 1])
        } else {
            prev
        }
    }
}

/// The transposed weighting `out[col] = sum_row sign(row, col) w[row]`.
pub fn accumulate_j_columns_scalar(m: &ProjectionMatrix, row_weights: &Vec<QuadraticExtension>) -> (out: Vec<QuadraticExtension>)
    requires
        matrix_wf(m),
        row_weights.len() <= m.height,
        forall|i: int| 0 <= i < row_weights.len() ==> qe_valid(#[trigger] row_weights@[i]),
    ensures
        out.len() == row_len(m),
        forall|col: int| 0 <= col < out.len() ==> #[trigger] out@[col] == signed_weight_sum(
            m,
            row_weights@,
            col,
            row_weights.len() as int,
        ),
        forall|col: int| 0 <= col < out.len() ==> qe_valid(#[trigger] out@[col]),
{
    let width = m.ratio * m.height;
    let mut acc: Vec<QuadraticExtension> = Vec::new();
    let mut k: usize = 0;
    while k < width
        invariant
            k <= width,
            acc.len() == k,
            forall|col: int| 0 <= col < k ==> #[trigger] acc@[col] == qe_zero(),
        decreases width - k,
    {
        acc.push(QuadraticExtension::zero());
        k = k + 1;
    }
    let mut row: usize = 0;
    while row < row_weights.len()
        invariant
            matrix_wf(m),
            width == m.ratio * m.height,
            row_weights.len() <= m.height,
            forall|i: int| 0 <= i < row_weights.len() ==> qe_valid(#[trigger] row_weights@[i]),
            row <= row_weights.len(),
            acc.len() == width,
            forall|col: int| 0 <= col < width ==> #[trigger] acc@[col] == signed_weight_sum(
                m,
                row_weights@,
                col,
                row as int,
            ),
            forall|col: int| 0 <= col < width ==> qe_valid(#[trigger] acc@[col]),
        decreases row_weights.len() - row,
    {
        let w = row_weights[row];
        let mut col: usize = 0;
        while col < width
            invariant
                matrix_wf(m),
                width == m.ratio * m.height,
                row < row_weights.len(),
                row_weights.len() <= m.height,
                w == row_weights@[row as int],
                qe_valid(w),
                col <= width,
                acc.len() == width,
                forall|c: int| col <= c < width ==> #[trigger] acc@[c] == signed_weight_sum(
                    m,
                    row_weights@,
                    c,
                    row as int,
                ),
                forall|c: int| 0 <= c < col ==> #[trigger] acc@[c] == signed_weight_sum(
                    m,
                    row_weights@,
                    c,
                    row + 1,
                ),
                forall|c: int| 0 <= c < width ==> qe_valid(#[trigger] acc@[c]),
            decreases width - col,
        {
            let s = m.sign_at(row, col);
            let cur = acc[col];
            if s == 1 {
                acc.set(col, cur.add(w));
            } else if s == -1 {
                acc.set(col, cur.sub(w));
            }
            col = col + 1;
        }
        row = row + 1;
    }
    acc
}

/// The transposed weighting with weights and result kept as limb vectors.
pub fn accumulate_j_columns(m: &ProjectionMatrix, row_weights: &QeVec) -> (out: QeVec)
    requires
        matrix_wf(m),
        qe_vec_valid(row_weights),
        row_weights.limb0.len() == m.height,
    ensures
        qe_vec_valid(&out),
        out.limb0.len() == row_len(m),
        forall|col: int| 0 <= col < out.limb0.len() ==> #[trigger] out@[col] == signed_weight_sum(
            m,
            row_weights@,
            col,
            m.height as int,
        ),
{
    let weights = row_weights.to_vec();
    proof {
        assert forall|i: int| 0 <= i < weights.len() implies qe_valid(#[trigger] weights@[i]) by {
            assert(weights@[i] == qe_at(row_weights.limb0@, row_weights.limb1@, i));
        }
    }
    let acc = accumulate_j_columns_scalar(m, &weights);
    let mut limb0: Vec<u64> = Vec::new();
    let mut limb1: Vec<u64> = Vec::new();
    let mut i: usize = 0;
    while i < acc.len()
        invariant
            i <= acc.len(),
            limb0.len() == i,
            limb1.len() == i,
            forall|c: int| 0 <= c < acc.len() ==> qe_valid(#[trigger] acc@[c]),
            forall|c: int| 0 <= c < i ==> #[trigger] qe_at(limb0@, limb1@, c) == acc@[c],
            forall|c: int| 0 <= c < i ==> #[trigger] limb0@[c] < Q,
            forall|c: int| 0 <= c < i ==> #[trigger] limb1@[c] < Q,
        decreases acc.len() - i,
    {
        let v = acc[i];
        let ghost old0 = limb0@;
        let ghost old1 = limb1@;
        limb0.push(v.c0);
        limb1.push(v.c1);
        proof {
            assert(qe_at(limb0@, limb1@, i as int) == v);
            assert forall|c: int| 0 <= c < i + 1 implies #[trigger] qe_at(limb0@, limb1@, c) == acc@[c] by {
                if c < i {
                    assert(qe_at(limb0@, limb1@, c) == qe_at(old0, old1, c));
                }
            }
        }
        i = i + 1;
    }
    let out = QeVec { limb0, limb1 };
    proof {
        assert(weights@ == row_weights@);
        assert forall|col: int| 0 <= col < out.limb0.len() implies #[trigger] out@[col] == signed_weight_sum(
            m,
            row_weights@,
            col,
            m.height as int,
        ) by {
            assert(out@[col] == qe_at(limb0@, limb1@, col));
        }
    }
    out
}

} // verus!
