//! The first coarse layer through lookup tables. Each group of four
//! witness coefficient vectors has its 40 signed combinations precomputed
//! per tile of 28 groups (sign patterns over `{-1, 0, 1}^4` that are
//! non-zero with a positive first entry, in depth-first generation order);
//! a matrix row then reads, per group, one table entry, negated when the
//! group's first non-zero sign is negative, sums seven entries in 16 bits
//! and widens the partial sums into 32-bit lanes.
use crate::config::WITNESS_COEFF_BOUND;
use crate::projection::{matrix_sign, matrix_wf, row_len, signed_lane_sum_i16, ProjectionMatrix};
use vstd::arithmetic::div_mod::*;
use vstd::prelude::*;

verus! {

/// Coefficients per group.
pub const GROUP: usize = 4;

/// Signed combinations per group.
pub const COMBOS: usize = 40;

/// Groups summed in 16 bits before widening.
pub const SUB_GROUPS: usize = 7;

/// Sub-groups per tile.
pub const SUB_TILES: usize = 4;

/// Groups per tile, `SUB_GROUPS * SUB_TILES`.
pub const TILE_GROUPS: usize = 28;

/// Bytes of one table entry: 128 lanes of 16 bits.
pub const ENTRY_BYTES: usize = 256;

/// The offset of the all-zero entry past a tile's table,
/// `TILE_GROUPS * COMBOS * ENTRY_BYTES`.
pub const ZERO_ENTRY: u32 = 286720;

/// The top bit of a slot: the entry is to be negated.
pub const SIGN_BIT: u32 = 0x8000_0000;

/// `3^e` for `e` in `0..5`.
pub open spec fn pow3(e: int) -> int {
    if e <= 0 {
        1
    } else if e == 1 {
        3
    } else if e == 2 {
        9
    } else if e == 3 {
        27
    } else {
        81
    }
}

/// Entry `i` of the sign pattern with base-3 code `c`: digit `i` minus one.
pub open spec fn code_sign(c: int, i: int) -> int {
    (c / pow3(i)) % 3 - 1
}

/// The position of the first non-zero entry (4 for the zero pattern).
pub open spec fn first_nonzero(c: int) -> int {
    if code_sign(c, 0) != 0 {
        0
    } else if code_sign(c, 1) != 0 {
        1
    } else if code_sign(c, 2) != 0 {
        2
    } else if code_sign(c, 3) != 0 {
        3
    } else {
        4
    }
}

/// The patterns the table lists: non-zero with a positive first entry.
pub open spec fn is_listed(c: int) -> bool {
    first_nonzero(c) < 4 && code_sign(c, first_nonzero(c)) == 1
}

/// The last non-zero entry before position `j`, or `-1`.
pub open spec fn last_nonzero_before(c: int, j: int) -> int
    decreases j,
{
    if j <= 0 {
        -1
    } else if code_sign(c, j - 1) != 0 {
        j - 1
    } else {
        last_nonzero_before(c, j - 1)
    }
}

/// How far the depth-first order moves from a pattern ending at `p` to its
/// extension by entry `j`: past the pattern itself and the subtrees of the
/// extensions at positions `p + 1 .. j` (two signs each, `3^(3 - i)`
/// patterns per subtree), and for sign -1 past the subtree of sign +1.
pub open spec fn rank_step(c: int, j: int) -> int {
    let p = last_nonzero_before(c, j);
    if code_sign(c, j) == 0 || p < 0 {
        0
    } else {
        1 + pow3(3 - p) - pow3(4 - j) + if code_sign(c, j) == -1 {
            pow3(3 - j)
        } else {
            0
        }
    }
}

/// The patterns starting at position `i` come after the 27, 9 and 3
/// patterns starting earlier.
pub open spec fn rank_base(i: int) -> int {
    if i <= 0 {
        0
    } else if i == 1 {
        27
    } else if i == 2 {
        36
    } else {
        39
    }
}

/// The index of a listed pattern in the depth-first generation order.
pub open spec fn combo_rank(c: int) -> int {
    rank_base(first_nonzero(c)) + rank_step(c, 1) + rank_step(c, 2) + rank_step(c, 3)
}

/// `3^e` for `e` in `0..4`.
fn pow3_exec(e: usize) -> (r: usize)
    requires
        e < 4,
    ensures
        r == pow3(e as int),
{
    if e == 0 {
        1
    } else if e == 1 {
        3
    } else if e == 2 {
        9
    } else {
        27
    }
}

/// The generation index of every listed sign pattern, keyed by its base-3
/// code `sum_i (s_i + 1) 3^i`; 255 for the other codes.
pub fn combo_index_table() -> (table: [u8; 81])
    ensures
        forall|c: int|
            0 <= c < 81 ==> #[trigger] table[c] as int == if is_listed(c) {
                combo_rank(c)
            } else {
                255
            },
{
    let mut table = [255u8; 81];
    let mut c: usize = 0;
    while c < 81
        invariant
            c <= 81,
            forall|d: int| c <= d < 81 ==> #[trigger] table[d] == 255,
            forall|d: int|
                0 <= d < c ==> #[trigger] table[d] as int == if is_listed(d) {
                    combo_rank(d)
                } else {
                    255
                },
        decreases 81 - c,
    {
        let mut s = [0i8; 4];
        let mut i: usize = 0;
        while i < 4
            invariant
                i <= 4,
                c < 81,
                forall|t: int| 0 <= t < i ==> #[trigger] s[t] as int == code_sign(c as int, t),
            decreases 4 - i,
        {
            s[i] = ((c / pow3_exec(i)) % 3) as i8 - 1;
            i = i + 1;
        }
        let first: usize = if s[0] != 0 {
            0
        } else if s[1] != 0 {
            1
        } else if s[2] != 0 {
            2
        } else if s[3] != 0 {
            3
        } else {
            4
        };
        assert(first as int == first_nonzero(c as int));
        if first < 4 && s[first] == 1 {
            let mut rank: usize = if first == 0 {
                0
            } else if first == 1 {
                27
            } else if first == 2 {
                36
            } else {
                39
            };
            let mut last: usize = first;
            let mut j: usize = first + 1;
            proof {
                reveal_with_fuel(last_nonzero_before, 5);
                assert forall|t: int| 1 <= t < j implies rank_step(c as int, t) == 0 by {
                    assert(last_nonzero_before(c as int, t) == -1);
                }
                assert(last_nonzero_before(c as int, j as int) == last as int);
            }
            while j < 4
                invariant
                    c < 81,
                    is_listed(c as int),
                    first as int == first_nonzero(c as int),
                    forall|t: int| 0 <= t < 4 ==> #[trigger] s[t] as int == code_sign(c as int, t),
                    first < j <= 4,
                    last < j,
                    last as int == last_nonzero_before(c as int, j as int),
                    rank <= 40 * j,
                    rank as int == rank_base(first as int) + (if 1 < j {
                        rank_step(c as int, 1)
                    } else {
                        0
                    }) + (if 2 < j {
                        rank_step(c as int, 2)
                    } else {
                        0
                    }) + (if 3 < j {
                        rank_step(c as int, 3)
                    } else {
                        0
                    }),
                    forall|t: int| 1 <= t <= first ==> rank_step(c as int, t) == 0,
                decreases 4 - j,
            {
                if s[j] != 0 {
                    let mut step = 1 + pow3_exec(3 - last) - 3 * pow3_exec(3 - j);
                    if s[j] == -1 {
                        step = step + pow3_exec(3 - j);
                    }
                    assert(pow3(4 - j) == 3 * pow3(3 - j));
                    assert(step as int == rank_step(c as int, j as int));
                    rank = rank + step;
                    last = j;
                } else {
                    assert(rank_step(c as int, j as int) == 0);
                }
                j = j + 1;
            }
            table[c] = rank as u8;
        }
        c = c + 1;
    }
    table
}

/// A code's digits are the ones it was built from.
proof fn lemma_code_digits(d0: int, d1: int, d2: int, d3: int)
    requires
        0 <= d0 < 3,
        0 <= d1 < 3,
        0 <= d2 < 3,
        0 <= d3 < 3,
    ensures
        code_sign(d0 + 3 * d1 + 9 * d2 + 27 * d3, 0) == d0 - 1,
        code_sign(d0 + 3 * d1 + 9 * d2 + 27 * d3, 1) == d1 - 1,
        code_sign(d0 + 3 * d1 + 9 * d2 + 27 * d3, 2) == d2 - 1,
        code_sign(d0 + 3 * d1 + 9 * d2 + 27 * d3, 3) == d3 - 1,
        0 <= d0 + 3 * d1 + 9 * d2 + 27 * d3 < 81,
{
    let c = d0 + 3 * d1 + 9 * d2 + 27 * d3;
    assert(c / 1 == c);
    assert(c / 3 == d1 + 3 * d2 + 9 * d3);
    assert(c / 9 == d2 + 3 * d3);
    assert(c / 27 == d3);
}

/// Every listed pattern has one of the indices `0 .. 40`.
pub proof fn lemma_combo_rank_bound(c: int)
    requires
        0 <= c < 81,
        is_listed(c),
    ensures
        0 <= combo_rank(c) < COMBOS,
{
    reveal_with_fuel(last_nonzero_before, 5);
    let s0 = code_sign(c, 0);
    let s1 = code_sign(c, 1);
    let s2 = code_sign(c, 2);
    let s3 = code_sign(c, 3);
    assert(-1 <= s0 <= 1 && -1 <= s1 <= 1 && -1 <= s2 <= 1 && -1 <= s3 <= 1);
    if s0 != 0 {
        assert(s0 == 1);
    } else if s1 != 0 {
        assert(s1 == 1);
    } else if s2 != 0 {
        assert(s2 == 1);
    } else {
        assert(s3 == 1);
    }
}

/// The code of the pattern with generation index `k`, for `k` in `0 .. 40`.
pub open spec fn combo_code(k: int) -> int {
    if k == 0 {
        41
    } else if k == 1 {
        44
    } else if k == 2 {
        53
    } else if k == 3 {
        80
    } else if k == 4 {
        26
    } else if k == 5 {
        35
    } else if k == 6 {
        62
    } else if k == 7 {
        8
    } else if k == 8 {
        71
    } else if k == 9 {
        17
    } else if k == 10 {
        38
    } else if k == 11 {
        47
    } else if k == 12 {
        74
    } else if k == 13 {
        20
    } else if k == 14 {
        29
    } else if k == 15 {
        56
    } else if k == 16 {
        2
    } else if k == 17 {
        65
    } else if k == 18 {
        11
    } else if k == 19 {
        50
    } else if k == 20 {
        77
    } else if k == 21 {
        23
    } else if k == 22 {
        32
    } else if k == 23 {
        59
    } else if k == 24 {
        5
    } else if k == 25 {
        68
    } else if k == 26 {
        14
    } else if k == 27 {
        43
    } else if k == 28 {
        52
    } else if k == 29 {
        79
    } else if k == 30 {
        25
    } else if k == 31 {
        34
    } else if k == 32 {
        61
    } else if k == 33 {
        7
    } else if k == 34 {
        70
    } else if k == 35 {
        16
    } else if k == 36 {
        49
    } else if k == 37 {
        76
    } else if k == 38 {
        22
    } else {
        67
    }
}

/// A listed code is the code of its own generation index.
proof fn lemma_combo_code_of_rank(c: int)
    requires
        0 <= c < 81,
        is_listed(c),
    ensures
        combo_code(combo_rank(c)) == c,
{
    reveal_with_fuel(last_nonzero_before, 5);
    let d0 = c % 3;
    let d1 = (c / 3) % 3;
    let d2 = (c / 9) % 3;
    let d3 = (c / 27) % 3;
    assert(c == d0 + 3 * d1 + 9 * d2 + 27 * d3);
    assert(code_sign(c, 0) == d0 - 1);
    assert(code_sign(c, 1) == d1 - 1);
    assert(code_sign(c, 2) == d2 - 1);
    assert(code_sign(c, 3) == d3 - 1);
}

/// Every generation index belongs to a listed pattern: the indices of the
/// listed patterns are exactly `0 .. 40`.
pub proof fn lemma_combo_rank_onto(k: int)
    requires
        0 <= k < COMBOS,
    ensures
        0 <= combo_code(k) < 81,
        is_listed(combo_code(k)),
        combo_rank(combo_code(k)) == k,
{
    reveal_with_fuel(last_nonzero_before, 5);
    let c = combo_code(k);
    let d0 = c % 3;
    let d1 = (c / 3) % 3;
    let d2 = (c / 9) % 3;
    let d3 = (c / 27) % 3;
    assert(code_sign(c, 0) == d0 - 1);
    assert(code_sign(c, 1) == d1 - 1);
    assert(code_sign(c, 2) == d2 - 1);
    assert(code_sign(c, 3) == d3 - 1);
}

/// Distinct listed patterns have distinct generation indices.
pub proof fn lemma_combo_rank_injective(c1: int, c2: int)
    requires
        0 <= c1 < 81,
        0 <= c2 < 81,
        is_listed(c1),
        is_listed(c2),
        combo_rank(c1) == combo_rank(c2),
    ensures
        c1 == c2,
{
    lemma_combo_code_of_rank(c1);
    lemma_combo_code_of_rank(c2);
}

/// Sign `i` of group `g` of matrix row `row`.
pub open spec fn group_sign(m: &ProjectionMatrix, row: int, g: int, i: int) -> int {
    matrix_sign(m, row, g * 4 + i)
}

/// The position of the group's first non-zero sign (4 if none).
pub open spec fn group_first(m: &ProjectionMatrix, row: int, g: int) -> int {
    if group_sign(m, row, g, 0) != 0 {
        0
    } else if group_sign(m, row, g, 1) != 0 {
        1
    } else if group_sign(m, row, g, 2) != 0 {
        2
    } else if group_sign(m, row, g, 3) != 0 {
        3
    } else {
        4
    }
}

/// The group's first non-zero sign (0 if none).
pub open spec fn group_lead(m: &ProjectionMatrix, row: int, g: int) -> int {
    if group_first(m, row, g) < 4 {
        group_sign(m, row, g, group_first(m, row, g))
    } else {
        0
    }
}

/// The code of the group's signs multiplied by the lead sign, so that the
/// first non-zero sign is +1.
pub open spec fn group_code(m: &ProjectionMatrix, row: int, g: int) -> int {
    let lead = group_lead(m, row, g);
    (group_sign(m, row, g, 0) * lead + 1) + 3 * (group_sign(m, row, g, 1) * lead + 1) + 9 * (
    group_sign(m, row, g, 2) * lead + 1) + 27 * (group_sign(m, row, g, 3) * lead + 1)
}

/// The slot of group `g` (number `gl` in its tile) of row `row`: the zero
/// entry for an all-zero group, else the byte offset of its combination in
/// the tile table, with the sign bit when the lead sign is -1.
pub open spec fn group_slot(m: &ProjectionMatrix, row: int, g: int, gl: int) -> int {
    if group_first(m, row, g) == 4 {
        ZERO_ENTRY as int
    } else {
        let offset = (gl * COMBOS + combo_rank(group_code(m, row, g))) * ENTRY_BYTES;
        if group_lead(m, row, g) > 0 {
            offset
        } else {
            offset + SIGN_BIT
        }
    }
}

/// The number of groups of tile `tile` when a row has `groups` groups.
pub open spec fn groups_in_tile(groups: int, tile: int) -> int {
    if groups - tile * TILE_GROUPS < TILE_GROUPS {
        groups - tile * TILE_GROUPS
    } else {
        TILE_GROUPS as int
    }
}

/// Where each row of each tile reads its group entries, for the matrix
/// `matrix`.
pub struct Layer0Plan {
    pub height: usize,
    pub row_len: usize,
    pub tile_groups: Vec<usize>,
    pub slots: Vec<u32>,
    pub matrix: Ghost<ProjectionMatrix>,
}

/// The slot of group `g` of a row of a tile with `groups` groups in the
/// tile: `group_slot` for the tile's groups, the zero entry after them.
pub open spec fn plan_slot(m: &ProjectionMatrix, tile: int, row: int, gl: int, groups: int) -> int {
    if gl < groups {
        group_slot(m, row, tile * TILE_GROUPS + gl, gl)
    } else {
        ZERO_ENTRY as int
    }
}

/// A plan as `Layer0Plan::new` builds it for its matrix.
pub open spec fn plan_wf(plan: &Layer0Plan) -> bool {
    let m = plan.matrix@;
    &&& matrix_wf(&m)
    &&& row_len(&m) % 4 == 0
    &&& row_len(&m) * WITNESS_COEFF_BOUND < 0x7fff_ffff
    &&& plan.height == m.height
    &&& plan.row_len == row_len(&m)
    &&& plan.tile_groups.len() == (row_len(&m) / 4 + TILE_GROUPS - 1) / (TILE_GROUPS as int)
    &&& forall|tile: int|
        0 <= tile < plan.tile_groups.len() ==> #[trigger] plan.tile_groups@[tile] == groups_in_tile(
            row_len(&m) / 4,
            tile,
        )
    &&& plan.slots.len() == plan.tile_groups.len() * m.height * TILE_GROUPS
    &&& forall|tile: int, row: int, gl: int|
        0 <= tile < plan.tile_groups.len() && 0 <= row < m.height && 0 <= gl < TILE_GROUPS
            ==> #[trigger] plan.slots@[(tile * m.height + row) * TILE_GROUPS + gl] as int == plan_slot(
            &m,
            tile,
            row,
            gl,
            plan.tile_groups@[tile] as int,
        )
}

impl Layer0Plan {
    /// The plan of a matrix whose rows split into whole groups and whose
    /// row sums of bounded coefficients fit in 32 bits.
    pub fn new(m: &ProjectionMatrix) -> (plan: Layer0Plan)
        requires
            matrix_wf(m),
            row_len(m) % 4 == 0,
            row_len(m) * WITNESS_COEFF_BOUND < 0x7fff_ffff,
            (row_len(m) / 4 + TILE_GROUPS) * m.height * TILE_GROUPS <= usize::MAX,
        ensures
            plan.matrix@ == *m,
            plan_wf(&plan),
            plan.height == m.height,
            plan.row_len == row_len(m),
            plan.tile_groups.len() == (row_len(m) / 4 + TILE_GROUPS - 1) / (TILE_GROUPS as int),
            forall|tile: int|
                0 <= tile < plan.tile_groups.len() ==> #[trigger] plan.tile_groups@[tile]
                    == groups_in_tile(row_len(m) / 4, tile),
            plan.slots.len() == plan.tile_groups.len() * m.height * TILE_GROUPS,
            forall|tile: int, row: int, gl: int|
                0 <= tile < plan.tile_groups.len() && 0 <= row < m.height && 0 <= gl < TILE_GROUPS
                    ==> #[trigger] plan.slots@[(tile * m.height + row) * TILE_GROUPS + gl] as int
                    == plan_slot(m, tile, row, gl, plan.tile_groups@[tile] as int),
    {
        let height = m.height;
        let row_len = m.ratio * m.height;
        let groups = row_len / GROUP;
        let tiles = (groups + TILE_GROUPS - 1) / TILE_GROUPS;
        let mut tile_groups: Vec<usize> = Vec::new();
        let mut t: usize = 0;
        while t < tiles
            invariant
                tiles == (groups + TILE_GROUPS - 1) / (TILE_GROUPS as int),
                t <= tiles,
                tile_groups.len() == t,
                forall|tt: int| 0 <= tt < t ==> #[trigger] tile_groups@[tt] == groups_in_tile(groups as int, tt),
            decreases tiles - t,
        {
            assert(t * TILE_GROUPS < groups) by (nonlinear_arith)
                requires
                    t < tiles,
                    tiles == (groups + 27) / 28,
                    TILE_GROUPS == 28,
            ;
            let rest = groups - t * TILE_GROUPS;
            tile_groups.push(if rest < TILE_GROUPS {
                rest
            } else {
                TILE_GROUPS
            });
            t = t + 1;
        }
        let index_of = combo_index_table();
        assert(tiles * TILE_GROUPS <= groups + TILE_GROUPS);
        assert(tiles * height * TILE_GROUPS <= usize::MAX) by (nonlinear_arith)
            requires
                tiles * TILE_GROUPS <= groups + TILE_GROUPS,
                (groups + TILE_GROUPS) * height * TILE_GROUPS <= usize::MAX,
                TILE_GROUPS == 28,
        ;
        let total = tiles * height * TILE_GROUPS;
        let mut slots: Vec<u32> = Vec::new();
        let mut k: usize = 0;
        while k < total
            invariant
                k <= total,
                slots.len() == k,
                forall|i: int| 0 <= i < k ==> #[trigger] slots@[i] == ZERO_ENTRY,
            decreases total - k,
        {
            slots.push(ZERO_ENTRY);
            k = k + 1;
        }
        proof {
            assert forall|tt: int, r: int, gl: int|
                0 <= tt < tiles && 0 <= r < height && 0 <= gl < TILE_GROUPS implies #[trigger] slots@[(tt
                * height + r) * TILE_GROUPS + gl] as int == ZERO_ENTRY as int by {
                assert((tt * height + r) * TILE_GROUPS + gl < total) by (nonlinear_arith)
                    requires
                        0 <= tt < tiles,
                        0 <= r < height,
                        0 <= gl < TILE_GROUPS,
                        total == tiles * height * TILE_GROUPS,
                ;
            }
        }
        let mut tile: usize = 0;
        while tile < tiles
            invariant
                matrix_wf(m),
                height == m.height,
                row_len == m.ratio * m.height,
                groups == row_len / 4,
                tiles == (groups + TILE_GROUPS - 1) / (TILE_GROUPS as int),
                total == tiles * height * TILE_GROUPS,
                tile_groups.len() == tiles,
                forall|tt: int| 0 <= tt < tiles ==> #[trigger] tile_groups@[tt] == groups_in_tile(groups as int, tt),
                forall|c: int|
                    0 <= c < 81 ==> #[trigger] index_of[c] as int == if is_listed(c) {
                        combo_rank(c)
                    } else {
                        255
                    },
                tile <= tiles,
                slots.len() == total,
                forall|tt: int, r: int, gl: int|
                    0 <= tt < tiles && 0 <= r < height && 0 <= gl < TILE_GROUPS ==> #[trigger] slots@[(tt
                        * height + r) * TILE_GROUPS + gl] as int == if tt < tile {
                        plan_slot(m, tt, r, gl, tile_groups@[tt] as int)
                    } else {
                        ZERO_ENTRY as int
                    },
            decreases tiles - tile,
        {
            let mut row: usize = 0;
            while row < height
                invariant
                    matrix_wf(m),
                    height == m.height,
                    row_len == m.ratio * m.height,
                    groups == row_len / 4,
                    tiles == (groups + TILE_GROUPS - 1) / (TILE_GROUPS as int),
                    total == tiles * height * TILE_GROUPS,
                    tile_groups.len() == tiles,
                    forall|tt: int| 0 <= tt < tiles ==> #[trigger] tile_groups@[tt] == groups_in_tile(groups as int, tt),
                    forall|c: int|
                        0 <= c < 81 ==> #[trigger] index_of[c] as int == if is_listed(c) {
                            combo_rank(c)
                        } else {
                            255
                        },
                    tile < tiles,
                    row <= height,
                    slots.len() == total,
                    forall|tt: int, r: int, gl: int|
                        0 <= tt < tiles && 0 <= r < height && 0 <= gl < TILE_GROUPS ==> #[trigger] slots@[(tt
                            * height + r) * TILE_GROUPS + gl] as int == if tt < tile || (tt == tile && r
                            < row) {
                            plan_slot(m, tt, r, gl, tile_groups@[tt] as int)
                        } else {
                            ZERO_ENTRY as int
                        },
                decreases height - row,
            {
                assert((tile * height + row) * TILE_GROUPS + TILE_GROUPS <= total) by (nonlinear_arith)
                    requires
                        tile < tiles,
                        row < height,
                        total == tiles * height * TILE_GROUPS,
                ;
                let base_slot = (tile * height + row) * TILE_GROUPS;
                let count = tile_groups[tile];
                let mut gl: usize = 0;
                while gl < count
                    invariant
                        matrix_wf(m),
                        height == m.height,
                        row_len == m.ratio * m.height,
                        groups == row_len / 4,
                        tiles == (groups + TILE_GROUPS - 1) / (TILE_GROUPS as int),
                        total == tiles * height * TILE_GROUPS,
                        tile_groups.len() == tiles,
                        forall|tt: int| 0 <= tt < tiles ==> #[trigger] tile_groups@[tt] == groups_in_tile(groups as int, tt),
                        forall|c: int|
                            0 <= c < 81 ==> #[trigger] index_of[c] as int == if is_listed(c) {
                                combo_rank(c)
                            } else {
                                255
                            },
                        tile < tiles,
                        row < height,
                        base_slot == (tile * height + row) * TILE_GROUPS,
                        base_slot + TILE_GROUPS <= total,
                        count == tile_groups@[tile as int],
                        gl <= count,
                        slots.len() == total,
                        forall|tt: int, r: int, g: int|
                            0 <= tt < tiles && 0 <= r < height && 0 <= g < TILE_GROUPS ==> #[trigger] slots@[(tt
                                * height + r) * TILE_GROUPS + g] as int == if tt < tile || (tt == tile
                                && r < row) || (tt == tile && r == row && g < gl) {
                                plan_slot(m, tt, r, g, tile_groups@[tt] as int)
                            } else {
                                ZERO_ENTRY as int
                            },
                    decreases count - gl,
                {
                    let ghost g = tile * TILE_GROUPS + gl;
                    assert(g < groups);
                    let col = (tile * TILE_GROUPS + gl) * GROUP;
                    assert(col + 3 < row_len);
                    let s0 = m.sign_at(row, col);
                    let s1 = m.sign_at(row, col + 1);
                    let s2 = m.sign_at(row, col + 2);
                    let s3 = m.sign_at(row, col + 3);
                    assert(s0 as int == group_sign(m, row as int, g, 0));
                    assert(s1 as int == group_sign(m, row as int, g, 1));
                    assert(s2 as int == group_sign(m, row as int, g, 2));
                    assert(s3 as int == group_sign(m, row as int, g, 3));
                    let lead: i8 = if s0 != 0 {
                        s0
                    } else if s1 != 0 {
                        s1
                    } else if s2 != 0 {
                        s2
                    } else {
                        s3
                    };
                    assert(lead as int == group_lead(m, row as int, g));
                    let ghost before = slots@;
                    let ghost value = plan_slot(m, tile as int, row as int, gl as int, count as int);
                    if lead != 0 {
                        assert(-1 <= s0 * lead <= 1 && -1 <= s1 * lead <= 1 && -1 <= s2 * lead <= 1 && -1
                            <= s3 * lead <= 1) by (nonlinear_arith)
                            requires
                                lead == 1 || lead == -1,
                                -1 <= s0 <= 1,
                                -1 <= s1 <= 1,
                                -1 <= s2 <= 1,
                                -1 <= s3 <= 1,
                        ;
                        let d0 = s0 * lead + 1;
                        let d1 = s1 * lead + 1;
                        let d2 = s2 * lead + 1;
                        let d3 = s3 * lead + 1;
                        proof {
                            assert(lead * lead == 1) by (nonlinear_arith)
                                requires
                                    lead == 1 || lead == -1,
                            ;
                            assert(0 <= d0 < 3 && 0 <= d1 < 3 && 0 <= d2 < 3 && 0 <= d3 < 3) by (nonlinear_arith)
                                requires
                                    lead == 1 || lead == -1,
                                    -1 <= s0 <= 1,
                                    -1 <= s1 <= 1,
                                    -1 <= s2 <= 1,
                                    -1 <= s3 <= 1,
                                    d0 == s0 * lead + 1,
                                    d1 == s1 * lead + 1,
                                    d2 == s2 * lead + 1,
                                    d3 == s3 * lead + 1,
                            ;
                            lemma_code_digits(d0 as int, d1 as int, d2 as int, d3 as int);
                        }
                        let code = (d0 as usize) + 3 * (d1 as usize) + 9 * (d2 as usize) + 27 * (d3 as usize);
                        proof {
                            assert(code as int == group_code(m, row as int, g));
                            assert(is_listed(code as int)) by {
                                assert(first_nonzero(code as int) == group_first(m, row as int, g));
                                assert(code_sign(code as int, first_nonzero(code as int)) == lead * lead);
                            }
                        }
                        let index = index_of[code];
                        assert(index < 40) by {
                            lemma_combo_rank_bound(code as int);
                        }
                        let offset: u32 = ((gl * COMBOS + index as usize) * ENTRY_BYTES) as u32;
                        let slot_value: u32 = if lead > 0 {
                            offset
                        } else {
                            assert(offset < 0x8000_0000u32 ==> offset | 0x8000_0000u32 == offset + 0x8000_0000u32)
                                by (bit_vector);
                            offset | SIGN_BIT
                        };
                        slots.set(base_slot + gl, slot_value);
                        assert(slot_value as int == value);
                    } else {
                        assert(value == ZERO_ENTRY as int);
                    }
                    proof {
                        assert forall|tt: int, r: int, gg: int|
                            0 <= tt < tiles && 0 <= r < height && 0 <= gg < TILE_GROUPS implies #[trigger] slots@[(tt
                            * height + r) * TILE_GROUPS + gg] as int == if tt < tile || (tt == tile
                            && r < row) || (tt == tile && r == row && gg < gl + 1) {
                            plan_slot(m, tt, r, gg, tile_groups@[tt] as int)
                        } else {
                            ZERO_ENTRY as int
                        } by {
                            let idx = (tt * height + r) * TILE_GROUPS + gg;
                            assert(idx < total) by (nonlinear_arith)
                                requires
                                    idx == (tt * height + r) * TILE_GROUPS + gg,
                                    0 <= tt < tiles,
                                    0 <= r < height,
                                    0 <= gg < TILE_GROUPS,
                                    total == tiles * height * TILE_GROUPS,
                            ;
                            if idx != base_slot + gl {
                                assert(slots@[idx] == before[idx]);
                            }
                            if tt == tile && r == row && gg == gl {
                                assert(idx == base_slot + gl);
                            } else {
                                assert(idx != base_slot + gl) by (nonlinear_arith)
                                    requires
                                        idx == (tt * height + r) * TILE_GROUPS + gg,
                                        base_slot == (tile * height + row) * TILE_GROUPS,
                                        0 <= tt < tiles,
                                        0 <= r < height,
                                        0 <= gg < TILE_GROUPS,
                                        0 <= gl < TILE_GROUPS,
                                        tile < tiles,
                                        row < height,
                                        !(tt == tile && r == row && gg == gl),
                                ;
                            }
                        }
                    }
                    gl = gl + 1;
                }
                proof {
                    assert forall|tt: int, r: int, g: int|
                        0 <= tt < tiles && 0 <= r < height && 0 <= g < TILE_GROUPS implies #[trigger] slots@[(tt
                        * height + r) * TILE_GROUPS + g] as int == if tt < tile || (tt == tile && r
                        < row + 1) {
                        plan_slot(m, tt, r, g, tile_groups@[tt] as int)
                    } else {
                        ZERO_ENTRY as int
                    } by {
                        if tt == tile && r == row && g >= count {
                            assert(plan_slot(m, tt, r, g, tile_groups@[tt] as int) == ZERO_ENTRY as int);
                        }
                    }
                }
                row = row + 1;
            }
            tile = tile + 1;
        }
        Layer0Plan { height, row_len, tile_groups, slots, matrix: Ghost(*m) }
    }
}

/// The table entry of pattern `c` for the group of four coefficient vectors
/// at `base`: `sum_i sign_i(c) w[base + i][lane]`.
pub open spec fn combo_value(w: Seq<[i16; 128]>, base: int, c: int, lane: int) -> int {
    code_sign(c, 0) * w[base][lane] + code_sign(c, 1) * w[base + 1][lane] + code_sign(c, 2) * w[base
        + 2][lane] + code_sign(c, 3) * w[base + 3][lane]
}

/// Every lane of every vector lies in `[-bound, bound]`.
pub open spec fn lanes_bounded(w: Seq<[i16; 128]>, bound: int) -> bool {
    forall|e: int, i: int| 0 <= e < w.len() && 0 <= i < 128 ==> -bound <= #[trigger] w[e][i] <= bound
}

/// The entries of group `gl` of a tile table built from the groups at
/// `start`: pattern `c` at index `gl * COMBOS + combo_rank(c)`.
pub open spec fn tile_group_built(table: Seq<[i16; 128]>, w: Seq<[i16; 128]>, start: int, gl: int) -> bool {
    forall|c: int, lane: int|
        0 <= c < 81 && is_listed(c) && 0 <= lane < 128 ==> #[trigger] table[gl * COMBOS + combo_rank(c)][lane]
            as int == combo_value(w, start + 4 * gl, c, lane)
}

/// The table of one tile: for each of its `groups` groups of four
/// coefficient vectors from `start` on, the 40 signed combinations; the
/// entries past them, the zero entry among them, are left as they were.
fn build_tile_table(
    table: &mut Vec<[i16; 128]>,
    witness: &Vec<[i16; 128]>,
    start: usize,
    groups: usize,
    index_of: &[u8; 81],
)
    requires
        old(table).len() == TILE_GROUPS * COMBOS + 1,
        lanes_bounded(old(table)@, 4 * WITNESS_COEFF_BOUND as int),
        groups <= TILE_GROUPS,
        start + 4 * groups <= witness.len(),
        lanes_bounded(witness@, WITNESS_COEFF_BOUND as int),
        forall|c: int|
            0 <= c < 81 ==> #[trigger] index_of[c] as int == if is_listed(c) {
                combo_rank(c)
            } else {
                255
            },
    ensures
        final(table).len() == TILE_GROUPS * COMBOS + 1,
        lanes_bounded(final(table)@, 4 * WITNESS_COEFF_BOUND as int),
        forall|i: int| groups * COMBOS <= i < final(table).len() ==> #[trigger] final(table)@[i] == old(table)@[i],
        forall|gl: int| 0 <= gl < groups ==> tile_group_built(final(table)@, witness@, start as int, gl),
{
    let ghost initial = table@;
    let mut gl: usize = 0;
    while gl < groups
        invariant
            table.len() == TILE_GROUPS * COMBOS + 1,
            lanes_bounded(table@, 4 * WITNESS_COEFF_BOUND as int),
            groups <= TILE_GROUPS,
            start + 4 * groups <= witness.len(),
            lanes_bounded(witness@, WITNESS_COEFF_BOUND as int),
            forall|c: int|
                0 <= c < 81 ==> #[trigger] index_of[c] as int == if is_listed(c) {
                    combo_rank(c)
                } else {
                    255
                },
            gl <= groups,
            forall|i: int| gl * COMBOS <= i < table.len() ==> #[trigger] table@[i] == initial[i],
            forall|g: int| 0 <= g < gl ==> tile_group_built(table@, witness@, start as int, g),
        decreases groups - gl,
    {
        let base = start + 4 * gl;
        let w0 = &witness[base];
        let w1 = &witness[base + 1];
        let w2 = &witness[base + 2];
        let w3 = &witness[base + 3];
        let mut c: usize = 0;
        while c < 81
            invariant
                table.len() == TILE_GROUPS * COMBOS + 1,
                lanes_bounded(table@, 4 * WITNESS_COEFF_BOUND as int),
                gl < groups,
                groups <= TILE_GROUPS,
                base == start + 4 * gl,
                base + 4 <= witness.len(),
                lanes_bounded(witness@, WITNESS_COEFF_BOUND as int),
                *w0 == witness@[base as int],
                *w1 == witness@[base + 1],
                *w2 == witness@[base + 2],
                *w3 == witness@[base + 3],
                forall|d: int|
                    0 <= d < 81 ==> #[trigger] index_of[d] as int == if is_listed(d) {
                        combo_rank(d)
                    } else {
                        255
                    },
                c <= 81,
                forall|i: int| (gl + 1) * COMBOS <= i < table.len() ==> #[trigger] table@[i] == initial[i],
                forall|g: int| 0 <= g < gl ==> tile_group_built(table@, witness@, start as int, g),
                forall|d: int, lane: int|
                    0 <= d < c && is_listed(d) && 0 <= lane < 128 ==> #[trigger] table@[gl * COMBOS
                        + combo_rank(d)][lane] as int == combo_value(witness@, base as int, d, lane),
            decreases 81 - c,
        {
            let index = index_of[c];
            if index != 255 {
                assert(is_listed(c as int));
                proof {
                    lemma_combo_rank_bound(c as int);
                }
                let mut s = [0i16; 4];
                let mut i: usize = 0;
                while i < 4
                    invariant
                        i <= 4,
                        c < 81,
                        forall|t: int| 0 <= t < i ==> #[trigger] s[t] as int == code_sign(c as int, t),
                    decreases 4 - i,
                {
                    s[i] = ((c / pow3_exec(i)) % 3) as i16 - 1;
                    i = i + 1;
                }
                let mut entry = [0i16; 128];
                let mut lane: usize = 0;
                while lane < 128
                    invariant
                        lane <= 128,
                        forall|t: int| 0 <= t < 4 ==> -1 <= #[trigger] s[t] <= 1,
                        forall|t: int| 0 <= t < 4 ==> #[trigger] s[t] as int == code_sign(c as int, t),
                        lanes_bounded(witness@, WITNESS_COEFF_BOUND as int),
                        base + 4 <= witness.len(),
                        *w0 == witness@[base as int],
                        *w1 == witness@[base + 1],
                        *w2 == witness@[base + 2],
                        *w3 == witness@[base + 3],
                        forall|l: int| 0 <= l < lane ==> #[trigger] entry[l] as int == combo_value(
                            witness@,
                            base as int,
                            c as int,
                            l,
                        ),
                        forall|l: int| 0 <= l < lane ==> -4096 <= #[trigger] entry[l] <= 4096,
                    decreases 128 - lane,
                {
                    let a0 = w0[lane];
                    let a1 = w1[lane];
                    let a2 = w2[lane];
                    let a3 = w3[lane];
                    assert(-1024 <= a0 <= 1024 && -1024 <= a1 <= 1024 && -1024 <= a2 <= 1024 && -1024 <= a3
                        <= 1024);
                    let s0 = s[0];
                    let s1 = s[1];
                    let s2 = s[2];
                    let s3 = s[3];
                    assert(-1024 <= s0 * a0 <= 1024 && -1024 <= s1 * a1 <= 1024 && -1024 <= s2 * a2 <= 1024
                        && -1024 <= s3 * a3 <= 1024) by (nonlinear_arith)
                        requires
                            -1 <= s0 <= 1,
                            -1 <= s1 <= 1,
                            -1 <= s2 <= 1,
                            -1 <= s3 <= 1,
                            -1024 <= a0 <= 1024,
                            -1024 <= a1 <= 1024,
                            -1024 <= a2 <= 1024,
                            -1024 <= a3 <= 1024,
                    ;
                    entry[lane] = s0 * a0 + s1 * a1 + s2 * a2 + s3 * a3;
                    lane = lane + 1;
                }
                let at = gl * COMBOS + index as usize;
                let ghost before = table@;
                table.set(at, entry);
                proof {
                    assert forall|e: int, t: int|
                        0 <= e < table.len() && 0 <= t < 128 implies -(4 * WITNESS_COEFF_BOUND as int)
                        <= #[trigger] table@[e][t] <= 4 * WITNESS_COEFF_BOUND as int by {
                        if e != at {
                            assert(table@[e] == before[e]);
                        }
                    }
                    assert forall|g: int| 0 <= g < gl implies tile_group_built(
                        table@,
                        witness@,
                        start as int,
                        g,
                    ) by {
                        assert forall|d: int, l: int| 0 <= d < 81 && is_listed(d) && 0 <= l < 128 implies #[trigger] table@[g
                            * COMBOS + combo_rank(d)][l] as int == combo_value(
                            witness@,
                            start + 4 * g,
                            d,
                            l,
                        ) by {
                            lemma_combo_rank_bound(d);
                            assert(g * COMBOS + combo_rank(d) < gl * COMBOS) by (nonlinear_arith)
                                requires
                                    0 <= g < gl,
                                    0 <= combo_rank(d) < 40,
                                    COMBOS == 40,
                            ;
                            assert(tile_group_built(before, witness@, start as int, g));
                            assert(table@[g * COMBOS + combo_rank(d)] == before[g * COMBOS + combo_rank(d)]);
                        }
                    }
                    assert forall|d: int, l: int|
                        0 <= d < c + 1 && is_listed(d) && 0 <= l < 128 implies #[trigger] table@[gl * COMBOS
                        + combo_rank(d)][l] as int == combo_value(witness@, base as int, d, l) by {
                        if d != c {
                            lemma_combo_rank_bound(d);
                            if combo_rank(d) == combo_rank(c as int) {
                                lemma_combo_rank_injective(d, c as int);
                            }
                            assert(table@[gl * COMBOS + combo_rank(d)] == before[gl * COMBOS + combo_rank(d)]);
                        }
                    }
                    assert forall|i: int| (gl + 1) * COMBOS <= i < table.len() implies #[trigger] table@[i]
                        == initial[i] by {
                        assert(table@[i] == before[i]);
                    }
                }
            } else {
                assert(!is_listed(c as int));
            }
            c = c + 1;
        }
        proof {
            assert(tile_group_built(table@, witness@, start as int, gl as int));
        }
        gl = gl + 1;
    }
}


/// The entry a slot reads from a tile table: the entry at its byte offset
/// with the sign bit cleared, negated when the sign bit is set.
pub open spec fn slot_entry(table: Seq<[i16; 128]>, slot: int, lane: int) -> int {
    let e = table[(slot % 0x8000_0000) / (ENTRY_BYTES as int)][lane] as int;
    if slot >= 0x8000_0000 {
        -e
    } else {
        e
    }
}

/// The columns of a row of length `n` before local group `gl` of tile
/// `tile`.
pub open spec fn covered(n: int, tile: int, gl: int) -> int {
    if tile * (4 * TILE_GROUPS) + 4 * gl < n {
        tile * (4 * TILE_GROUPS) + 4 * gl
    } else {
        n
    }
}

/// A signed lane sum over `k` columns of vectors bounded by 1024 is at most
/// `1024 k` in absolute value.
proof fn lemma_lane_sum_bound(m: &ProjectionMatrix, w: Seq<[i16; 128]>, base: int, row: int, lane: int, k: int)
    requires
        0 <= k,
        0 <= base,
        base + k <= w.len(),
        0 <= lane < 128,
        lanes_bounded(w, WITNESS_COEFF_BOUND as int),
    ensures
        -(1024 * k) <= signed_lane_sum_i16(m, w, base, row, lane, k) <= 1024 * k,
    decreases k,
{
    if k > 0 {
        lemma_lane_sum_bound(m, w, base, row, lane, k - 1);
        let s = matrix_sign(m, row, k - 1);
        let x = w[base + k - 1][lane] as int;
        assert(-1024 <= x <= 1024);
        assert(-1024 <= s * x <= 1024) by (nonlinear_arith)
            requires
                -1 <= s <= 1,
                -1024 <= x <= 1024,
        ;
    }
}

/// Four more columns add their four signed terms.
proof fn lemma_lane_sum_four(m: &ProjectionMatrix, w: Seq<[i16; 128]>, base: int, row: int, lane: int, x: int)
    requires
        0 <= x,
    ensures
        signed_lane_sum_i16(m, w, base, row, lane, x + 4) == signed_lane_sum_i16(m, w, base, row, lane, x)
            + matrix_sign(m, row, x) * w[base + x][lane] + matrix_sign(m, row, x + 1) * w[base + x + 1][lane]
            + matrix_sign(m, row, x + 2) * w[base + x + 2][lane] + matrix_sign(m, row, x + 3) * w[base + x
            + 3][lane],
{
    assert(signed_lane_sum_i16(m, w, base, row, lane, x + 1) == signed_lane_sum_i16(m, w, base, row, lane, x)
        + matrix_sign(m, row, x) * w[base + x][lane]);
    assert(signed_lane_sum_i16(m, w, base, row, lane, x + 2) == signed_lane_sum_i16(m, w, base, row, lane, x
        + 1) + matrix_sign(m, row, x + 1) * w[base + x + 1][lane]);
    assert(signed_lane_sum_i16(m, w, base, row, lane, x + 3) == signed_lane_sum_i16(m, w, base, row, lane, x
        + 2) + matrix_sign(m, row, x + 2) * w[base + x + 2][lane]);
    assert(signed_lane_sum_i16(m, w, base, row, lane, x + 4) == signed_lane_sum_i16(m, w, base, row, lane, x
        + 3) + matrix_sign(m, row, x + 3) * w[base + x + 3][lane]);
}

/// Slot `gl` of a row of tile `tile` reads from a table built for the tile
/// the signed sum of the row over the columns of that group (zero past the
/// row's end).
#[verifier::spinoff_prover]
proof fn lemma_slot_reads_group(
    table: Seq<[i16; 128]>,
    m: &ProjectionMatrix,
    w: Seq<[i16; 128]>,
    base: int,
    row: int,
    tile: int,
    gl: int,
    count: int,
    lane: int,
)
    requires
        matrix_wf(m),
        row_len(m) % 4 == 0,
        0 <= row < m.height,
        0 <= tile,
        tile * TILE_GROUPS < row_len(m) / 4,
        count == groups_in_tile(row_len(m) / 4, tile),
        0 <= gl < TILE_GROUPS,
        0 <= lane < 128,
        0 <= base,
        base + row_len(m) <= w.len(),
        table.len() == TILE_GROUPS * COMBOS + 1,
        forall|i: int| 0 <= i < 128 ==> #[trigger] table[TILE_GROUPS * COMBOS as int][i] == 0,
        forall|g: int| 0 <= g < count ==> #[trigger] tile_group_built(table, w, base + tile * (4 * TILE_GROUPS), g),
    ensures
        (plan_slot(m, tile, row, gl, count) % 0x8000_0000) / (ENTRY_BYTES as int) <= TILE_GROUPS * COMBOS,
        slot_entry(table, plan_slot(m, tile, row, gl, count), lane) == signed_lane_sum_i16(
            m,
            w,
            base,
            row,
            lane,
            covered(row_len(m), tile, gl + 1),
        ) - signed_lane_sum_i16(m, w, base, row, lane, covered(row_len(m), tile, gl)),
{
    let n = row_len(m);
    let groups = n / 4;
    let slot = plan_slot(m, tile, row, gl, count);
    assert(n == 4 * groups);
    assert(tile * (4 * TILE_GROUPS) == 4 * (tile * TILE_GROUPS)) by (nonlinear_arith);
    if gl < count {
        let g = tile * TILE_GROUPS + gl;
        assert(g < groups);
        let x = 4 * g;
        assert(covered(n, tile, gl) == x);
        assert(covered(n, tile, gl + 1) == x + 4);
        let t0 = matrix_sign(m, row, x) * w[base + x][lane];
        let t1 = matrix_sign(m, row, x + 1) * w[base + x + 1][lane];
        let t2 = matrix_sign(m, row, x + 2) * w[base + x + 2][lane];
        let t3 = matrix_sign(m, row, x + 3) * w[base + x + 3][lane];
        lemma_lane_sum_four(m, w, base, row, lane, x);
        let s0 = group_sign(m, row, g, 0);
        let s1 = group_sign(m, row, g, 1);
        let s2 = group_sign(m, row, g, 2);
        let s3 = group_sign(m, row, g, 3);
        assert(g * 4 == x);
        if group_first(m, row, g) == 4 {
            assert(s0 == 0 && s1 == 0 && s2 == 0 && s3 == 0);
            assert(t0 == 0 && t1 == 0 && t2 == 0 && t3 == 0);
            assert(slot == ZERO_ENTRY as int);
            assert((slot % 0x8000_0000) / (ENTRY_BYTES as int) == TILE_GROUPS * COMBOS);
        } else {
            let lead = group_lead(m, row, g);
            assert(lead == 1 || lead == -1);
            assert(-1 <= s0 * lead <= 1 && -1 <= s1 * lead <= 1 && -1 <= s2 * lead <= 1 && -1 <= s3 * lead
                <= 1) by (nonlinear_arith)
                requires
                    lead == 1 || lead == -1,
                    -1 <= s0 <= 1,
                    -1 <= s1 <= 1,
                    -1 <= s2 <= 1,
                    -1 <= s3 <= 1,
            ;
            assert(lead * lead == 1) by (nonlinear_arith)
                requires
                    lead == 1 || lead == -1,
            ;
            let code = group_code(m, row, g);
            lemma_code_digits(s0 * lead + 1, s1 * lead + 1, s2 * lead + 1, s3 * lead + 1);
            assert(first_nonzero(code) == group_first(m, row, g));
            assert(code_sign(code, first_nonzero(code)) == lead * lead);
            assert(is_listed(code));
            lemma_combo_rank_bound(code);
            let k = combo_rank(code);
            let offset = (gl * COMBOS + k) * ENTRY_BYTES;
            assert(offset == (gl * COMBOS + k) * 256);
            assert(0 <= gl * COMBOS + k < TILE_GROUPS * COMBOS) by (nonlinear_arith)
                requires
                    0 <= gl < TILE_GROUPS,
                    0 <= k < COMBOS,
                    TILE_GROUPS == 28,
                    COMBOS == 40,
            ;
            assert(0 <= offset < 0x8000_0000);
            let sb = SIGN_BIT as int;
            assert(sb == 0x8000_0000);
            if lead > 0 {
                assert(slot == offset);
            } else {
                assert(slot == offset + sb);
                assert(slot % 0x8000_0000 == offset);
            }
            assert(slot % 0x8000_0000 == offset);
            assert(offset / (ENTRY_BYTES as int) == gl * COMBOS + k);
            assert(tile_group_built(table, w, base + tile * (4 * TILE_GROUPS), gl));
            assert(base + tile * (4 * TILE_GROUPS) + 4 * gl == base + x);
            let e = table[gl * COMBOS + k][lane] as int;
            assert(e == combo_value(w, base + x, code, lane));
            let a0 = w[base + x][lane] as int;
            let a1 = w[base + x + 1][lane] as int;
            let a2 = w[base + x + 2][lane] as int;
            let a3 = w[base + x + 3][lane] as int;
            assert(e == (s0 * lead) * a0 + (s1 * lead) * a1 + (s2 * lead) * a2 + (s3 * lead) * a3);
            assert(lead * e == s0 * a0 + s1 * a1 + s2 * a2 + s3 * a3) by (nonlinear_arith)
                requires
                    e == (s0 * lead) * a0 + (s1 * lead) * a1 + (s2 * lead) * a2 + (s3 * lead) * a3,
                    lead * lead == 1,
            ;
            assert(t0 == s0 * a0 && t1 == s1 * a1 && t2 == s2 * a2 && t3 == s3 * a3);
        }
    } else {
        assert(slot == ZERO_ENTRY as int);
        assert(count < TILE_GROUPS);
        assert(count == groups - tile * TILE_GROUPS);
        assert(covered(n, tile, gl) == n);
        assert(covered(n, tile, gl + 1) == n);
        assert((slot % 0x8000_0000) / (ENTRY_BYTES as int) == TILE_GROUPS * COMBOS);
    }
}

/// One row of one tile: the 28 slot entries are summed in 16 bits seven at
/// a time and each partial sum is widened into the row's 32-bit lanes,
/// which then cover the tile's columns too.
fn accumulate_row(
    table: &Vec<[i16; 128]>,
    slots: &Vec<u32>,
    slot_base: usize,
    acc: [i32; 128],
    Ghost(m): Ghost<ProjectionMatrix>,
    Ghost(w): Ghost<Seq<[i16; 128]>>,
    Ghost(base): Ghost<int>,
    Ghost(row): Ghost<int>,
    Ghost(tile): Ghost<int>,
    Ghost(count): Ghost<int>,
) -> (r: [i32; 128])
    requires
        table.len() == TILE_GROUPS * COMBOS + 1,
        lanes_bounded(table@, 4 * WITNESS_COEFF_BOUND as int),
        forall|i: int| 0 <= i < 128 ==> #[trigger] table@[TILE_GROUPS * COMBOS as int][i] == 0,
        forall|g: int| 0 <= g < count ==> #[trigger] tile_group_built(table@, w, base + tile * (4 * TILE_GROUPS), g),
        matrix_wf(&m),
        row_len(&m) % 4 == 0,
        row_len(&m) * WITNESS_COEFF_BOUND < 0x7fff_ffff,
        0 <= row < m.height,
        0 <= tile,
        tile * TILE_GROUPS < row_len(&m) / 4,
        count == groups_in_tile(row_len(&m) / 4, tile),
        0 <= base,
        base + row_len(&m) <= w.len(),
        lanes_bounded(w, WITNESS_COEFF_BOUND as int),
        slot_base + TILE_GROUPS <= slots.len(),
        forall|gl: int|
            0 <= gl < TILE_GROUPS ==> #[trigger] slots@[slot_base + gl] as int == plan_slot(&m, tile, row, gl, count),
        forall|lane: int|
            0 <= lane < 128 ==> #[trigger] acc[lane] as int == signed_lane_sum_i16(
                &m,
                w,
                base,
                row,
                lane,
                covered(row_len(&m), tile, 0),
            ),
    ensures
        forall|lane: int|
            0 <= lane < 128 ==> #[trigger] r[lane] as int == signed_lane_sum_i16(
                &m,
                w,
                base,
                row,
                lane,
                covered(row_len(&m), tile, TILE_GROUPS as int),
            ),
{
    let ghost n = row_len(&m);
    let mut acc = acc;
    let mut sub: usize = 0;
    while sub < SUB_TILES
        invariant
            table.len() == TILE_GROUPS * COMBOS + 1,
            lanes_bounded(table@, 4 * WITNESS_COEFF_BOUND as int),
            forall|i: int| 0 <= i < 128 ==> #[trigger] table@[TILE_GROUPS * COMBOS as int][i] == 0,
            forall|g: int| 0 <= g < count ==> #[trigger] tile_group_built(table@, w, base + tile * (4 * TILE_GROUPS), g),
            matrix_wf(&m),
            n == row_len(&m),
            n % 4 == 0,
            n * WITNESS_COEFF_BOUND < 0x7fff_ffff,
            0 <= row < m.height,
            0 <= tile,
            tile * TILE_GROUPS < n / 4,
            count == groups_in_tile(n / 4, tile),
            0 <= base,
            base + n <= w.len(),
            lanes_bounded(w, WITNESS_COEFF_BOUND as int),
            slot_base + TILE_GROUPS <= slots.len(),
            forall|gl: int|
                0 <= gl < TILE_GROUPS ==> #[trigger] slots@[slot_base + gl] as int == plan_slot(&m, tile, row, gl, count),
            sub <= SUB_TILES,
            forall|lane: int|
                0 <= lane < 128 ==> #[trigger] acc[lane] as int == signed_lane_sum_i16(
                    &m,
                    w,
                    base,
                    row,
                    lane,
                    covered(n, tile, SUB_GROUPS * sub),
                ),
        decreases SUB_TILES - sub,
    {
        let mut narrow = [0i16; 128];
        let mut j: usize = 0;
        while j < SUB_GROUPS
            invariant
                table.len() == TILE_GROUPS * COMBOS + 1,
                lanes_bounded(table@, 4 * WITNESS_COEFF_BOUND as int),
                forall|i: int| 0 <= i < 128 ==> #[trigger] table@[TILE_GROUPS * COMBOS as int][i] == 0,
                forall|g: int| 0 <= g < count ==> #[trigger] tile_group_built(table@, w, base + tile * (4 * TILE_GROUPS), g),
                matrix_wf(&m),
                n == row_len(&m),
                n % 4 == 0,
                0 <= row < m.height,
                0 <= tile,
                tile * TILE_GROUPS < n / 4,
                count == groups_in_tile(n / 4, tile),
                0 <= base,
                base + n <= w.len(),
                slot_base + TILE_GROUPS <= slots.len(),
                forall|gl: int|
                    0 <= gl < TILE_GROUPS ==> #[trigger] slots@[slot_base + gl] as int == plan_slot(&m, tile, row, gl, count),
                sub < SUB_TILES,
                j <= SUB_GROUPS,
                forall|lane: int|
                    0 <= lane < 128 ==> #[trigger] narrow[lane] as int == signed_lane_sum_i16(
                        &m,
                        w,
                        base,
                        row,
                        lane,
                        covered(n, tile, SUB_GROUPS * sub + j),
                    ) - signed_lane_sum_i16(&m, w, base, row, lane, covered(n, tile, SUB_GROUPS * sub)),
                forall|lane: int| 0 <= lane < 128 ==> -(4096 * j) <= #[trigger] narrow[lane] <= 4096 * j,
            decreases SUB_GROUPS - j,
        {
            let gl = sub * SUB_GROUPS + j;
            let slot = slots[slot_base + gl];
            proof {
                lemma_slot_reads_group(table@, &m, w, base, row, tile, gl as int, count, 0);
            }
            let offset = slot & 0x7fff_ffffu32;
            assert(offset == slot % 0x8000_0000) by (bit_vector)
                requires
                    offset == slot & 0x7fff_ffffu32,
            ;
            let negate = slot & SIGN_BIT != 0;
            assert(negate == (slot >= 0x8000_0000)) by (bit_vector)
                requires
                    negate == (slot & 0x8000_0000u32 != 0),
            ;
            let index = (offset / 256) as usize;
            let entry = &table[index];
            proof {
                assert forall|l: int| 0 <= l < 128 implies #[trigger] slot_entry(table@, slot as int, l)
                    == signed_lane_sum_i16(&m, w, base, row, l, covered(n, tile, gl + 1)) - signed_lane_sum_i16(
                    &m,
                    w,
                    base,
                    row,
                    l,
                    covered(n, tile, gl as int),
                ) by {
                    lemma_slot_reads_group(table@, &m, w, base, row, tile, gl as int, count, l);
                }
            }
            let ghost old_narrow = narrow;
            let mut lane: usize = 0;
            while lane < 128
                invariant
                    lane <= 128,
                    j < SUB_GROUPS,
                    *entry == table@[index as int],
                    index as int == (slot as int % 0x8000_0000) / (ENTRY_BYTES as int),
                    negate == (slot >= 0x8000_0000),
                    forall|l: int| 0 <= l < 128 ==> -4096 <= #[trigger] entry[l] <= 4096,
                    forall|l: int| 0 <= l < 128 ==> -(4096 * j) <= #[trigger] old_narrow[l] <= 4096 * j,
                    forall|l: int|
                        0 <= l < lane ==> #[trigger] narrow[l] as int == old_narrow[l] + slot_entry(
                            table@,
                            slot as int,
                            l,
                        ),
                    forall|l: int| lane <= l < 128 ==> #[trigger] narrow[l] == old_narrow[l],
                decreases 128 - lane,
            {
                let e = entry[lane];
                let v = if negate {
                    -e
                } else {
                    e
                };
                assert(v as int == slot_entry(table@, slot as int, lane as int));
                narrow[lane] = narrow[lane] + v;
                lane = lane + 1;
            }
            proof {
                assert(SUB_GROUPS * sub + j + 1 == gl + 1);
                assert forall|l: int| 0 <= l < 128 implies -(4096 * (j + 1)) <= #[trigger] narrow[l] <= 4096 * (j
                    + 1) by {
                    assert(-4096 <= entry[l] <= 4096);
                }
            }
            j = j + 1;
        }
        let mut lane: usize = 0;
        while lane < 128
            invariant
                lane <= 128,
                matrix_wf(&m),
                n == row_len(&m),
                n * WITNESS_COEFF_BOUND < 0x7fff_ffff,
                0 <= base,
                base + n <= w.len(),
                lanes_bounded(w, WITNESS_COEFF_BOUND as int),
                sub < SUB_TILES,
                0 <= tile,
                forall|l: int|
                    0 <= l < 128 ==> #[trigger] narrow[l] as int == signed_lane_sum_i16(
                        &m,
                        w,
                        base,
                        row,
                        l,
                        covered(n, tile, SUB_GROUPS * sub + SUB_GROUPS),
                    ) - signed_lane_sum_i16(&m, w, base, row, l, covered(n, tile, SUB_GROUPS * sub)),
                forall|l: int|
                    0 <= l < lane ==> #[trigger] acc[l] as int == signed_lane_sum_i16(
                        &m,
                        w,
                        base,
                        row,
                        l,
                        covered(n, tile, SUB_GROUPS * (sub + 1)),
                    ),
                forall|l: int|
                    lane <= l < 128 ==> #[trigger] acc[l] as int == signed_lane_sum_i16(
                        &m,
                        w,
                        base,
                        row,
                        l,
                        covered(n, tile, SUB_GROUPS * sub),
                    ),
            decreases 128 - lane,
        {
            proof {
                let k = covered(n, tile, SUB_GROUPS * (sub + 1));
                assert(0 <= k <= n);
                lemma_lane_sum_bound(&m, w, base, row, lane as int, k);
                assert(SUB_GROUPS * sub + SUB_GROUPS == SUB_GROUPS * (sub + 1));
            }
            acc[lane] = acc[lane] + narrow[lane] as i32;
            lane = lane + 1;
        }
        sub = sub + 1;
    }
    acc
}

/// The first coarse layer through the plan's tile tables: chunk `c` of
/// `row_len` short coefficient vectors gives rows `c * height ..` of the
/// image, row `r` the exact signed sum of the chunk along matrix row `r`.
pub fn project_layer0(witness: &Vec<[i16; 128]>, plan: &Layer0Plan) -> (image: Vec<[i32; 128]>)
    requires
        plan_wf(plan),
        plan.row_len > 0,
        witness.len() % plan.row_len == 0,
        lanes_bounded(witness@, WITNESS_COEFF_BOUND as int),
    ensures
        image.len() == (witness.len() / plan.row_len) * plan.height,
        forall|c: int, row: int, lane: int|
            0 <= c < witness.len() / plan.row_len && 0 <= row < plan.height && 0 <= lane < 128
                ==> #[trigger] image@[c * plan.height + row][lane] as int == signed_lane_sum_i16(
                &plan.matrix@,
                witness@,
                c * plan.row_len,
                row,
                lane,
                plan.row_len as int,
            ),
{
    let ghost m = plan.matrix@;
    let n = plan.row_len;
    let h = plan.height;
    let tiles = plan.tile_groups.len();
    let chunks = witness.len() / n;
    proof {
        lemma_fundamental_div_mod(witness.len() as int, n as int);
        assert(chunks * n == n * chunks) by (nonlinear_arith);
        assert(chunks * n == witness.len());
        assert(tiles * TILE_GROUPS >= n / 4);
    }
    let index_of = combo_index_table();
    let mut table: Vec<[i16; 128]> = Vec::new();
    let mut k: usize = 0;
    while k < TILE_GROUPS * COMBOS + 1
        invariant
            k <= TILE_GROUPS * COMBOS + 1,
            table.len() == k,
            forall|e: int, i: int| 0 <= e < k && 0 <= i < 128 ==> #[trigger] table@[e][i] == 0,
        decreases TILE_GROUPS * COMBOS + 1 - k,
    {
        table.push([0i16; 128]);
        k = k + 1;
    }
    let mut image: Vec<[i32; 128]> = Vec::new();
    let mut chunk: usize = 0;
    while chunk < chunks
        invariant
            plan_wf(plan),
            m == plan.matrix@,
            n == plan.row_len,
            n == row_len(&m),
            n > 0,
            h == plan.height,
            h == m.height,
            tiles == plan.tile_groups.len(),
            tiles * TILE_GROUPS >= n / 4,
            chunks == witness.len() / n,
            chunks * n == witness.len(),
            lanes_bounded(witness@, WITNESS_COEFF_BOUND as int),
            forall|c: int|
                0 <= c < 81 ==> #[trigger] index_of[c] as int == if is_listed(c) {
                    combo_rank(c)
                } else {
                    255
                },
            table.len() == TILE_GROUPS * COMBOS + 1,
            lanes_bounded(table@, 4 * WITNESS_COEFF_BOUND as int),
            forall|i: int| 0 <= i < 128 ==> #[trigger] table@[TILE_GROUPS * COMBOS as int][i] == 0,
            chunk <= chunks,
            image.len() == chunk * h,
            forall|c: int, row: int, lane: int|
                0 <= c < chunk && 0 <= row < h && 0 <= lane < 128 ==> #[trigger] image@[c * h + row][lane] as int
                    == signed_lane_sum_i16(&m, witness@, c * n, row, lane, n as int),
        decreases chunks - chunk,
    {
        assert((chunk + 1) * n <= chunks * n) by (nonlinear_arith)
            requires
                chunk < chunks,
        ;
        assert(chunk * n + n == (chunk + 1) * n) by (nonlinear_arith);
        let base = chunk * n;
        let mut rows: Vec<[i32; 128]> = Vec::new();
        let mut r: usize = 0;
        while r < h
            invariant
                r <= h,
                rows.len() == r,
                forall|e: int, i: int| 0 <= e < r && 0 <= i < 128 ==> #[trigger] rows@[e][i] == 0,
            decreases h - r,
        {
            rows.push([0i32; 128]);
            r = r + 1;
        }
        proof {
            assert(covered(n as int, 0, 0) == 0);
            assert forall|row: int, lane: int| 0 <= row < h && 0 <= lane < 128 implies #[trigger] rows@[row][lane]
                as int == signed_lane_sum_i16(&m, witness@, base as int, row, lane, covered(n as int, 0, 0)) by {
                assert(rows@[row][lane] == 0);
            }
        }
        proof {
            assert(covered(n as int, 0, 0) == 0);
            assert forall|row: int, lane: int| 0 <= row < h && 0 <= lane < 128 implies #[trigger] rows@[row][lane]
                as int == signed_lane_sum_i16(&m, witness@, base as int, row, lane, covered(n as int, 0, 0)) by {
                assert(rows@[row][lane] == 0);
            }
        }
        let mut tile: usize = 0;
        while tile < tiles
            invariant
                plan_wf(plan),
                m == plan.matrix@,
                n == plan.row_len,
                n == row_len(&m),
                n > 0,
                h == plan.height,
                h == m.height,
                tiles == plan.tile_groups.len(),
                tiles * TILE_GROUPS >= n / 4,
                base == chunk * n,
                base + n <= witness.len(),
                lanes_bounded(witness@, WITNESS_COEFF_BOUND as int),
                forall|c: int|
                    0 <= c < 81 ==> #[trigger] index_of[c] as int == if is_listed(c) {
                        combo_rank(c)
                    } else {
                        255
                    },
                table.len() == TILE_GROUPS * COMBOS + 1,
                lanes_bounded(table@, 4 * WITNESS_COEFF_BOUND as int),
                forall|i: int| 0 <= i < 128 ==> #[trigger] table@[TILE_GROUPS * COMBOS as int][i] == 0,
                tile <= tiles,
                rows.len() == h,
                forall|row: int, lane: int|
                    0 <= row < h && 0 <= lane < 128 ==> #[trigger] rows@[row][lane] as int
                        == signed_lane_sum_i16(&m, witness@, base as int, row, lane, covered(n as int, tile as int, 0)),
            decreases tiles - tile,
        {
            let count = plan.tile_groups[tile];
            assert(tile * TILE_GROUPS < n / 4) by (nonlinear_arith)
                requires
                    tile < tiles,
                    tiles == (n / 4 + TILE_GROUPS - 1) / (TILE_GROUPS as int),
                    TILE_GROUPS == 28,
            ;
            assert(count == groups_in_tile(n as int / 4, tile as int));
            assert(tile * (4 * TILE_GROUPS) + 4 * count <= n) by {
                assert(tile * (4 * TILE_GROUPS) == 4 * (tile * TILE_GROUPS)) by (nonlinear_arith);
                assert(n == 4 * (n / 4));
            }
            let start = base + tile * (4 * TILE_GROUPS);
            let ghost before_table = table@;
            build_tile_table(&mut table, witness, start, count, &index_of);
            proof {
                assert(table@[TILE_GROUPS * COMBOS as int] == before_table[TILE_GROUPS * COMBOS as int]);
            }
            let mut row: usize = 0;
            while row < h
                invariant
                    plan_wf(plan),
                    m == plan.matrix@,
                    n == plan.row_len,
                    n == row_len(&m),
                    h == plan.height,
                    h == m.height,
                    tiles == plan.tile_groups.len(),
                    base + n <= witness.len(),
                    lanes_bounded(witness@, WITNESS_COEFF_BOUND as int),
                    table.len() == TILE_GROUPS * COMBOS + 1,
                    lanes_bounded(table@, 4 * WITNESS_COEFF_BOUND as int),
                    forall|i: int| 0 <= i < 128 ==> #[trigger] table@[TILE_GROUPS * COMBOS as int][i] == 0,
                    forall|g: int| 0 <= g < count ==> #[trigger] tile_group_built(table@, witness@, start as int, g),
                    start == base + tile * (4 * TILE_GROUPS),
                    tile < tiles,
                    tile * TILE_GROUPS < n / 4,
                    count == plan.tile_groups@[tile as int],
                    count == groups_in_tile(n as int / 4, tile as int),
                    row <= h,
                    rows.len() == h,
                    forall|rr: int, lane: int|
                        0 <= rr < h && 0 <= lane < 128 ==> #[trigger] rows@[rr][lane] as int
                            == signed_lane_sum_i16(
                            &m,
                            witness@,
                            base as int,
                            rr,
                            lane,
                            if rr < row {
                                covered(n as int, tile as int, TILE_GROUPS as int)
                            } else {
                                covered(n as int, tile as int, 0)
                            },
                        ),
                decreases h - row,
            {
                assert((tile * h + row) * TILE_GROUPS + TILE_GROUPS <= tiles * h * TILE_GROUPS) by (nonlinear_arith)
                    requires
                        tile < tiles,
                        row < h,
                ;
                let slot_base = (tile * h + row) * TILE_GROUPS;
                proof {
                    assert forall|gl: int| 0 <= gl < TILE_GROUPS implies #[trigger] plan.slots@[slot_base + gl] as int
                        == plan_slot(&m, tile as int, row as int, gl, count as int) by {
                        assert(plan.slots@[(tile * m.height + row) * TILE_GROUPS + gl] as int == plan_slot(
                            &m,
                            tile as int,
                            row as int,
                            gl,
                            plan.tile_groups@[tile as int] as int,
                        ));
                    }
                }
                let acc = rows[row];
                let next = accumulate_row(
                    &table,
                    &plan.slots,
                    slot_base,
                    acc,
                    Ghost(m),
                    Ghost(witness@),
                    Ghost(base as int),
                    Ghost(row as int),
                    Ghost(tile as int),
                    Ghost(count as int),
                );
                let ghost before_rows = rows@;
                rows.set(row, next);
                proof {
                    assert forall|rr: int, lane: int| 0 <= rr < h && 0 <= lane < 128 implies #[trigger] rows@[rr][lane]
                        as int == signed_lane_sum_i16(
                        &m,
                        witness@,
                        base as int,
                        rr,
                        lane,
                        if rr < row + 1 {
                            covered(n as int, tile as int, TILE_GROUPS as int)
                        } else {
                            covered(n as int, tile as int, 0)
                        },
                    ) by {
                        if rr != row {
                            assert(rows@[rr] == before_rows[rr]);
                        }
                    }
                }
                row = row + 1;
            }
            proof {
                assert(covered(n as int, tile as int, TILE_GROUPS as int) == covered(n as int, tile + 1, 0)) by {
                    assert(tile * (4 * TILE_GROUPS) + 4 * TILE_GROUPS == (tile + 1) * (4 * TILE_GROUPS)) by (nonlinear_arith);
                }
            }
            tile = tile + 1;
        }
        proof {
            assert(covered(n as int, tiles as int, 0) == n) by {
                assert(tiles * (4 * TILE_GROUPS) >= n) by (nonlinear_arith)
                    requires
                        tiles * TILE_GROUPS >= n / 4,
                        n % 4 == 0,
                        n >= 0,
                ;
            }
        }
        let mut r: usize = 0;
        while r < h
            invariant
                r <= h,
                rows.len() == h,
                h == m.height,
                n == row_len(&m),
                base == chunk * n,
                image.len() == chunk * h + r,
                forall|row: int, lane: int|
                    0 <= row < h && 0 <= lane < 128 ==> #[trigger] rows@[row][lane] as int
                        == signed_lane_sum_i16(&m, witness@, base as int, row, lane, n as int),
                forall|c: int, row: int, lane: int|
                    0 <= c < chunk && 0 <= row < h && 0 <= lane < 128 ==> #[trigger] image@[c * h + row][lane] as int
                        == signed_lane_sum_i16(&m, witness@, c * n, row, lane, n as int),
                forall|row: int, lane: int|
                    0 <= row < r && 0 <= lane < 128 ==> #[trigger] image@[chunk * h + row][lane] as int
                        == signed_lane_sum_i16(&m, witness@, base as int, row, lane, n as int),
            decreases h - r,
        {
            let ghost before = image@;
            image.push(rows[r]);
            proof {
                assert forall|c: int, row: int, lane: int|
                    0 <= c < chunk && 0 <= row < h && 0 <= lane < 128 implies #[trigger] image@[c * h + row][lane]
                    as int == signed_lane_sum_i16(&m, witness@, c * n, row, lane, n as int) by {
                    assert(c * h + row < chunk * h) by (nonlinear_arith)
                        requires
                            0 <= c < chunk,
                            0 <= row < h,
                    ;
                    assert(image@[c * h + row] == before[c * h + row]);
                }
                assert forall|row: int, lane: int|
                    0 <= row < r + 1 && 0 <= lane < 128 implies #[trigger] image@[chunk * h + row][lane] as int
                    == signed_lane_sum_i16(&m, witness@, base as int, row, lane, n as int) by {
                    if row < r {
                        assert(image@[chunk * h + row] == before[chunk * h + row]);
                    }
                }
            }
            r = r + 1;
        }
        assert((chunk + 1) * h == chunk * h + h) by (nonlinear_arith);
        chunk = chunk + 1;
    }
    image
}

} // verus!
