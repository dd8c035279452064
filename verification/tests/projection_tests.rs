use pikku::ifma::Q;
use pikku::coarse_layers::{project_layer0, Layer0Plan};
use pikku::projection::{
    accumulate_j_columns, accumulate_j_columns_scalar, lift, lift_i32, lift_i64,
    project_first_coarse, project_layer1, ProjectionMatrix,
};
use pikku::qe::QuadraticExtension;
use pikku::qe_vec::QeVec;

struct Lcg(u64);

impl Lcg {
    fn next(&mut self) -> u64 {
        self.0 = self.0.wrapping_mul(6364136223846793005).wrapping_add(1442695040888963407);
        self.0 >> 11
    }
}

fn matrix(ratio: usize, height: usize, seed: u64) -> ProjectionMatrix {
    let mut rng = Lcg(seed);
    let width_bytes = ratio * height / 8;
    let pos: Vec<u8> = (0..height * width_bytes).map(|_| rng.next() as u8).collect();
    let nonzero: Vec<u8> = (0..height * width_bytes).map(|_| rng.next() as u8).collect();
    ProjectionMatrix { height, ratio, width_bytes, pos, nonzero }
}

fn sign(m: &ProjectionMatrix, row: usize, col: usize) -> i64 {
    let byte = row * m.width_bytes + col / 8;
    let bit = col % 8;
    if (m.nonzero[byte] >> bit) & 1 == 0 {
        0
    } else if (m.pos[byte] >> bit) & 1 == 1 {
        1
    } else {
        -1
    }
}

#[test]
fn matrix_entries_from_the_bit_planes() {
    let m = ProjectionMatrix {
        height: 1,
        ratio: 8,
        width_bytes: 1,
        pos: vec![0b0000_0101],
        nonzero: vec![0b0000_0111],
    };
    assert_eq!(m.sign_at(0, 0), 1);
    assert_eq!(m.sign_at(0, 1), -1);
    assert_eq!(m.sign_at(0, 2), 1);
    assert_eq!(m.sign_at(0, 3), 0);
    assert_eq!(m.sign_at(0, 7), 0);
}

#[test]
fn coarse_layers_match_signed_sums() {
    let m = matrix(4, 16, 1);
    let row_len = 64;
    let mut rng = Lcg(9);
    let witness: Vec<[i16; 128]> = (0..3 * row_len)
        .map(|_| {
            let mut v = [0i16; 128];
            for x in v.iter_mut() {
                *x = (rng.next() % 2049) as i16 - 1024;
            }
            v
        })
        .collect();
    let plan = Layer0Plan::new(&m);
    let image = project_layer0(&witness, &plan);
    assert_eq!(image.len(), 3 * 16);
    let lifted = project_first_coarse(&witness, &m);
    for chunk in 0..3 {
        for row in 0..16 {
            for lane in 0..128 {
                let mut expected = 0i64;
                for col in 0..row_len {
                    expected += sign(&m, row, col) * witness[chunk * row_len + col][lane] as i64;
                }
                assert_eq!(image[chunk * 16 + row][lane] as i64, expected);
                assert_eq!(lifted[chunk * 16 + row][lane], expected.rem_euclid(Q as i64) as u64);
            }
        }
    }
    // a second layer on the first layer's first chunk rows repeated
    let m1 = matrix(2, 32, 2);
    let input: Vec<[i32; 128]> = (0..64).map(|i| image[i % image.len()]).collect();
    let out = project_layer1(&input, &m1);
    assert_eq!(out.len(), 32);
    for row in 0..32 {
        for lane in 0..128 {
            let mut expected = 0i64;
            for col in 0..64 {
                expected += sign(&m1, row, col) * input[col][lane] as i64;
            }
            assert_eq!(out[row][lane], expected);
        }
    }
    let lifted1 = lift_i64(&out);
    assert_eq!(lifted1[3][5], out[3][5].rem_euclid(Q as i64) as u64);
    assert_eq!(lift_i32(&image)[7][9], (image[7][9] as i64).rem_euclid(Q as i64) as u64);
}

#[test]
fn lifting_small_values() {
    assert_eq!(lift(0), 0);
    assert_eq!(lift(5), 5);
    assert_eq!(lift(-1), Q - 1);
    assert_eq!(lift(-(Q as i64) + 1), 1);
}

#[test]
fn accumulate_kernel_matches_scalar() {
    let m = matrix(64, 256, 3);
    let mut rng = Lcg(4);
    let weights: Vec<QuadraticExtension> = (0..256)
        .map(|_| QuadraticExtension { c0: rng.next() % Q, c1: rng.next() % Q })
        .collect();
    let soa = QeVec::from_limbs(
        weights.iter().map(|w| w.c0).collect(),
        weights.iter().map(|w| w.c1).collect(),
    );
    let fast = accumulate_j_columns(&m, &soa);
    let reference = accumulate_j_columns_scalar(&m, &weights);
    assert_eq!(reference.len(), 64 * 256);
    for (index, expected) in reference.iter().enumerate() {
        assert_eq!(fast.get(index), *expected);
    }
    // spot-check one column against the definition
    let col = 1234;
    let mut c0 = 0i128;
    let mut c1 = 0i128;
    for (row, w) in weights.iter().enumerate() {
        c0 += sign(&m, row, col) as i128 * w.c0 as i128;
        c1 += sign(&m, row, col) as i128 * w.c1 as i128;
    }
    let expected = QuadraticExtension {
        c0: c0.rem_euclid(Q as i128) as u64,
        c1: c1.rem_euclid(Q as i128) as u64,
    };
    assert_eq!(reference[col], expected);
}

#[test]
fn tile_tables_match_signed_sums_over_partial_tiles() {
    // 256 columns: three tiles of 28, 28 and 8 groups
    let (ratio, height) = (8usize, 32usize);
    let row_len = ratio * height;
    let width_bytes = row_len / 8;
    let mut rng = Lcg(77);
    // sparse rows so that groups of every shape occur, all-zero ones included
    let nonzero: Vec<u8> =
        (0..height * width_bytes).map(|_| (rng.next() & rng.next()) as u8).collect();
    let pos: Vec<u8> = (0..height * width_bytes).map(|_| rng.next() as u8).collect();
    let m = ProjectionMatrix { height, ratio, width_bytes, pos, nonzero };
    let witness: Vec<[i16; 128]> = (0..2 * row_len)
        .map(|e| {
            let mut v = [0i16; 128];
            for (lane, x) in v.iter_mut().enumerate() {
                // the extreme values first, then random ones
                *x = if e < 4 { if lane % 2 == 0 { 1024 } else { -1024 } } else { (rng.next() % 2049) as i16 - 1024 };
            }
            v
        })
        .collect();
    let plan = Layer0Plan::new(&m);
    assert_eq!(plan.tile_groups, vec![28, 28, 8]);
    let image = project_layer0(&witness, &plan);
    assert_eq!(image.len(), 2 * height);
    let lifted = project_first_coarse(&witness, &m);
    for chunk in 0..2 {
        for row in 0..height {
            for lane in 0..128 {
                let mut expected = 0i64;
                for col in 0..row_len {
                    expected += sign(&m, row, col) * witness[chunk * row_len + col][lane] as i64;
                }
                assert_eq!(image[chunk * height + row][lane] as i64, expected);
                assert_eq!(lifted[chunk * height + row][lane], expected.rem_euclid(Q as i64) as u64);
            }
        }
    }
}

#[test]
fn tile_tables_of_a_single_dense_row() {
    // one row of four columns with the signs + - 0 +: the group reads the
    // entry of its pattern, not negated
    let m = ProjectionMatrix { height: 1, ratio: 8, width_bytes: 1, pos: vec![0b0000_1001], nonzero: vec![0b1111_1011] };
    let mut witness = vec![[0i16; 128]; 8];
    for (i, v) in witness.iter_mut().enumerate() {
        v[0] = (i as i16 + 1) * 100;
        v[127] = -(i as i16 + 1);
    }
    let plan = Layer0Plan::new(&m);
    let image = project_layer0(&witness, &plan);
    assert_eq!(image.len(), 1);
    // columns 0..8 with signs +, -, 0, +, -, -, -, - (bit 2 clear in the mask)
    assert_eq!(image[0][0], 100 - 200 + 400 - 500 - 600 - 700 - 800);
    assert_eq!(image[0][127], -1 + 2 - 4 + 5 + 6 + 7 + 8);
    assert_eq!(image[0][5], 0);
}
