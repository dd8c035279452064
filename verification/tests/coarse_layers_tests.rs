use pikku::coarse_layers::{combo_index_table, Layer0Plan, SIGN_BIT, ZERO_ENTRY};
use pikku::projection::ProjectionMatrix;

/// The table by the generation order itself: every sign pattern with a
/// positive first entry, depth first, extensions in increasing position,
/// `+1` before `-1`.
fn generated_table() -> [u8; 81] {
    let mut table = [u8::MAX; 81];
    let mut next = 0u8;
    let mut visit = |signs: [i8; 4]| {
        let code = signs
            .iter()
            .enumerate()
            .map(|(i, &s)| (s + 1) as usize * 3usize.pow(i as u32))
            .sum::<usize>();
        table[code] = next;
        next += 1;
    };
    for i in 0..4 {
        let mut s1 = [0i8; 4];
        s1[i] = 1;
        visit(s1);
        for j in i + 1..4 {
            for sj in [1i8, -1] {
                let mut s2 = s1;
                s2[j] = sj;
                visit(s2);
                for k in j + 1..4 {
                    for sk in [1i8, -1] {
                        let mut s3 = s2;
                        s3[k] = sk;
                        visit(s3);
                        for l in k + 1..4 {
                            for sl in [1i8, -1] {
                                let mut s4 = s3;
                                s4[l] = sl;
                                visit(s4);
                            }
                        }
                    }
                }
            }
        }
    }
    assert_eq!(next, 40);
    table
}

#[test]
fn combo_table_is_the_generation_order() {
    assert_eq!(combo_index_table(), generated_table());
}

#[test]
fn combo_table_examples() {
    let t = combo_index_table();
    // (+1, 0, 0, 0) has code 2 + 3 + 9 + 27
    assert_eq!(t[41], 0);
    // (0, 0, 0, +1) is the last pattern
    assert_eq!(t[1 + 3 + 9 + 54], 39);
    // the zero pattern and patterns led by -1 are not listed
    assert_eq!(t[40], u8::MAX);
    assert_eq!(t[0], u8::MAX);
    assert_eq!(t.iter().filter(|&&v| v != u8::MAX).count(), 40);
}

struct Lcg(u64);

impl Lcg {
    fn next(&mut self) -> u64 {
        self.0 = self.0.wrapping_mul(6364136223846793005).wrapping_add(1442695040888963407);
        self.0 >> 11
    }
}

fn sign(m: &ProjectionMatrix, row: usize, col: usize) -> i8 {
    let byte = row * m.width_bytes + col / 8;
    let bit = col % 8;
    if (m.nonzero[byte] >> bit) & 1 == 0 {
        0
    } else if (m.pos[byte] >> bit) & 1 == 1 {
        1
    } else {
        -1
    }
}

#[test]
fn layer0_plan_reads_each_group_once() {
    let (ratio, height) = (8usize, 16usize);
    let width_bytes = ratio * height / 8;
    let mut rng = Lcg(31);
    // sparse rows so that all-zero groups occur
    let nonzero: Vec<u8> =
        (0..height * width_bytes).map(|_| (rng.next() & rng.next() & rng.next()) as u8).collect();
    let pos: Vec<u8> = (0..height * width_bytes).map(|_| rng.next() as u8).collect();
    let m = ProjectionMatrix { height, ratio, width_bytes, pos, nonzero };
    let plan = Layer0Plan::new(&m);
    let row_len = ratio * height;
    let groups = row_len / 4;
    let tiles = (groups + 27) / 28;
    assert_eq!(plan.height, height);
    assert_eq!(plan.row_len, row_len);
    assert_eq!(plan.tile_groups.len(), tiles);
    assert_eq!(plan.slots.len(), tiles * height * 28);
    let table = generated_table();
    let mut zero_groups = 0;
    for tile in 0..tiles {
        assert_eq!(plan.tile_groups[tile], (groups - tile * 28).min(28));
        for row in 0..height {
            for gl in 0..28 {
                let slot = plan.slots[(tile * height + row) * 28 + gl];
                if gl >= plan.tile_groups[tile] {
                    assert_eq!(slot, ZERO_ENTRY);
                    continue;
                }
                let base = (tile * 28 + gl) * 4;
                let s: Vec<i8> = (0..4).map(|i| sign(&m, row, base + i)).collect();
                match s.iter().copied().find(|&v| v != 0) {
                    None => {
                        zero_groups += 1;
                        assert_eq!(slot, ZERO_ENTRY);
                    }
                    Some(lead) => {
                        let code: usize = s
                            .iter()
                            .enumerate()
                            .map(|(i, &v)| (v * lead + 1) as usize * 3usize.pow(i as u32))
                            .sum();
                        let offset = ((gl * 40 + table[code] as usize) * 256) as u32;
                        let expected = if lead > 0 { offset } else { offset | SIGN_BIT };
                        assert_eq!(slot, expected);
                    }
                }
            }
        }
    }
    assert!(zero_groups > 0);
}
