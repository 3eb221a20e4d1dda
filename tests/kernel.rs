use kosmos_tile::kernel::{cell, step, tick};
use kosmos_tile::{Terrian, Tile, TileConstants};

fn cube(width: u32, frame_number: u32) -> TileConstants {
    TileConstants { width, height: width, depth: width, frame_number }
}

fn idx(w: usize, x: usize, y: usize, z: usize) -> usize {
    x * w * w + y * w + z
}

fn patterned(w: usize) -> Vec<Tile> {
    (0..w * w * w)
        .map(|i| Tile {
            terrian: if i % 3 == 0 { Terrian::DeepWater } else { Terrian::Space },
            temperature: (i * 7 % 256) as u8,
            pressure: (i * 13 % 256) as u8,
            gravity: [(i * 5 % 256) as u8 as i8, (i * 11 % 256) as u8 as i8, (i * 17 % 256) as u8 as i8],
            pad: [0, 0],
        })
        .collect()
}

#[test]
fn boundary_cells_unchanged_after_step() {
    for w in 3..7usize {
        for frame in 0..3u32 {
            let src = patterned(w);
            let out = step(&cube(w as u32, frame), &src);
            assert_eq!(out.len(), src.len());
            for x in 0..w {
                for y in 0..w {
                    for z in 0..w {
                        let b = x == 0 || y == 0 || z == 0 || x == w - 1 || y == w - 1 || z == w - 1;
                        if b {
                            assert_eq!(out[idx(w, x, y, z)], src[idx(w, x, y, z)]);
                        }
                    }
                }
            }
        }
    }
}

#[test]
fn single_source_diffuses_along_x() {
    let w = 5usize;
    let mut src = vec![Tile::default(); w * w * w];
    src[idx(w, 2, 2, 2)].gravity = [9, 4, 4];
    let out = step(&cube(5, 0), &src);
    assert_eq!(out[idx(w, 2, 2, 2)].gravity, [0, 0, 0]);
    assert_eq!(out[idx(w, 1, 2, 2)].gravity, [4, 4, 4]);
    assert_eq!(out[idx(w, 3, 2, 2)].gravity, [4, 4, 4]);
    assert_eq!(out[idx(w, 2, 1, 2)].gravity, [0, 0, 0]);
    assert_eq!(out[idx(w, 2, 2, 3)].gravity, [0, 0, 0]);
}

#[test]
fn axis_turns_with_frame_number() {
    let w = 5usize;
    let mut src = vec![Tile::default(); w * w * w];
    src[idx(w, 2, 2, 2)].gravity = [2, 6, 10];
    let along_y = step(&cube(5, 1), &src);
    assert_eq!(along_y[idx(w, 2, 1, 2)].gravity, [3, 3, 3]);
    assert_eq!(along_y[idx(w, 1, 2, 2)].gravity, [0, 0, 0]);
    let along_z = step(&cube(5, 5), &src);
    assert_eq!(along_z[idx(w, 2, 2, 3)].gravity, [5, 5, 5]);
    let along_x = step(&cube(5, 3), &src);
    assert_eq!(along_x[idx(w, 3, 2, 2)].gravity, [1, 1, 1]);
}

#[test]
fn negative_sums_round_toward_zero() {
    let w = 3usize;
    let mut src = vec![Tile::default(); w * w * w];
    src[idx(w, 0, 1, 1)].gravity = [-3, 0, 0];
    src[idx(w, 2, 1, 1)].gravity = [-128, 0, 0];
    let c = cube(3, 0);
    assert_eq!(cell(&c, &src, 1, 1, 1).gravity, [-65, -65, -65]);
    src[idx(w, 2, 1, 1)].gravity = [0, 0, 0];
    assert_eq!(cell(&c, &src, 1, 1, 1).gravity, [-1, -1, -1]);
    src[idx(w, 0, 1, 1)].gravity = [127, 0, 0];
    src[idx(w, 2, 1, 1)].gravity = [127, 0, 0];
    assert_eq!(cell(&c, &src, 1, 1, 1).gravity, [127, 127, 127]);
}

#[test]
fn interior_keeps_other_fields() {
    let w = 3usize;
    let mut src = vec![Tile::default(); w * w * w];
    src[idx(w, 1, 1, 1)] = Tile { terrian: Terrian::SwallowWater, temperature: 40, pressure: 50, gravity: [9, 9, 9], pad: [1, 2] };
    src[idx(w, 0, 1, 1)] = Tile { terrian: Terrian::DeepWater, temperature: 99, pressure: 98, gravity: [4, 0, 0], pad: [0, 0] };
    let out = cell(&cube(3, 0), &src, 1, 1, 1);
    assert_eq!(out, Tile { terrian: Terrian::SwallowWater, temperature: 40, pressure: 50, gravity: [2, 2, 2], pad: [1, 2] });
}

#[test]
fn kernel_tick_writes_one_cell() {
    let w = 4usize;
    let mut src = vec![Tile::default(); w * w * w];
    src[idx(w, 1, 1, 0)].gravity = [0, 0, 8];
    src[idx(w, 1, 1, 2)].gravity = [0, 0, 6];
    let mut out = vec![Tile { terrian: Terrian::DeepWater, temperature: 1, pressure: 1, gravity: [1, 1, 1], pad: [0, 0] }; w * w * w];
    let before = out.clone();
    tick([1, 1, 1], &cube(4, 2), &src, &mut out);
    for i in 0..w * w * w {
        if i == idx(w, 1, 1, 1) {
            assert_eq!(out[i].gravity, [7, 7, 7]);
            assert_eq!(out[i].terrian, Terrian::Space);
        } else {
            assert_eq!(out[i], before[i]);
        }
    }
    tick([0, 2, 3], &cube(4, 2), &src, &mut out);
    assert_eq!(out[idx(w, 0, 2, 3)], src[idx(w, 0, 2, 3)]);
}

#[test]
fn step_of_single_cell() {
    let src = vec![Tile { terrian: Terrian::DeepWater, temperature: 3, pressure: 4, gravity: [5, 6, 7], pad: [0, 0] }];
    assert_eq!(step(&cube(1, 0), &src), src);
}

#[test]
fn sample_keeps_words() {
    let mut words = vec![5u32, 6, 7, 8];
    kosmos_tile::kernel::sample([2, 9, 9], &mut words);
    assert_eq!(words, vec![5, 6, 7, 8]);
}
