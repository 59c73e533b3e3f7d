use fractal_pie::canvas::{render, Leaf};
use fractal_pie::fit::{find_plane, sum_up, Fitter, NormalSums};
use fractal_pie::plane::Plane;
use fractal_pie::quadtree::split_range_into_quad;
use fractal_pie::recon::Recon;
use fractal_pie::walk::{try_walk, walk};

fn det3(m: &[[f64; 3]; 3]) -> f64 {
    m[0][0] * (m[1][1] * m[2][2] - m[1][2] * m[2][1])
        - m[0][1] * (m[1][0] * m[2][2] - m[1][2] * m[2][0])
        + m[0][2] * (m[1][0] * m[2][1] - m[1][1] * m[2][0])
}

fn solve(sums: NormalSums) -> Plane {
    let sxx = sums.sxx6 as f64 / 6.0;
    let syx = sums.syx4 as f64 / 4.0;
    let sx = sums.sx2 as f64 / 2.0;
    let sn = sums.sn as f64;
    let a = [[sxx, syx, sx], [syx, sxx, sx], [sx, sx, sn]];
    let b = [sums.sxz as f64, sums.syz as f64, sums.sz as f64];
    let d = det3(&a);
    let mut found = [0i64; 3];
    for k in 0..3 {
        let mut m = a;
        for r in 0..3 {
            m[r][k] = b[r];
        }
        found[k] = (det3(&m) / d + 0.499999) as i64;
    }
    Plane { a: found[0], b: found[1], c: found[2] }
}

fn exceeds(error: i64, pixels: i64, bound: u64) -> bool {
    error as f64 / pixels as f64 > f64::from_bits(bound)
}

#[test]
fn find_plane_recovers_exact_plane() {
    // d[r][c] = 2*r + 3*c + 5  =>  a = 2, b = 3, c = 5.
    let mut image = [0u8; 16];
    for r in 0..4usize {
        for c in 0..4usize {
            image[r * 4 + c] = (2 * r + 3 * c + 5) as u8;
        }
    }

    let fit = find_plane(&image, 4, 0, 0, 4, &solve);
    assert_eq!(fit.plane, Plane { a: 2, b: 3, c: 5 });
    assert_eq!(fit.error as f64 / fit.pixels as f64, 0.0);
}

#[test]
fn split_range_into_quad_divides_correctly() {
    assert_eq!(
        split_range_into_quad(8, 8, 4),
        [(8, 8, 2), (8, 10, 2), (10, 8, 2), (10, 10, 2)]
    );
}

#[test]
fn odd_edges_round_up() {
    assert_eq!(
        split_range_into_quad(0, 1, 3),
        [(0, 1, 2), (0, 3, 2), (2, 1, 2), (2, 3, 2)]
    );
}

#[test]
fn single_pixel_is_a_leaf() {
    let image = [123u8];
    let fit = find_plane(&image, 1, 0, 0, 1, &solve);
    assert_eq!(fit.plane, Plane { a: 0, b: 0, c: 123 });
    assert_eq!(fit.error as f64 / fit.pixels as f64, 0.0);
}

#[test]
fn sums_of_a_small_square() {
    // Rows 1 2 / 3 4 in the lower right of a 3x3 image.
    let image = [0u8, 0, 0, 0, 1, 2, 0, 3, 4];
    let sums = sum_up(&image, 3, 1, 1, 2);
    assert_eq!((sums.sxx6, sums.syx4, sums.sx2, sums.sn), (12, 4, 4, 4));
    assert_eq!((sums.sxz, sums.syz, sums.sz), (7, 6, 10));
}

#[test]
fn coordinate_sums_match_a_count() {
    for n in 2..9i64 {
        let image = vec![0u8; (n * n) as usize];
        let sums = sum_up(&image, n as usize, 0, 0, n as usize);
        let (mut xx, mut yx, mut x) = (0i64, 0i64, 0i64);
        for i in 0..n {
            for j in 0..n {
                xx += i * i;
                yx += i * j;
                x += i;
            }
        }
        assert_eq!((sums.sxx6, sums.syx4, sums.sx2), (6 * xx, 4 * yx, 2 * x));
    }
}

#[test]
fn rounding_truncates_toward_zero() {
    let image: Vec<u8> = (0..16).map(|k| (255 - 60 * (k % 4)) as u8).collect();
    let fit = find_plane(&image, 4, 0, 0, 4, &solve);
    assert_eq!(fit.plane, Plane { a: 0, b: -59, c: 255 });
    assert_eq!((fit.error, fit.pixels), (4 * (1 + 4 + 9), 16));
}

#[test]
fn errors_are_taken_from_the_clamped_plane() {
    let image: Vec<u8> = (0..16).map(|k| if k % 4 == 3 { 255 } else { 0 }).collect();
    let fit = find_plane(&image, 4, 0, 0, 4, &solve);
    assert_eq!(fit.plane, Plane { a: 0, b: 76, c: -50 });
    assert_eq!(fit.error, 68036);
}

#[test]
fn a_chessboard_is_split_down_to_pixels() {
    let image = [0u8, 20, 20, 0];
    let fitter = Fitter { solve, exceeds };
    let tree = walk(&image, 2, 0, 0, 2, 32f64.to_bits(), &fitter);
    let corners: Vec<(usize, usize, usize, i64)> =
        tree.leaves.iter().map(|l| (l.x, l.y, l.n, l.plane.c)).collect();
    assert_eq!(corners, vec![(0, 0, 1, 0), (0, 1, 1, 20), (1, 0, 1, 20), (1, 1, 1, 0)]);
    assert_eq!((tree.tree_len, tree.params_len), (6, 15));
}

#[test]
fn a_looser_bound_prunes() {
    let image = [0u8, 20, 20, 0];
    let fitter = Fitter { solve, exceeds };
    let tree = walk(&image, 2, 0, 0, 2, 200f64.to_bits(), &fitter);
    assert_eq!(tree.leaves.len(), 1);
    assert_eq!(tree.leaves[0].plane, Plane { a: 0, b: 0, c: 10 });
    assert_eq!((tree.tree_len, tree.params_len), (1, 3));
}

#[test]
fn every_leaf_is_within_the_bound() {
    let image: Vec<u8> = (0..256u32).map(|k| (k * k % 251) as u8).collect();
    let fitter = Fitter { solve, exceeds };
    let tree = walk(&image, 16, 0, 0, 16, 32f64.to_bits(), &fitter);
    assert!(tree.leaves.len() > 1);
    for leaf in &tree.leaves {
        let fit = find_plane(&image, 16, leaf.x, leaf.y, leaf.n, &solve);
        assert_eq!(fit.plane, leaf.plane);
        assert!(fit.error as f64 / fit.pixels as f64 <= 32.0);
    }
}

#[test]
fn leaves_tile_a_power_of_two() {
    let image: Vec<u8> = (0..1024u32).map(|k| (k * 7 % 256) as u8).collect();
    let fitter = Fitter { solve, exceeds };
    let tree = walk(&image, 32, 0, 0, 32, 32f64.to_bits(), &fitter);
    let mut seen = vec![0u32; 1024];
    for leaf in &tree.leaves {
        for i in 0..leaf.n {
            for j in 0..leaf.n {
                seen[(leaf.x + i) * 32 + leaf.y + j] += 1;
            }
        }
    }
    assert_eq!(seen, vec![1u32; 1024]);
}

#[test]
fn walking_in_parallel_keeps_the_order() {
    let n = 256usize;
    let image: Vec<u8> = (0..n * n)
        .map(|k| {
            let (r, c) = (k / n, k % n);
            let ripple = if (r / 8 + c / 8) % 2 == 0 { 6i64 } else { -6 };
            ((40 + r / 4 + c / 2) as i64 + ripple).rem_euclid(256) as u8
        })
        .collect();
    let fitter = Fitter { solve, exceeds };
    let tree = walk(&image, n, 0, 0, n, 32f64.to_bits(), &fitter);
    assert_eq!(tree.leaves.len(), 1024);
    assert_eq!(tree.tree_len / 8 + tree.params_len + 2, 4310);
    let total: u64 = render(n, n, &tree.leaves).iter().map(|&v| v as u64).sum();
    assert_eq!(total, 8716288);
    // Depth first: every leaf of the upper left quarter comes before the others.
    let quarter: Vec<usize> = tree
        .leaves
        .iter()
        .map(|l| (l.x / 128) * 2 + l.y / 128)
        .collect();
    assert!(quarter.windows(2).all(|w| w[0] <= w[1]));
}

#[test]
fn an_odd_edge_that_splits_leaves_the_image() {
    let image = [0u8, 200, 0, 200, 0, 200, 0, 200, 0];
    let fitter = Fitter { solve, exceeds };
    assert!(try_walk(&image, 3, 0, 0, 3, 32f64.to_bits(), &fitter).is_none());
}

#[test]
fn a_negative_bound_would_split_a_pixel() {
    let image = [0u8; 4];
    let fitter = Fitter { solve, exceeds };
    assert!(try_walk(&image, 2, 0, 0, 2, (-1f64).to_bits(), &fitter).is_none());
}

#[test]
fn rendering_clamps_and_leaves_the_rest_black() {
    let leaves = [
        Leaf { x: 0, y: 0, n: 2, plane: Plane { a: 100, b: -20, c: 10 } },
        Leaf { x: 2, y: 1, n: 1, plane: Plane { a: 0, b: 0, c: 999 } },
    ];
    assert_eq!(render(3, 3, &leaves), vec![10u8, 0, 0, 110, 90, 0, 0, 255, 0]);
}

#[test]
fn later_leaves_paint_over_earlier_ones() {
    let leaves = [
        Leaf { x: 0, y: 0, n: 2, plane: Plane { a: 0, b: 0, c: 1 } },
        Leaf { x: 1, y: 1, n: 1, plane: Plane { a: 0, b: 0, c: 2 } },
    ];
    assert_eq!(render(2, 2, &leaves), vec![1u8, 1, 1, 2]);
}

#[test]
fn every_leaf_shows_its_own_plane() {
    let image: Vec<u8> = (0..256u32).map(|k| (k * k % 241) as u8).collect();
    let fitter = Fitter { solve, exceeds };
    let tree = walk(&image, 16, 0, 0, 16, 32f64.to_bits(), &fitter);
    let out = render(16, 16, &tree.leaves);
    for leaf in &tree.leaves {
        for i in 0..leaf.n {
            for j in 0..leaf.n {
                let value = leaf.plane.a * i as i64 + leaf.plane.b * j as i64 + leaf.plane.c;
                let shown = out[(leaf.x + i) * 16 + leaf.y + j];
                assert_eq!(shown as i64, value.clamp(0, 255));
            }
        }
    }
}

#[test]
fn walking_twice_gives_the_same_tree() {
    let image: Vec<u8> = (0..128 * 128u32).map(|k| (k * 31 % 253 / 3) as u8).collect();
    let fitter = Fitter { solve, exceeds };
    let one = walk(&image, 128, 0, 0, 128, 16f64.to_bits(), &fitter);
    let other = walk(&image, 128, 0, 0, 128, 16f64.to_bits(), &fitter);
    assert_eq!(one.tree_len, other.tree_len);
    let shape = |leaves: &[Leaf]| -> Vec<(usize, usize, usize, Plane)> {
        leaves.iter().map(|l| (l.x, l.y, l.n, l.plane)).collect()
    };
    assert_eq!(shape(&one.leaves), shape(&other.leaves));
}

#[test]
fn powers_of_two_stay_inside() {
    let fitter = Fitter { solve, exceeds };
    for k in 0..7 {
        let n = 1usize << k;
        let image: Vec<u8> = (0..n * n).map(|p| (p * p * 37 % 256) as u8).collect();
        assert!(try_walk(&image, n, 0, 0, n, 0f64.to_bits(), &fitter).is_some());
    }
}

#[test]
fn predictions_are_rounded_means_of_known_neighbours() {
    let mut recon = Recon::new(3, 2);
    assert_eq!(recon.predict(0, 0), 128);
    recon.paint(&Plane { a: 0, b: 0, c: 10 }, 0, 0, 1);
    assert_eq!(recon.predict(0, 1), 10);
    recon.paint(&Plane { a: 0, b: 0, c: 13 }, 0, 1, 1);
    // Above-left 10 and above 13; above-right is not known.
    assert_eq!(recon.predict(1, 1), 12);
    recon.paint(&Plane { a: 0, b: 0, c: 300 }, 0, 2, 1);
    assert_eq!(recon.predict(1, 1), (10 + 13 + 255 + 1) / 3);
    recon.paint(&Plane { a: 0, b: 0, c: -4 }, 1, 0, 1);
    assert_eq!(recon.predict(1, 1), (10 + 13 + 255 + 2) / 4);
    assert_eq!(recon.predict(1, 2), (13 + 255 + 1) / 2);
    assert_eq!(recon.into_pixels(), vec![10u8, 13, 255, 0, 0, 0]);
}

fn solves(sums: &NormalSums, a: i64, b: i64, c: i64) -> bool {
    2 * sums.sxx6 * a + 3 * sums.syx4 * b + 6 * sums.sx2 * c == 12 * sums.sxz
        && 3 * sums.syx4 * a + 2 * sums.sxx6 * b + 6 * sums.sx2 * c == 12 * sums.syz
        && sums.sx2 * a + sums.sx2 * b + 2 * sums.sn * c == 2 * sums.sz
}

#[test]
fn an_exact_plane_is_the_only_solution() {
    let image = [0u8, 1, 2, 3, 4, 5, 6, 7, 8];
    let sums = sum_up(&image, 3, 0, 0, 3);
    for a in -5..6 {
        for b in -5..6 {
            for c in -5..6 {
                assert_eq!(solves(&sums, a, b, c), (a, b, c) == (3, 1, 0));
            }
        }
    }
    assert_eq!(find_plane(&image, 3, 0, 0, 3, &solve).error, 0);
}

#[test]
fn a_solution_has_the_least_squares() {
    let image = [0u8, 20, 20, 0];
    let sums = sum_up(&image, 2, 0, 0, 2);
    assert!(solves(&sums, 0, 0, 10));
    let distance = |a: i64, b: i64, c: i64| -> i64 {
        let mut total = 0;
        for i in 0..2 {
            for j in 0..2 {
                let e = a * i + b * j + c - image[(i * 2 + j) as usize] as i64;
                total += e * e;
            }
        }
        total
    };
    assert_eq!(distance(0, 0, 10), 400);
    for a in -20..21 {
        for b in -20..21 {
            for c in -20..41 {
                assert!(distance(a, b, c) >= 400);
            }
        }
    }
}

#[test]
fn listing_lengths_follow_from_the_leaves() {
    let image: Vec<u8> = (0..128 * 128u32).map(|k| (k * 29 % 251 / 2) as u8).collect();
    let fitter = Fitter { solve, exceeds };
    for bound in [0.0, 16.0, 400.0, 1e9] {
        let tree = walk(&image, 128, 0, 0, 128, f64::to_bits(bound), &fitter);
        let leaves = tree.leaves.len() as u64;
        assert_eq!(leaves % 3, 1);
        assert_eq!(tree.params_len, 4 * leaves - 1);
        assert_eq!(3 * tree.tree_len, 5 * leaves - 2);
    }
}

#[test]
fn leaves_under_a_looser_bound_are_unions() {
    let image: Vec<u8> = (0..1024u32).map(|k| (k * k / 7 % 199) as u8).collect();
    let fitter = Fitter { solve, exceeds };
    let fine = walk(&image, 32, 0, 0, 32, 100f64.to_bits(), &fitter);
    let coarse = walk(&image, 32, 0, 0, 32, 2000f64.to_bits(), &fitter);
    assert!(coarse.leaves.len() < fine.leaves.len());
    for leaf in &fine.leaves {
        let holders = coarse.leaves.iter().filter(|c| {
            c.x <= leaf.x
                && leaf.x + leaf.n <= c.x + c.n
                && c.y <= leaf.y
                && leaf.y + leaf.n <= c.y + c.n
        });
        assert_eq!(holders.count(), 1);
    }
}
