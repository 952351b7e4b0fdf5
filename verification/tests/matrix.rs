use color_palette_dither::matrix::bayer_cell;
use color_palette_dither::matrix::ThresholdMatrix;
use color_palette_dither::matrix::MAX_ORDER;

#[test]
fn order_one_cells_have_the_classic_ranks() {
    assert_eq!(bayer_cell(1, 0, 0), 0);
    assert_eq!(bayer_cell(1, 1, 0), 2);
    assert_eq!(bayer_cell(1, 0, 1), 3);
    assert_eq!(bayer_cell(1, 1, 1), 1);
}

#[test]
fn order_one_thresholds_are_quarters() {
    let m = ThresholdMatrix::bayer_matrix(1);
    let levels = m.levels() as f64;
    assert_eq!(bayer_cell(1, 0, 0) as f64 / levels, 0.0);
    assert_eq!(bayer_cell(1, 1, 0) as f64 / levels, 0.5);
    assert_eq!(bayer_cell(1, 0, 1) as f64 / levels, 0.75);
    assert_eq!(bayer_cell(1, 1, 1) as f64 / levels, 0.25);
}

#[test]
fn order_one_lookup_reads_the_cell_of_the_pixel() {
    let m = ThresholdMatrix::bayer_matrix(1);
    assert_eq!(m.side_length(), 2);
    assert_eq!(m.levels(), 4);
    // `y` selects the row and `x` the column: pixel (x, y) reads cell (x, y)
    assert_eq!(m.get(0, 0), 0);
    assert_eq!(m.get(1, 0), 2);
    assert_eq!(m.get(0, 1), 3);
    assert_eq!(m.get(1, 1), 1);
    let levels = m.levels() as f64;
    assert_eq!(m.get(1, 0) as f64 / levels, 0.5);
    assert_eq!(m.get(0, 1) as f64 / levels, 0.75);
}

#[test]
fn order_two_lookup_is_the_four_by_four_pattern() {
    let m = ThresholdMatrix::bayer_matrix(2);
    let rows = [[0, 8, 2, 10], [12, 4, 14, 6], [3, 11, 1, 9], [15, 7, 13, 5]];
    for y in 0..4u32 {
        for x in 0..4u32 {
            assert_eq!(m.get(x, y), rows[y as usize][x as usize]);
        }
    }
    assert_eq!(m.get(3, 0) as f64 / m.levels() as f64, 0.625);
    assert_eq!(m.get(0, 3) as f64 / m.levels() as f64, 0.9375);
}

#[test]
fn lookup_is_not_symmetric() {
    // every order above zero tells `x` from `y`
    for order in 1..=6u8 {
        let m = ThresholdMatrix::bayer_matrix(order);
        let side = m.side_length();
        let mut differs = false;
        for y in 0..side {
            for x in 0..side {
                assert_eq!(m.get(x, y), bayer_cell(order, x, y));
                differs = differs || m.get(x, y) != m.get(y, x);
            }
        }
        assert!(differs);
    }
}

#[test]
fn order_zero_matrix_is_one_cell_of_rank_zero() {
    let m = ThresholdMatrix::bayer_matrix(0);
    assert_eq!(m.side_length(), 1);
    assert_eq!(m.levels(), 1);
    assert_eq!(m.get(0, 0), 0);
    assert_eq!(m.get(17, 4_000_000_000), 0);
}

#[test]
fn order_two_matrix_matches_the_bit_interleaving() {
    // rank = sum over p of bit p of y at bit 2(N-p-1) and bit p of x^y one above
    let expected = |x: u32, y: u32| -> u32 {
        let xor = x ^ y;
        let mut v = 0;
        for p in 0..2u32 {
            let at = 2 * (2 - p - 1);
            v |= ((y >> p) & 1) << at;
            v |= ((xor >> p) & 1) << (at + 1);
        }
        v
    };
    let m = ThresholdMatrix::bayer_matrix(2);
    for x in 0..4 {
        for y in 0..4 {
            assert_eq!(bayer_cell(2, x, y), expected(x, y));
            assert_eq!(m.get(x, y), expected(x, y));
        }
    }
    assert_eq!(bayer_cell(2, 3, 1), 6);
    assert_eq!(bayer_cell(2, 2, 3), 13);
}

#[test]
fn order_five_ranks_are_a_permutation() {
    let m = ThresholdMatrix::bayer_matrix(5);
    assert_eq!(m.side_length(), 32);
    assert_eq!(m.levels(), 1024);
    let mut seen = vec![false; 1024];
    for y in 0..32 {
        for x in 0..32 {
            let rank = m.get(x, y) as usize;
            assert!(rank < 1024);
            assert!(!seen[rank]);
            seen[rank] = true;
        }
    }
    assert!(seen.iter().all(|s| *s));
}

#[test]
fn matrix_tiles_the_plane() {
    let m = ThresholdMatrix::bayer_matrix(3);
    for y in 0..8 {
        for x in 0..8 {
            assert_eq!(m.get(x + 8, y), m.get(x, y));
            assert_eq!(m.get(x, y + 8 * 5), m.get(x, y));
            assert_eq!(m.get(x + 8 * 1000, y + 8 * 7), m.get(x, y));
        }
    }
    assert_eq!(m.get(u32::MAX, u32::MAX), m.get(7, 7));
}

#[test]
fn cell_rank_ignores_bits_above_the_order() {
    assert_eq!(bayer_cell(1, 2, 4), 0);
    assert_eq!(bayer_cell(1, 3, 6), bayer_cell(1, 1, 0));
    assert_eq!(bayer_cell(0, 12345, 678), 0);
}

#[test]
fn larger_orders_keep_ranks_distinct() {
    let m = ThresholdMatrix::bayer_matrix(8);
    assert_eq!(m.levels(), 65536);
    let mut seen = vec![false; 65536];
    for y in 0..256 {
        for x in 0..256 {
            let rank = m.get(x, y) as usize;
            assert!(!seen[rank]);
            seen[rank] = true;
        }
    }
    assert!(MAX_ORDER >= 8);
    assert_eq!(bayer_cell(MAX_ORDER, 1, 0), 2 << 28);
    assert_eq!(bayer_cell(MAX_ORDER, 0, 1), 3 << 28);
    assert_eq!(bayer_cell(MAX_ORDER, 1 << 14, 0), 2);
}
