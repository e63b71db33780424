//! Tests of the numeric pipeline: histogram, threshold selection,
//! binarization and isolated-pixel removal.

use otsify::img::{get_histogram, get_otsu_max_k, otsify_gray, remove_isolates, threshold_gray,
    Grid};

fn grid(w: usize, h: usize, data: Vec<u8>) -> Grid {
    assert_eq!(data.len(), w * h);
    Grid::new(w, h, data)
}

#[test]
fn histogram_counts() {
    let g = grid(2, 2, vec![0, 1, 1, 3]);
    let hist = get_histogram(&g);
    assert_eq!(hist.len(), 256);
    assert_eq!(hist[0], 1);
    assert_eq!(hist[1], 2);
    assert_eq!(hist[2], 0);
    assert_eq!(hist[3], 1);
    for v in 4..256 {
        assert_eq!(hist[v], 0);
    }
    // the counts sum to the pixel total: the normalized histogram sums to 1
    let total: u64 = hist.iter().sum();
    assert_eq!(total, 4);
}

#[test]
fn histogram_uniform() {
    let g = grid(4, 4, vec![100; 16]);
    let hist = get_histogram(&g);
    assert_eq!(hist[100], 16);
    let total: u64 = hist.iter().sum();
    assert_eq!(total, 16);
}

#[test]
fn otsu_uniform_returns_zero() {
    // a perfectly uniform image has no valid split: the fallback is 0
    let g = grid(4, 4, vec![100; 16]);
    assert_eq!(get_otsu_max_k(&g), 0);
    let g2 = grid(3, 1, vec![255, 255, 255]);
    assert_eq!(get_otsu_max_k(&g2), 0);
}

#[test]
fn otsu_two_level_black_white() {
    // every split in 0..=254 separates the classes equally well: the
    // first one wins
    let g = grid(2, 2, vec![0, 0, 255, 255]);
    let k = get_otsu_max_k(&g);
    assert_eq!(k, 0);
    // binarizing at the selected split reproduces the two-level image
    let mut g2 = grid(2, 2, vec![0, 0, 255, 255]);
    threshold_gray(&mut g2, k);
    assert_eq!(g2.into_data(), vec![0, 0, 255, 255]);
}

#[test]
fn otsu_two_level_midrange() {
    // splits 100..=199 are the valid separators; the first one wins
    let g = grid(2, 2, vec![100, 100, 200, 200]);
    let k = get_otsu_max_k(&g);
    assert_eq!(k, 100);
    let mut g2 = grid(2, 2, vec![100, 100, 200, 200]);
    threshold_gray(&mut g2, k);
    assert_eq!(g2.into_data(), vec![0, 0, 255, 255]);
}

#[test]
fn otsu_four_levels() {
    // exact between-class variances: split at 1 beats splits at 0 and 2
    let g = grid(2, 2, vec![0, 1, 2, 3]);
    assert_eq!(get_otsu_max_k(&g), 1);
}

#[test]
fn threshold_mixed() {
    let mut g = grid(3, 2, vec![0, 100, 101, 200, 255, 50]);
    threshold_gray(&mut g, 100);
    assert_eq!(g.into_data(), vec![0, 0, 255, 255, 255, 0]);
}

#[test]
fn threshold_idempotent() {
    // binarizing twice with one threshold equals binarizing once
    let data = vec![0, 100, 101, 200, 255, 50, 17, 130];
    let mut once = grid(4, 2, data.clone());
    threshold_gray(&mut once, 120);
    let once_data = once.into_data();
    let mut twice = grid(4, 2, once_data.clone());
    threshold_gray(&mut twice, 120);
    assert_eq!(twice.into_data(), once_data);
}

#[test]
fn threshold_at_255_blackens() {
    let mut g = grid(2, 1, vec![255, 0]);
    threshold_gray(&mut g, 255);
    assert_eq!(g.into_data(), vec![0, 0]);
}

#[test]
fn otsify_uniform_goes_white() {
    // uniform 100s: histogram mass sits at 100, the selector falls back
    // to 0, and 100 > 0 binarizes to white
    let mut g = grid(4, 4, vec![100; 16]);
    otsify_gray(&mut g);
    assert_eq!(g.into_data(), vec![255; 16]);
}

#[test]
fn isolates_single_flip() {
    // a lone black pixel amid white is inverted: the grid becomes uniform
    let mut g = grid(3, 3, vec![255, 255, 255, 255, 0, 255, 255, 255, 255]);
    remove_isolates(&mut g);
    assert_eq!(g.into_data(), vec![255; 9]);
}

#[test]
fn isolates_single_flip_large() {
    let mut data = vec![255u8; 25];
    data[2 * 5 + 2] = 0;
    let mut g = grid(5, 5, data);
    remove_isolates(&mut g);
    assert_eq!(g.into_data(), vec![255; 25]);
}

#[test]
fn isolates_matching_neighbor_kept() {
    // the center has one matching neighbor and stays
    let mut g = grid(3, 3, vec![0, 255, 255, 255, 0, 255, 255, 255, 255]);
    remove_isolates(&mut g);
    assert_eq!(g.into_data(), vec![0, 255, 255, 255, 0, 255, 255, 255, 255]);
}

#[test]
fn isolates_border_untouched() {
    // border pixels are never examined, however isolated they look
    let mut g = grid(3, 3, vec![0, 255, 0, 255, 255, 255, 0, 255, 0]);
    remove_isolates(&mut g);
    assert_eq!(g.into_data(), vec![0, 255, 0, 255, 255, 255, 0, 255, 0]);
}

#[test]
fn isolates_small_grids_unchanged() {
    let mut g = grid(2, 2, vec![1, 2, 3, 4]);
    remove_isolates(&mut g);
    assert_eq!(g.into_data(), vec![1, 2, 3, 4]);
    let mut g2 = grid(1, 1, vec![9]);
    remove_isolates(&mut g2);
    assert_eq!(g2.into_data(), vec![9]);
}

#[test]
fn isolates_in_place_order() {
    // the filter reads already-mutated pixels: flipping (1,1) changes
    // what (2,1) sees, so (2,1) flips too
    let mut g = grid(4, 3, vec![5, 5, 5, 5, 5, 7, 9, 5, 5, 5, 5, 5]);
    remove_isolates(&mut g);
    assert_eq!(g.into_data(), vec![5, 5, 5, 5, 5, !7u8, !9u8, 5, 5, 5, 5, 5]);
}

#[test]
fn grid_accessors() {
    let g = grid(3, 2, vec![10, 20, 30, 40, 50, 60]);
    assert_eq!(g.width(), 3);
    assert_eq!(g.height(), 2);
    assert_eq!(g.get(0, 0), 10);
    assert_eq!(g.get(2, 0), 30);
    assert_eq!(g.get(1, 1), 50);
    assert_eq!(g.into_data(), vec![10, 20, 30, 40, 50, 60]);
}

#[test]
fn end_to_end_binary_then_filter() {
    // a dark image with one bright defect: binarize, then the defect is
    // flipped away by the filter
    let mut data = vec![10u8; 25];
    data[2 * 5 + 2] = 200;
    let mut g = Grid::new(5, 5, data);
    otsify_gray(&mut g);
    let after = g.into_data();
    let mut expect = vec![0u8; 25];
    expect[2 * 5 + 2] = 255;
    assert_eq!(after, expect);
    let mut g2 = Grid::new(5, 5, after);
    remove_isolates(&mut g2);
    assert_eq!(g2.into_data(), vec![0; 25]);
}
