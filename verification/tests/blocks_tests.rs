use pullauta::blocks::{blocks_image, is_block_return};
use pullauta::vege_grid::median_passes;

#[test]
fn block_returns_are_single_echo_off_ground() {
    assert!(is_block_return(1, 1, 1));
    assert!(is_block_return(6, 1, 1));
    assert!(!is_block_return(2, 1, 1));
    assert!(!is_block_return(9, 1, 1));
    assert!(!is_block_return(1, 2, 1));
    assert!(!is_block_return(1, 2, 2));
    assert!(!is_block_return(1, 1, 0));
}

#[test]
fn median_pass_pads_by_continuity() {
    let image: Vec<u8> = vec![
        1, 2, 3, //
        200, 6, 7, //
        9, 100, 11,
    ];
    assert_eq!(median_passes(image.clone(), 3, 3, [1, 0]), vec![2, 3, 3, 9, 7, 7, 9, 11, 11]);
    assert_eq!(median_passes(image.clone(), 3, 3, [0, 0]), image);
}

#[test]
fn median_passes_run_in_order() {
    // a lone mark vanishes in the first pass; the second pass sees a uniform grid
    let mut image: Vec<u8> = vec![10; 25];
    image[12] = 200;
    assert_eq!(median_passes(image, 5, 5, [1, 1]), vec![10; 25]);
}

#[test]
fn lone_block_marks_are_filtered_away() {
    // 7 x 7 raster with one lone block pixel: its white surroundings outvote it
    let n = 7 * 7;
    let mut block = vec![false; n];
    block[3 * 7 + 3] = true;
    let other = vec![false; n];
    assert_eq!(blocks_image(&block, &other, 7, 7), vec![255u8; n]);
}

#[test]
fn solid_block_survives_and_other_returns_cover_it() {
    let n = 7 * 7;
    let block = vec![true; n];
    let other = vec![false; n];
    assert_eq!(blocks_image(&block, &other, 7, 7), vec![0u8; n]);
    // a return of another kind laid over every pixel clears the ink
    let other = vec![true; n];
    assert_eq!(blocks_image(&block, &other, 7, 7), vec![255u8; n]);
}
