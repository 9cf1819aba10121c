use pullauta::knolls::window_clear;
use pullauta::merge::{merged_png_name, merged_vege_name, png_merge_candidate, vege_merge_candidate};
use pullauta::vege_vector::draw_sequence;
use pullauta::vegetation::{firsthit_average_parts, green_shade, keeps_return, sum2x2, window_min5};

#[test]
fn every_return_kept_without_thinning() {
    for i in 0..10u64 {
        assert!(keeps_return(i, 0));
    }
}

#[test]
fn thinning_keeps_every_nth_return() {
    let kept: Vec<u64> = (0..10u64).filter(|&i| keeps_return(i, 3)).collect();
    assert_eq!(kept, vec![2, 5, 8]);
}

#[test]
fn thinning_position_wraps_at_32_bits() {
    // the 2^32-th return wraps to position 0, which every divisor divides
    assert!(keeps_return(0xffff_ffff, 7));
    assert!(!keeps_return(0xffff_fffe, 7));
}

#[test]
fn window_min_over_clipped_5x5() {
    // 4 x 3 grid, row by row
    let grid: Vec<u32> = vec![
        9, 8, 7, 6, //
        5, 4, 3, 2, //
        9, 9, 9, 1,
    ];
    // from (0, 0) the window spans columns 0..=2: the 1 at column 3 is outside
    assert_eq!(window_min5(&grid, 4, 3, 0, 0), 3);
    assert_eq!(window_min5(&grid, 4, 3, 1, 0), 1);
    let grid2: Vec<u32> = vec![
        1, 9, 9, 9, 9, 9, //
        9, 9, 9, 9, 9, 5,
    ];
    // from (5, 0) the window spans columns 3..=5: the 1 at column 0 is outside
    assert_eq!(window_min5(&grid2, 6, 2, 5, 0), 5);
    assert_eq!(window_min5(&grid2, 6, 2, 2, 1), 1);
}

#[test]
fn sum_of_two_by_two_square() {
    let grid: Vec<u32> = vec![
        1, 2, 3, //
        4, 5, 6, //
        7, 8, 9,
    ];
    assert_eq!(sum2x2(&grid, 3, 3, 0, 0), 12);
    assert_eq!(sum2x2(&grid, 3, 3, 1, 1), 28);
    let big: Vec<u32> = vec![u32::MAX; 4];
    assert_eq!(sum2x2(&big, 2, 2, 0, 0), 4 * u32::MAX as u64);
}

#[test]
fn firsthit_average_counts_cells_with_ground() {
    let firsthit: Vec<u32> = vec![10, 20, 30, 40];
    let ghit: Vec<u32> = vec![0, 2, 1, 5];
    assert_eq!(firsthit_average_parts(&firsthit, &ghit), (60, 2));
    assert_eq!(firsthit_average_parts(&vec![], &vec![]), (0, 0));
}

#[test]
fn green_shade_is_last_exceeded_limit() {
    assert_eq!(green_shade(&vec![]), 0);
    assert_eq!(green_shade(&vec![false, false]), 0);
    assert_eq!(green_shade(&vec![true, false, false]), 1);
    assert_eq!(green_shade(&vec![true, true, false]), 2);
    assert_eq!(green_shade(&vec![false, true, true]), 3);
}

#[test]
fn dot_knoll_window_clear_of_ink() {
    // 4 x 3 image, row by row, ink (0) at (3, 2)
    let img: Vec<u8> = vec![
        255, 255, 255, 255, //
        255, 255, 255, 255, //
        255, 255, 255, 0,
    ];
    assert!(window_clear(&img, 4, 3, &vec![0, 1, 2], &vec![0, 1, 2]));
    assert!(!window_clear(&img, 4, 3, &vec![2, 3], &vec![1, 2]));
    // a window reaching past the image is not clear
    assert!(!window_clear(&img, 4, 3, &vec![1, 4], &vec![0]));
    assert!(!window_clear(&img, 4, 3, &vec![1], &vec![0, 3]));
}

#[test]
fn merged_images_pick_their_tiles() {
    assert!(png_merge_candidate("tile_1.png", false));
    assert!(!png_merge_candidate("tile_1.png", true));
    assert!(png_merge_candidate("tile_1_depr.png", true));
    assert!(!png_merge_candidate("tile_1_depr.png", false));
    assert!(!png_merge_candidate("tile_1_vege.png", false));
    assert!(!png_merge_candidate("tile_1_undergrowth_bit.png", false));
    assert!(!png_merge_candidate("tile_1.jpg", false));
    assert!(vege_merge_candidate("tile_1_vege.png", false));
    assert!(!vege_merge_candidate("tile_1_undergrowth.png", false));
    assert!(vege_merge_candidate("tile_1_undergrowth.png", true));
    assert!(!vege_merge_candidate("tile_1.png", true));
    assert_eq!(merged_png_name(false), "merged");
    assert_eq!(merged_png_name(true), "merged_depr");
    assert_eq!(merged_vege_name(false), "merged_vege");
    assert_eq!(merged_vege_name(true), "merged_vege_undergrowth");
}

#[test]
fn vegetation_layers_drawn_light_to_dark() {
    // 410, 403, 999 (unknown), 406, 403, 407, 408
    let codes: Vec<u16> = vec![410, 403, 999, 406, 403, 407, 408];
    assert_eq!(draw_sequence(&codes), vec![1, 4, 3, 6, 0, 5, 2]);
    assert_eq!(draw_sequence(&vec![]), Vec::<usize>::new());
    // one layer keeps the given order
    assert_eq!(draw_sequence(&vec![406, 406, 406]), vec![0, 1, 2]);
}
