use pullauta::render::formline_runs;
use pullauta::geometry::Classification;
use pullauta::render::{curve_width_tenths, is_drawn, skips_slope_line};
use pullauta::render::formline_mask;
use pullauta::render::clear_white;

/// Form line dashing written directly as a float-counter loop, the independent
/// model the verified mask is compared with.
fn direct_dashing(
    help: &[bool],
    help3: &[bool],
    closed: bool,
    formlineaddition: f64,
    below_minimum: bool,
    minimumgap: u32,
    remove_touching_contours: bool,
) -> (Vec<bool>, bool) {
    let n = help.len();
    let mut help2 = vec![true; n];
    for i in 5..(n - 6) {
        let mut apu = 0;
        for j in (i - 5)..(i + 4) {
            if help[j] {
                apu += 1;
            }
        }
        if apu < 5 {
            help2[i] = false;
        }
    }
    for i in 0..6 {
        help2[i] = help2[6]
    }
    for i in (n - 6)..n {
        help2[i] = help2[n - 7]
    }
    let mut on = 0.0;
    for i in 0..n {
        if help2[i] {
            on = formlineaddition
        }
        if on > 0.0 {
            help2[i] = true;
            on -= 1.0;
        }
    }
    if closed && on > 0.0 {
        let mut i = 0;
        while i < n && on > 0.0 {
            help2[i] = true;
            on -= 1.0;
            i += 1;
        }
    }
    let mut on = 0.0;
    for i in 0..n {
        let ii = n - i - 1;
        if help2[ii] {
            on = formlineaddition
        }
        if on > 0.0 {
            help2[ii] = true;
            on -= 1.0;
        }
    }
    if closed && on > 0.0 {
        let mut i = (n - 1) as i32;
        while i > -1 && on > 0.0 {
            help2[i as usize] = true;
            on -= 1.0;
            i -= 1;
        }
    }
    let mut smallringtest = false;
    for max_length in [122usize, 60].iter() {
        smallringtest = false;
        if closed && n < *max_length {
            smallringtest = help2.iter().any(|v| *v);
            if smallringtest && below_minimum {
                smallringtest = false;
                help2.iter_mut().for_each(|h| *h = false);
            }
            if smallringtest {
                help2.iter_mut().for_each(|h| *h = true);
            }
        }
    }
    if !smallringtest {
        let mut tester = 1;
        for i in 1..n {
            if help2[i] {
                if tester < i && ((i - tester) as u32) < minimumgap {
                    for j in tester..(i + 1) {
                        help2[j] = true;
                    }
                }
                tester = i;
            }
        }
    }
    if remove_touching_contours {
        let mut touched = false;
        for i in 0..n {
            if !help3[i] {
                for k in 0..5usize {
                    if i + k < n {
                        help2[i + k] = false;
                        touched = true;
                    }
                    if k <= i && i - k < n {
                        help2[i - k] = false;
                        touched = true;
                    }
                }
            }
        }
        if touched {
            let mut k = 0;
            for i in 0..n {
                if help2[i] {
                    k += 1;
                }
                if k > 0 && !help2[i] && k < 15 {
                    for l in (i - k)..i {
                        help2[l] = false;
                    }
                }
                if !help2[i] {
                    k = 0;
                }
            }
        }
    }
    (help2, smallringtest)
}

/// Whole steps the float form line addition counter takes before it runs out.
fn addition_steps(formlineaddition: f64, n: usize) -> u64 {
    let mut on = formlineaddition;
    let mut steps = 0u64;
    while on > 0.0 && steps <= n as u64 {
        on -= 1.0;
        steps += 1;
    }
    steps
}

struct Lcg(u64);

impl Lcg {
    fn next(&mut self) -> u64 {
        self.0 = self.0.wrapping_mul(6364136223846793005).wrapping_add(1442695040888963407);
        self.0 >> 33
    }
    fn bools(&mut self, n: usize, percent_true: u64) -> Vec<bool> {
        (0..n).map(|_| self.next() % 100 < percent_true).collect()
    }
}

#[test]
fn formline_mask_matches_direct_dashing() {
    let mut rng = Lcg(7);
    for case in 0..3000 {
        let n = 7 + (rng.next() % 140) as usize;
        let help_pct = 30 + rng.next() % 60;
        let help = rng.bools(n, help_pct);
        let smooth_pct = 85 + rng.next() % 16;
        let smooth = rng.bools(n, smooth_pct);
        let closed = rng.next() % 2 == 0;
        let fa = [0.0, 0.5, 1.0, 2.0, 3.5, 13.0, 40.0][(rng.next() % 7) as usize];
        let below = rng.next() % 3 == 0;
        let gap = (rng.next() % 30) as u32;
        let remove = rng.next() % 2 == 0;
        let expected = direct_dashing(&help, &smooth, closed, fa, below, gap, remove);
        let got = formline_mask(&help, &smooth, closed, addition_steps(fa, n), below, gap, remove);
        assert_eq!(got, expected, "case {case}");
    }
}

#[test]
fn gentle_open_line_is_drawn_whole() {
    let help = vec![true; 20];
    let smooth = vec![true; 20];
    let (mask, small) = formline_mask(&help, &smooth, false, 0, false, 0, false);
    assert_eq!(mask, vec![true; 20]);
    assert!(!small);
}

#[test]
fn steep_line_gets_no_form_line() {
    let help = vec![false; 20];
    let smooth = vec![true; 20];
    let (mask, small) = formline_mask(&help, &smooth, false, 0, false, 5, false);
    assert_eq!(mask, vec![false; 20]);
    assert!(!small);
}

#[test]
fn small_ring_below_the_isom_minimum_is_dropped() {
    let help = vec![true; 30];
    let smooth = vec![true; 30];
    let (mask, small) = formline_mask(&help, &smooth, true, 0, true, 5, false);
    assert_eq!(mask, vec![false; 30]);
    assert!(!small);
}

#[test]
fn small_ring_above_the_minimum_is_drawn_solid() {
    let mut help = vec![false; 30];
    for h in help.iter_mut().take(14).skip(4) {
        *h = true;
    }
    let smooth = vec![true; 30];
    let (mask, small) = formline_mask(&help, &smooth, true, 0, false, 0, false);
    assert_eq!(mask, vec![true; 30]);
    assert!(small);
}

#[test]
fn short_gaps_are_drawn_together() {
    let mut help = vec![true; 40];
    for h in help.iter_mut().take(24).skip(16) {
        *h = false;
    }
    let smooth = vec![true; 40];
    let (no_gap_closing, _) = formline_mask(&help, &smooth, false, 0, false, 0, false);
    assert!(no_gap_closing.iter().any(|v| !*v));
    let (closed_gaps, _) = formline_mask(&help, &smooth, false, 0, false, 20, false);
    assert_eq!(closed_gaps, vec![true; 40]);
}

#[test]
fn rough_ground_removes_the_form_line_around_it() {
    let help = vec![true; 40];
    let mut smooth = vec![true; 40];
    smooth[20] = false;
    let (mask, _) = formline_mask(&help, &smooth, false, 0, false, 0, true);
    for (i, v) in mask.iter().enumerate() {
        // 16..=24 cleared; the 16-long run before it survives, the run after it reaches the end
        assert_eq!(*v, !(16..=24).contains(&i), "vertex {i}");
    }
}

#[test]
fn form_line_runs_split_at_undrawn_vertices() {
    // vertex 0 never starts a run; runs are maximal
    let m = vec![true, true, true, false, false, true, false, true, true];
    assert_eq!(formline_runs(&m), vec![vec![1, 2], vec![5], vec![7, 8]]);
    assert!(formline_runs(&vec![true]).is_empty());
    assert!(formline_runs(&Vec::new()).is_empty());
    assert_eq!(formline_runs(&vec![false, true, true]), vec![vec![1, 2]]);
}

#[test]
fn curve_widths() {
    assert_eq!(curve_width_tenths(Classification::Contour, false, false), 20);
    assert_eq!(curve_width_tenths(Classification::ContourIndex, false, false), 30);
    assert_eq!(curve_width_tenths(Classification::Contour, true, true), 25);
    assert_eq!(curve_width_tenths(Classification::ContourIntermed, true, true), 15);
    assert_eq!(curve_width_tenths(Classification::DepressionIndexIntermed, true, false), 35);
    assert_eq!(curve_width_tenths(Classification::Depression, true, false), 20);
    assert!(is_drawn(Classification::Depression, false));
    assert!(!is_drawn(Classification::Depression, true));
    assert!(is_drawn(Classification::ContourIntermed, true));
    assert!(skips_slope_line(Classification::SlopeLine, false, true));
    assert!(skips_slope_line(Classification::SlopeLine, true, false));
    assert!(!skips_slope_line(Classification::SlopeLine, true, true));
    assert!(!skips_slope_line(Classification::Depression, false, false));
}

#[test]
fn white_overlay_pixels_become_transparent() {
    let mut px: Vec<u8> = vec![
        255, 255, 255, 255, // white: cleared
        255, 255, 254, 255, // almost white: kept
        0, 0, 0, 255, // black: kept
        255, 255, 255, 7, // white with some alpha: cleared
    ];
    clear_white(&mut px);
    assert_eq!(px, vec![255, 255, 255, 0, 255, 255, 254, 255, 0, 0, 0, 255, 255, 255, 255, 0]);
    let mut empty: Vec<u8> = vec![];
    clear_white(&mut empty);
    assert!(empty.is_empty());
}
