use pullauta::vege_grid::{
    can_label, component_edges, dissolve_small_components, grid_topology, junction_vertices, ring_chains,
    ComponentOutline, RingChains,
};
use pullauta::vege_vector::chain_rings;

/// A row-major grid of `w` x `h` cells from a cell function.
fn grid(w: u32, h: u32, f: impl Fn(u32, u32) -> u8) -> Vec<u8> {
    let mut g = Vec::new();
    for y in 0..h {
        for x in 0..w {
            g.push(f(x, y));
        }
    }
    g
}

/// A minimum cell count for every class.
fn min_cells(f: impl Fn(u8) -> usize) -> Vec<usize> {
    (0..=255u8).map(f).collect()
}

fn vertex(h: u32, x: u64, y: u64) -> u64 {
    x * (h as u64 + 1) + y
}

#[test]
fn one_cell_has_four_counter_clockwise_edges() {
    let e = component_edges(&vec![1], 1, 1, 2);
    assert!(e[0].is_empty());
    assert_eq!(e[1], vec![(0, 2, 0), (2, 3, 0), (3, 1, 0), (1, 0, 0)]);
}

#[test]
fn edges_between_two_components_carry_the_other_label() {
    // two cells side by side: label 1 on the left, 2 on the right
    let e = component_edges(&vec![1, 2], 2, 1, 3);
    // left cell: top, right (towards label 2), bottom, left
    assert_eq!(e[1], vec![(0, 2, 0), (2, 3, 2), (3, 1, 0), (1, 0, 0)]);
    // right cell: its left side borders label 1
    assert_eq!(e[2], vec![(2, 4, 0), (4, 5, 0), (5, 3, 0), (3, 2, 1)]);
}

#[test]
fn chain_rings_walks_one_cell() {
    let rings = chain_rings(&vec![(0, 2, 0), (2, 3, 0), (3, 1, 0), (1, 0, 0)]);
    assert_eq!(rings, vec![(vec![0, 2, 3, 1], vec![0, 0, 0, 0])]);
}

#[test]
fn chain_rings_starts_at_the_smallest_vertex_and_drops_broken_walks() {
    // the same square listed from another vertex, plus a dangling edge 7 -> 8
    let rings = chain_rings(&vec![(3, 1, 5), (1, 0, 6), (7, 8, 9), (0, 2, 7), (2, 3, 8)]);
    assert_eq!(rings, vec![(vec![0, 2, 3, 1], vec![7, 8, 5, 6])]);
}

#[test]
fn chain_rings_takes_the_last_edge_at_a_pinch() {
    // two squares meeting at vertex 4 (a figure eight): the walk from 0 takes the last
    // listed edge out of 4, so it goes round the second square before returning
    let e = vec![(0, 4, 1), (4, 1, 1), (1, 0, 1), (4, 5, 2), (5, 6, 2), (6, 4, 2)];
    let rings = chain_rings(&e);
    assert_eq!(rings, vec![(vec![0, 4, 5, 6, 4, 1], vec![1, 2, 2, 2, 1, 1])]);
}

#[test]
fn junctions_where_three_labels_meet_or_two_pinch() {
    let three = junction_vertices(&vec![1, 0, 0, 2], 2, 2);
    assert_eq!(three.len(), 9);
    assert!(three[vertex(2, 1, 1) as usize]);
    assert!(!three[vertex(2, 0, 0) as usize]);
    let pinch = junction_vertices(&vec![1, 0, 0, 1], 2, 2);
    assert!(pinch[vertex(2, 1, 1) as usize]);
    let plain = junction_vertices(&vec![1, 1, 2, 2], 2, 2);
    assert!(!plain[vertex(2, 1, 1) as usize]);
    // on the grid's edge the outside counts as a third label
    assert!(plain[vertex(2, 0, 1) as usize]);
    assert!(!plain[vertex(2, 1, 0) as usize]);
}

#[test]
fn a_ring_without_junctions_is_an_island() {
    let junction = vec![false; 4];
    match ring_chains(&vec![0, 2, 3, 1], &vec![5, 5, 5, 5], 7, &junction) {
        RingChains::Island(key) => assert_eq!(key, (5, 7, 0, 0, 0)),
        RingChains::Chains(_) => panic!("expected an island"),
    }
}

#[test]
fn a_ring_is_cut_at_its_junctions() {
    let mut junction = vec![false; 4];
    junction[2] = true;
    junction[1] = true;
    match ring_chains(&vec![0, 2, 3, 1], &vec![4, 9, 9, 4], 3, &junction) {
        RingChains::Chains(chains) => {
            assert_eq!(chains.len(), 2);
            assert_eq!(chains[0], (vec![2, 3, 1], (3, 9, 1, 2, 3)));
            assert_eq!(chains[1], (vec![1, 0, 2], (3, 4, 1, 2, 0)));
        }
        RingChains::Island(_) => panic!("expected chains"),
    }
    // a single junction: the chain goes round once, back to it
    let mut one = vec![false; 4];
    one[3] = true;
    match ring_chains(&vec![0, 2, 3, 1], &vec![4, 4, 4, 4], 3, &one) {
        RingChains::Chains(chains) => {
            assert_eq!(chains, vec![(vec![3, 1, 0, 2, 3], (3, 4, 3, 3, 0))]);
        }
        RingChains::Island(_) => panic!("expected chains"),
    }
}

fn rings_of(o: &ComponentOutline) -> usize {
    o.rings.len()
}

/// 8x8 grid: one class-1 region with a hole, plus a cell touching it diagonally.
#[test]
fn trace_block_with_hole_and_diagonal_cell() {
    let g = grid(8, 8, |x, y| {
        if (1..6).contains(&x) && (1..6).contains(&y) && !(x == 3 && y == 3) {
            1
        } else if x == 6 && y == 6 {
            1
        } else {
            0
        }
    });
    let outlines = grid_topology(g, 8, 8, &min_cells(|_| 0), [0, 0]).unwrap();
    assert_eq!(outlines.len(), 2, "block and diagonal cell are separate components");
    let block = &outlines[0];
    assert_eq!(block.class, 1);
    assert_eq!(rings_of(block), 2, "exterior and hole");
    assert_eq!(block.rings[0].0[0], vertex(8, 1, 1), "exterior starts at its smallest vertex");
    assert_eq!(block.rings[0].0.len(), 20);
    assert_eq!(block.rings[1].0, vec![vertex(8, 3, 3), vertex(8, 3, 4), vertex(8, 4, 4), vertex(8, 4, 3)]);
    let cell = &outlines[1];
    assert_eq!(rings_of(cell), 1);
    assert_eq!(cell.rings[0].0.len(), 4);
    // the pinch vertex is a junction, so the cell's ring is cut there
    assert!(matches!(cell.rings[0].1, RingChains::Chains(_)));
}

#[test]
fn a_small_island_dissolves_into_its_surroundings() {
    let g = grid(10, 10, |x, y| {
        if y < 5 {
            if x == 4 && y == 2 {
                2
            } else {
                1
            }
        } else {
            0
        }
    });
    // 3 m cells: class 1 (ISOM 410) needs 8 cells, class 2 (ISOM 406) needs 25
    let mc = min_cells(|c| match c {
        1 => 8,
        2 => 25,
        _ => 0,
    });
    let outlines = grid_topology(g, 10, 10, &mc, [0, 0]).unwrap();
    assert_eq!(outlines.len(), 1);
    assert_eq!(outlines[0].class, 1);
    assert_eq!(rings_of(&outlines[0]), 1, "island dissolved, no hole");
}

#[test]
fn dissolving_reaches_a_fixpoint() {
    let g = grid(20, 20, |x, y| {
        if y < 12 {
            1
        } else {
            ((x * 7 + y * 13) % 4) as u8
        }
    });
    // 3 m cells: 406 -> 25 cells, 408 -> 13 cells, 410 -> 8 cells
    let mc = min_cells(|c| match c {
        1 => 25,
        2 => 13,
        3 => 8,
        _ => 0,
    });
    let (img, labels) = dissolve_small_components(g, 20, 20, &mc);
    let max = *labels.iter().max().unwrap() as usize;
    let mut count = vec![0usize; max + 1];
    let mut class = vec![0u8; max + 1];
    for (i, &l) in labels.iter().enumerate() {
        count[l as usize] += 1;
        class[l as usize] = img[i];
    }
    for l in 1..=max {
        if count[l] > 0 {
            assert!(count[l] >= mc[class[l] as usize], "component {l} below its minimum");
        }
    }
}

#[test]
fn neighbouring_components_share_their_seam_chain() {
    let g = grid(12, 12, |x, y| if x < 6 + (y % 2) { 1 } else { 2 });
    let outlines = grid_topology(g, 12, 12, &min_cells(|_| 0), [0, 0]).unwrap();
    assert_eq!(outlines.len(), 2);
    let chains = |o: &ComponentOutline| -> Vec<(Vec<u64>, (u32, u32, u64, u64, u64))> {
        let mut all = Vec::new();
        for (_, rc) in &o.rings {
            if let RingChains::Chains(cs) = rc {
                all.extend(cs.iter().cloned());
            }
        }
        all
    };
    let (a, b) = (chains(&outlines[0]), chains(&outlines[1]));
    let shared: Vec<_> = a
        .iter()
        .filter(|(_, k)| b.iter().any(|(_, k2)| k2 == k))
        .collect();
    assert!(!shared.is_empty(), "the seam is a chain of both components");
    for (vs, k) in shared {
        let other = &b.iter().find(|(_, k2)| k2 == k).unwrap().0;
        let mut rev = other.clone();
        rev.reverse();
        assert_eq!(vs, &rev, "the other side walks the seam the other way");
    }
}

#[test]
fn a_chain_reversed_from_the_other_side_keeps_its_key() {
    let mut junction = vec![false; 10];
    junction[1] = true;
    junction[3] = true;
    // component 3 walks 1 -> 2 -> 3 with component 9 across; component 9 walks 3 -> 2 -> 1
    let key_here = match ring_chains(&vec![1, 2, 3, 4], &vec![9, 9, 5, 5], 3, &junction) {
        RingChains::Chains(chains) => chains[0].clone(),
        RingChains::Island(_) => panic!("expected chains"),
    };
    let key_there = match ring_chains(&vec![3, 2, 1, 6], &vec![3, 3, 7, 7], 9, &junction) {
        RingChains::Chains(chains) => chains[0].clone(),
        RingChains::Island(_) => panic!("expected chains"),
    };
    assert_eq!(key_here.0, vec![1, 2, 3]);
    assert_eq!(key_there.0, vec![3, 2, 1]);
    assert_eq!(key_here.1, key_there.1);
}

#[test]
fn a_chain_of_one_edge_is_keyed_by_its_first_vertex() {
    let mut junction = vec![false; 10];
    junction[1] = true;
    junction[2] = true;
    let here = match ring_chains(&vec![1, 2, 3, 4], &vec![9, 5, 5, 5], 3, &junction) {
        RingChains::Chains(chains) => chains[0].clone(),
        RingChains::Island(_) => panic!("expected chains"),
    };
    let there = match ring_chains(&vec![2, 1, 6, 7], &vec![3, 7, 7, 7], 9, &junction) {
        RingChains::Chains(chains) => chains[0].clone(),
        RingChains::Island(_) => panic!("expected chains"),
    };
    assert_eq!(here, (vec![1, 2], (3, 9, 1, 2, 1)));
    assert_eq!(there, (vec![2, 1], (3, 9, 1, 2, 2)));
}

#[test]
fn grids_where_every_cell_starts_a_label_are_refused() {
    // every cell foreground and no two side neighbours alike
    assert!(!can_label(&vec![1], 1, 1));
    assert!(!can_label(&vec![1, 2], 2, 1));
    let checker = grid(4, 3, |x, y| if (x + y) % 2 == 0 { 1 } else { 2 });
    assert!(!can_label(&checker, 4, 3));
    assert!(grid_topology(vec![1], 1, 1, &min_cells(|_| 0), [0, 0]).is_none());
    assert!(grid_topology(checker, 4, 3, &min_cells(|_| 0), [0, 0]).is_none());
    // a background cell, or two alike side neighbours, is enough
    assert!(can_label(&vec![1, 0], 2, 1));
    assert!(can_label(&vec![1, 1], 2, 1));
    assert!(can_label(&vec![1, 2, 1, 1], 2, 2));
    assert!(can_label(&vec![], 0, 0));
    assert!(grid_topology(vec![1, 1], 2, 1, &min_cells(|_| 0), [0, 0]).is_some());
}
