use pullauta::geometry::{join_polylines, Classification, Polylines};
use std::collections::HashMap;

type Pt = (f64, f64);

fn key(p: &Pt) -> (i64, i64) {
    ((p.0 * 1000.0) as i64, (p.1 * 1000.0) as i64)
}

fn pl(lines: &[&[(f64, f64)]]) -> (Polylines<Pt, ()>, Vec<((i64, i64), (i64, i64))>) {
    let mut out = Polylines::new();
    let mut ends = Vec::new();
    for line in lines {
        let v: Vec<Pt> = line.to_vec();
        if v.is_empty() {
            ends.push(((i64::MAX, i64::MAX), (i64::MAX, i64::MAX)));
        } else {
            ends.push((key(&v[0]), key(&v[v.len() - 1])));
        }
        out.push(v, ());
    }
    (out, ends)
}

#[test]
fn join_polylines_head_to_tail() {
    let (lines, ends) = pl(&[&[(0.0, 0.0), (1.0, 0.0)], &[(1.0, 0.0), (2.0, 0.0)]]);
    let joined = join_polylines(&lines, &ends, usize::MAX);
    assert_eq!(joined.len(), 2);
    assert_eq!(joined[0], vec![(0.0, 0.0), (1.0, 0.0), (1.0, 0.0), (2.0, 0.0)]);
    assert!(joined[1].is_empty());
}

#[test]
fn join_polylines_tail_to_tail_reverses_donor() {
    let (lines, ends) = pl(&[&[(0.0, 0.0), (1.0, 0.0)], &[(2.0, 0.0), (1.0, 0.0)]]);
    let joined = join_polylines(&lines, &ends, usize::MAX);
    assert_eq!(joined[0], vec![(0.0, 0.0), (1.0, 0.0), (1.0, 0.0), (2.0, 0.0)]);
    assert!(joined[1].is_empty());
}

#[test]
fn join_polylines_drops_lines_at_max_vertices() {
    let (lines, ends) = pl(&[&[(0.0, 0.0), (1.0, 0.0), (2.0, 0.0)], &[(2.0, 0.0), (3.0, 0.0)]]);
    let joined = join_polylines(&lines, &ends, 3);
    assert!(joined[0].is_empty());
    assert_eq!(joined[1], vec![(2.0, 0.0), (3.0, 0.0)]);
}

#[test]
fn join_polylines_empty_input() {
    let (lines, ends) = pl(&[]);
    assert!(join_polylines(&lines, &ends, usize::MAX).is_empty());
}

/// Slot 0 is "no line" in the lookup tables, so line 0's registration at K is overwritten by
/// line 1, line 2 lands in the second table, and after line 0 absorbs line 1 the key K is
/// retired, leaving line 2 untouched.
#[test]
fn join_polylines_slot_zero_sentinel() {
    let (lines, ends) = pl(&[
        &[(0.0, 0.0), (-1.0, 0.0)],
        &[(0.0, 0.0), (0.0, 1.0)],
        &[(0.0, 0.0), (1.0, 1.0)],
    ]);
    let joined = join_polylines(&lines, &ends, usize::MAX);
    assert_eq!(joined[0], vec![(0.0, 1.0), (0.0, 0.0), (0.0, 0.0), (-1.0, 0.0)]);
    assert!(joined[1].is_empty());
    assert_eq!(joined[2], vec![(0.0, 0.0), (1.0, 1.0)]);
}

#[test]
fn join_polylines_head_to_head_prepends_reversed_donor() {
    // line 1 starts where line 2 starts: line 2 is reversed in front of line 1
    let (lines, ends) = pl(&[
        &[(9.0, 9.0), (8.0, 8.0)],
        &[(0.0, 0.0), (1.0, 0.0)],
        &[(0.0, 0.0), (0.0, 5.0)],
    ]);
    let joined = join_polylines(&lines, &ends, usize::MAX);
    assert_eq!(joined[0], vec![(9.0, 9.0), (8.0, 8.0)]);
    assert_eq!(joined[1], vec![(0.0, 5.0), (0.0, 0.0), (0.0, 0.0), (1.0, 0.0)]);
    assert!(joined[2].is_empty());
}

#[test]
fn join_polylines_chains_three_lines_and_closes_a_ring() {
    let (lines, ends) = pl(&[
        &[(5.0, 5.0), (6.0, 6.0)],
        &[(0.0, 0.0), (1.0, 0.0)],
        &[(1.0, 0.0), (1.0, 1.0)],
        &[(1.0, 1.0), (0.0, 0.0)],
    ]);
    let joined = join_polylines(&lines, &ends, usize::MAX);
    let total: usize = joined.iter().map(|l| l.len()).sum();
    assert_eq!(total, 8);
    assert_eq!(
        joined[1],
        vec![(1.0, 1.0), (0.0, 0.0), (0.0, 0.0), (1.0, 0.0), (1.0, 0.0), (1.0, 1.0)]
    );
    assert_eq!(joined[1].len(), 6);
    assert!(joined[2].is_empty() && joined[3].is_empty());
}

#[test]
fn test_classification_size_is_single_byte() {
    assert_eq!(
        std::mem::size_of::<Classification>(),
        1,
        "Classification should be a single byte"
    );
}

#[test]
fn classification_layers_and_flags() {
    assert_eq!(Classification::ContourSimple.to_layer(), "cont");
    assert_eq!(Classification::DepressionIndexIntermed.to_layer(), "depression_index_intermed");
    assert_eq!(Classification::Knoll1010.to_layer(), "1010");
    assert_eq!(Classification::SlopeLine.to_layer(), "slope_line");
    assert_eq!(Classification::Veg407.to_layer(), "407");
    assert!(Classification::ContourIndexIntermed.is_contour());
    assert!(!Classification::ContourIndexIntermed.is_depression());
    assert!(Classification::ContourIndexIntermed.is_index());
    assert!(Classification::ContourIndexIntermed.is_intermed());
    assert!(Classification::DepressionIntermed.is_depression());
    assert!(!Classification::DepressionIntermed.is_index());
    assert!(!Classification::SlopeLine.is_contour());
    assert!(!Classification::Formline.is_intermed());
}

#[test]
fn polylines_push_pop_len_iter() {
    let mut p: Polylines<u8, Classification> = Polylines::with_capacity(4);
    assert_eq!(p.len(), 0);
    p.pop();
    assert_eq!(p.len(), 0);
    p.push(vec![1, 2], Classification::Contour);
    p.push(vec![3], Classification::Cliff2);
    assert_eq!(p.len(), 2);
    let items = p.iter();
    assert_eq!(items.len(), 2);
    assert_eq!(items[1].0, &vec![3]);
    assert_eq!(*items[1].1, Classification::Cliff2);
    p.pop();
    assert_eq!(p.len(), 1);
    assert_eq!(p.iter()[0].0, &vec![1, 2]);
}

/// A straightforward joining loop over std hash maps, the independent model the
/// verified join is compared with.
fn direct_join(lines: &[Vec<Pt>], max_vertices: usize) -> Vec<Vec<Pt>> {
    type Key = (i64, i64);
    let none: Key = (i64::MAX, i64::MAX);
    let mut heads1: HashMap<Key, usize> = HashMap::new();
    let mut heads2: HashMap<Key, usize> = HashMap::new();
    let mut heads = Vec::new();
    let mut tails = Vec::new();
    let mut out: Vec<Vec<Pt>> = Vec::new();
    for (j, line) in lines.iter().enumerate() {
        if line.len() < max_vertices {
            let head = key(line.first().unwrap());
            let tail = key(line.last().unwrap());
            heads.push(head);
            tails.push(tail);
            out.push(line.clone());
            if *heads1.get(&head).unwrap_or(&0) == 0 {
                heads1.insert(head, j);
            } else {
                heads2.insert(head, j);
            }
            if *heads1.get(&tail).unwrap_or(&0) == 0 {
                heads1.insert(tail, j);
            } else {
                heads2.insert(tail, j);
            }
        } else {
            heads.push(none);
            tails.push(none);
            out.push(vec![]);
        }
    }
    for l in 0..lines.len() {
        if out[l].is_empty() {
            continue;
        }
        loop {
            let cands = [
                *heads1.get(&heads[l]).unwrap_or(&0),
                *heads2.get(&heads[l]).unwrap_or(&0),
                *heads2.get(&tails[l]).unwrap_or(&0),
                *heads1.get(&tails[l]).unwrap_or(&0),
            ];
            let Some(&t) = cands.iter().find(|&&t| t != 0 && t != l && !out[t].is_empty()) else {
                break;
            };
            let mut donor = out[t].clone();
            if tails[l] == heads[t] {
                heads2.insert(tails[l], 0);
                heads1.insert(tails[l], 0);
                out[l].append(&mut donor);
                tails[l] = tails[t];
            } else if tails[l] == tails[t] {
                heads2.insert(tails[l], 0);
                heads1.insert(tails[l], 0);
                donor.reverse();
                out[l].append(&mut donor);
                tails[l] = heads[t];
            } else if heads[l] == tails[t] {
                heads2.insert(heads[l], 0);
                heads1.insert(heads[l], 0);
                out[l].splice(0..0, donor);
                heads[l] = heads[t];
            } else {
                heads2.insert(heads[l], 0);
                heads1.insert(heads[l], 0);
                donor.reverse();
                out[l].splice(0..0, donor);
                heads[l] = tails[t];
            }
            out[t].clear();
        }
    }
    out
}

#[test]
fn join_polylines_matches_direct_join() {
    let mut state: u64 = 11;
    let mut next = move || {
        state = state.wrapping_mul(6364136223846793005).wrapping_add(1442695040888963407);
        state >> 33
    };
    for case in 0..2000 {
        let count = (next() % 12) as usize;
        let mut raw: Vec<Vec<Pt>> = Vec::new();
        for _ in 0..count {
            let len = 1 + (next() % 4) as usize;
            let line: Vec<Pt> = (0..len)
                .map(|_| ((next() % 4) as f64 * 0.5, (next() % 3) as f64 * 0.25))
                .collect();
            raw.push(line);
        }
        let max_vertices = [usize::MAX, 3, 4][(next() % 3) as usize];
        let slices: Vec<&[Pt]> = raw.iter().map(|l| l.as_slice()).collect();
        let (lines, ends) = pl(&slices);
        let got = join_polylines(&lines, &ends, max_vertices);
        assert_eq!(got, direct_join(&raw, max_vertices), "case {case}");
    }
}

#[test]
fn every_classification_names_its_own_layer() {
    type C = Classification;
    let all = [
        C::ContourSimple, C::Contour, C::ContourIndex, C::ContourIntermed,
        C::ContourIndexIntermed, C::Depression, C::DepressionIndex, C::DepressionIntermed,
        C::DepressionIndexIntermed, C::Formline, C::FormlineDepression, C::Dotknoll,
        C::Udepression, C::UglyDotknoll, C::UglyUdepression, C::Knoll1010, C::Cliff2,
        C::Cliff3, C::Cliff4, C::SlopeLine, C::SmallDepression, C::Veg403, C::Veg406,
        C::Veg407, C::Veg408, C::Veg410,
    ];
    let mut layers: Vec<&str> = all.iter().map(|c| c.to_layer()).collect();
    layers.sort();
    layers.dedup();
    assert_eq!(layers.len(), all.len());
}
