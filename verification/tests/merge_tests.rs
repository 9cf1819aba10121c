use pullauta::geometry::{Classification, Geometry, Points, Polylines};
use pullauta::merge::{bindxfmerge, contour_class};

type P2 = (i32, i32);
type P3 = (i32, i32, i32);
type G = Geometry<P2, P3, i32>;

fn lines2(ls: &[(&[P2], Classification)]) -> Polylines<P2, Classification> {
    let mut p = Polylines::new();
    for (l, c) in ls {
        p.push(l.to_vec(), *c);
    }
    p
}

fn lines3(ls: &[(&[P3], Classification, i32)]) -> Polylines<P3, (Classification, i32)> {
    let mut p = Polylines::new();
    for (l, c, h) in ls {
        p.push(l.to_vec(), (*c, *h));
    }
    p
}

/// The polylines of a geometry block with their classes, for comparison.
fn classes(g: &G) -> Vec<Classification> {
    match g {
        Geometry::Points(p) => p.iter().into_iter().map(|(_, c)| *c).collect(),
        Geometry::Polylines2(l) => l.iter().into_iter().map(|(_, c)| *c).collect(),
        Geometry::Polylines3(l) => l.iter().into_iter().map(|(_, c)| c.0).collect(),
    }
}

#[test]
fn points_push_len_iter() {
    let mut p: Points<P2> = Points::with_capacity(2);
    assert_eq!(p.len(), 0);
    p.push((1, 2), Classification::Dotknoll);
    p.push((3, 4), Classification::UglyUdepression);
    assert_eq!(p.len(), 2);
    let it = p.iter();
    assert_eq!(*it[1].0, (3, 4));
    assert_eq!(*it[1].1, Classification::UglyUdepression);
}

#[test]
fn intermediate_contours_are_filtered_from_every_kind_of_block() {
    let mut pts: Points<P2> = Points::new();
    pts.push((0, 0), Classification::ContourIntermed);
    pts.push((1, 1), Classification::Dotknoll);
    let g = G::Points(pts);
    assert_eq!(classes(&g.without_intermed()), vec![Classification::Dotknoll]);

    let l2 = lines2(&[
        (&[(0, 0), (1, 0)], Classification::Contour),
        (&[(0, 1), (1, 1)], Classification::DepressionIndexIntermed),
        (&[(0, 2), (1, 2)], Classification::ContourIndex),
    ]);
    let g = G::Polylines2(l2);
    let f = g.without_intermed();
    assert_eq!(classes(&f), vec![Classification::Contour, Classification::ContourIndex]);
    if let Geometry::Polylines2(l) = &f {
        assert_eq!(*l.iter()[1].0, vec![(0, 2), (1, 2)]);
    }

    let l3 = lines3(&[
        (&[(0, 0, 5)], Classification::ContourIntermed, 5),
        (&[(0, 1, 7)], Classification::Depression, 7),
    ]);
    let f = G::Polylines3(l3).without_intermed();
    assert_eq!(classes(&f), vec![Classification::Depression]);
}

#[test]
fn bindxfmerge_concatenates_each_suffix_and_filters_contours_in_all() {
    let contours_a = G::Polylines3(lines3(&[
        (&[(0, 0, 1), (1, 0, 1)], Classification::Contour, 1),
        (&[(0, 1, 2)], Classification::ContourIntermed, 2),
    ]));
    let contours_b = G::Polylines3(lines3(&[(&[(5, 5, 3)], Classification::ContourIndexIntermed, 3)]));
    let cliffs = G::Polylines2(lines2(&[(&[(9, 9), (9, 8)], Classification::Cliff2)]));
    let mut knolls: Points<P2> = Points::new();
    knolls.push((4, 4), Classification::Dotknoll);
    let knolls = G::Points(knolls);
    // groups in suffix order: contours, c2g, basemap, c3g, formlines, dotknolls, detected
    let groups: Vec<Vec<(u8, Vec<G>)>> = vec![
        vec![(10, vec![contours_a]), (11, vec![contours_b])],
        vec![(12, vec![cliffs])],
        vec![],
        vec![],
        vec![],
        vec![(13, vec![knolls])],
        vec![],
    ];
    let (bounds, per_suffix, all) = bindxfmerge(&groups);
    assert_eq!(bounds, Some(10), "the first file loaded gives the bounds");
    assert_eq!(per_suffix.len(), 7);
    assert_eq!(per_suffix[0].len(), 2);
    assert_eq!(classes(&per_suffix[0][0]), vec![Classification::Contour, Classification::ContourIntermed]);
    assert_eq!(classes(&per_suffix[0][1]), vec![Classification::ContourIndexIntermed]);
    assert!(per_suffix[2].is_empty());
    assert_eq!(all.len(), 4);
    assert_eq!(classes(&all[0]), vec![Classification::Contour]);
    assert!(classes(&all[1]).is_empty());
    assert_eq!(classes(&all[2]), vec![Classification::Cliff2]);
    assert_eq!(classes(&all[3]), vec![Classification::Dotknoll]);
}

#[test]
fn bindxfmerge_without_files() {
    let groups: Vec<Vec<(u8, Vec<G>)>> = (0..7).map(|_| Vec::new()).collect();
    let (bounds, per_suffix, all) = bindxfmerge(&groups);
    assert_eq!(bounds, None);
    assert!(per_suffix.iter().all(|g| g.is_empty()));
    assert!(all.is_empty());
}

#[test]
fn bounds_come_from_the_first_non_empty_suffix() {
    let groups: Vec<Vec<(u8, Vec<G>)>> =
        vec![vec![], vec![], vec![(7, vec![]), (8, vec![])], vec![(9, vec![])], vec![], vec![], vec![]];
    assert_eq!(bindxfmerge(&groups).0, Some(7));
}

#[test]
fn contour_classes_keep_their_flags() {
    for d in [false, true] {
        for i in [false, true] {
            for m in [false, true] {
                let c = contour_class(d, i, m);
                assert_eq!(c.is_depression(), d);
                assert_eq!(c.is_contour(), !d);
                assert_eq!(c.is_index(), i);
                assert_eq!(c.is_intermed(), m);
            }
        }
    }
}

#[test]
fn pop_after_push_gives_the_collection_back() {
    let mut p = lines2(&[(&[(0, 0)], Classification::Contour)]);
    p.push(vec![(1, 1), (2, 2)], Classification::Formline);
    p.pop();
    assert_eq!(p.len(), 1);
    assert_eq!(*p.iter()[0].0, vec![(0, 0)]);
    assert_eq!(*p.iter()[0].1, Classification::Contour);
}
