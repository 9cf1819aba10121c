//! The integer rules of vegetation vectorization: ISOM minimum areas, the DXF class and
//! draw order of each vegetation code, and the green-shade to ISOM code table lookup.
use vstd::prelude::*;
use crate::geometry::{Classification, layer_name};
use vstd::std_specs::iter::IteratorSpec;
use std::collections::HashMap;

verus! {

/// ISOM 2017-2 minimum footprint area of a vegetation area symbol, in quarter square
/// metres (so that 1406.25 m², 337.5 m² and 110.25 m² stay whole numbers).
pub open spec fn min_area_quarter_m2_of(isom: u16) -> u32 {
    if isom == 401 {
        256  // open land: 8 x 8 m
    } else if isom == 402 {
        3600  // open land, scattered trees: 30 x 30 m
    } else if isom == 403 {
        900  // rough open land: 15 x 15 m
    } else if isom == 404 {
        5625  // rough open land, scattered trees: 37.5 x 37.5 m
    } else if isom == 405 {
        900  // forest, openings in other screens: 15 x 15 m
    } else if isom == 406 {
        900  // vegetation, slow running: 15 x 15 m
    } else if isom == 407 {
        1350  // slow running, good visibility: 22.5 x 15 m
    } else if isom == 408 {
        441  // vegetation, walk: 10.5 x 10.5 m
    } else if isom == 409 {
        900  // walk, good visibility: 15 x 15 m
    } else if isom == 410 {
        256  // vegetation, fight: 8 x 8 m
    } else if isom == 412 {
        8100  // cultivated land: 45 x 45 m
    } else if isom == 413 {
        3600  // orchard: 30 x 30 m
    } else {
        256  // outside the table: the smallest minimum, which keeps polygons

    }
}

/// ISOM 2017-2 minimum footprint area (in quarter m²) for open-land and vegetation area
/// symbols, from the spec's "Minimum area" parameters (footprints at 1:15,000).
pub fn min_area_quarter_m2(isom: u16) -> (r: u32)
    ensures
        r == min_area_quarter_m2_of(isom),
{
    match isom {
        401 => 256,
        402 => 3600,
        403 => 900,
        404 => 5625,
        405 => 900,
        406 => 900,
        407 => 1350,
        408 => 441,
        409 => 900,
        410 => 256,
        412 => 8100,
        413 => 3600,
        _ => 256,
    }
}

/// The DXF classification of a vegetation area with the given ISOM code.
pub open spec fn class_of_isom(isom: u16) -> Classification {
    if isom == 403 {
        Classification::Veg403
    } else if isom == 406 {
        Classification::Veg406
    } else if isom == 407 {
        Classification::Veg407
    } else if isom == 408 {
        Classification::Veg408
    } else {
        Classification::Veg410
    }
}

/// The decimal digit `d` (0 to 9).
pub open spec fn digit_char(d: int) -> char {
    if d == 0 {
        '0'
    } else if d == 1 {
        '1'
    } else if d == 2 {
        '2'
    } else if d == 3 {
        '3'
    } else if d == 4 {
        '4'
    } else if d == 5 {
        '5'
    } else if d == 6 {
        '6'
    } else if d == 7 {
        '7'
    } else if d == 8 {
        '8'
    } else {
        '9'
    }
}

/// A three-digit code written in decimal.
pub open spec fn three_digits(c: u16) -> Seq<char> {
    seq![digit_char((c / 100) as int % 10), digit_char((c / 10) as int % 10), digit_char(c as int % 10)]
}

/// A vegetation area of ISOM code 403, 406, 407, 408 or 410 goes to the layer named by that
/// code; any other code is drawn as 410.
pub proof fn lemma_vegetation_layer_is_its_code(c: u16)
    ensures
        c == 403 || c == 406 || c == 407 || c == 408 || c == 410 ==> layer_name(class_of_isom(c))
            == three_digits(c),
        !(c == 403 || c == 406 || c == 407 || c == 408) ==> class_of_isom(c) == class_of_isom(410),
{
    reveal_strlit("403");
    reveal_strlit("406");
    reveal_strlit("407");
    reveal_strlit("408");
    reveal_strlit("410");
    if c == 403 {
        assert(layer_name(class_of_isom(c)) =~= three_digits(c));
    } else if c == 406 {
        assert(layer_name(class_of_isom(c)) =~= three_digits(c));
    } else if c == 407 {
        assert(layer_name(class_of_isom(c)) =~= three_digits(c));
    } else if c == 408 {
        assert(layer_name(class_of_isom(c)) =~= three_digits(c));
    } else if c == 410 {
        assert(layer_name(class_of_isom(c)) =~= three_digits(c));
    }
}

pub fn isom_to_class(isom: u16) -> (r: Classification)
    ensures
        r == class_of_isom(isom),
{
    match isom {
        403 => Classification::Veg403,
        406 => Classification::Veg406,
        407 => Classification::Veg407,
        408 => Classification::Veg408,
        _ => Classification::Veg410,
    }
}

/// The ISOM code of green shade `shade` (1-based) in the configured table: the entry for
/// that shade, else the last entry, else 410.
pub open spec fn shade_isom(map: Seq<u16>, shade: u8) -> u16 {
    let i: int = if shade == 0 {
        0
    } else {
        shade - 1
    };
    if i < map.len() {
        map[i]
    } else if map.len() > 0 {
        map.last()
    } else {
        410
    }
}

/// The ISOM code of a green shade, looked up in the configured table.
pub fn greenshade_isom(map: &Vec<u16>, shade: u8) -> (r: u16)
    ensures
        r == shade_isom(map@, shade),
{
    let i: usize = if shade == 0 {
        0
    } else {
        (shade - 1) as usize
    };
    if i < map.len() {
        map[i]
    } else if map.len() > 0 {
        map[map.len() - 1]
    } else {
        410
    }
}

/// Light-to-dark DXF layer order of a vegetation code: 403, 406, 408, 410, 407, then the rest.
pub open spec fn draw_order_of(isom: u16) -> usize {
    if isom == 403 {
        0
    } else if isom == 406 {
        1
    } else if isom == 408 {
        2
    } else if isom == 410 {
        3
    } else if isom == 407 {
        4
    } else {
        5
    }
}

pub fn veg_draw_order(isom: u16) -> (r: usize)
    ensures
        r == draw_order_of(isom),
{
    let order: [u16; 5] = [403, 406, 408, 410, 407];
    let mut i: usize = 0;
    while i < 5
        invariant
            i <= 5,
            order@ == seq![403u16, 406u16, 408u16, 410u16, 407u16],
            forall|k: int| 0 <= k < i ==> order@[k] != isom,
        decreases 5 - i,
    {
        if order[i] == isom {
            return i;
        }
        i = i + 1;
    }
    5
}

/// Polygon `a` comes before polygon `b` in the DXF: a lighter layer, or the same layer and
/// an earlier polygon.
pub open spec fn drawn_before(codes: Seq<u16>, a: usize, b: usize) -> bool {
    draw_order_of(codes[a as int]) < draw_order_of(codes[b as int]) || (draw_order_of(
        codes[a as int],
    ) == draw_order_of(codes[b as int]) && a < b)
}

/// The order in which the vegetation polygons with the given codes are written: every
/// polygon once, light layers first (see [`draw_order_of`]), polygons of one layer in their
/// given order.
pub fn draw_sequence(codes: &Vec<u16>) -> (r: Vec<usize>)
    ensures
        forall|i: int| 0 <= i < r@.len() ==> #[trigger] r@[i] < codes@.len(),
        forall|j: usize| j < codes@.len() ==> #[trigger] r@.contains(j),
        forall|a: int, b: int| 0 <= a < b < r@.len() ==> drawn_before(codes@, #[trigger] r@[a], #[trigger] r@[b]),
{
    let n = codes.len();
    let mut r: Vec<usize> = Vec::new();
    let mut k: usize = 0;
    while k < 6
        invariant
            n == codes@.len(),
            k <= 6,
            forall|i: int| 0 <= i < r@.len() ==> #[trigger] r@[i] < n,
            forall|i: int| 0 <= i < r@.len() ==> draw_order_of(codes@[#[trigger] r@[i] as int]) < k,
            forall|j: usize| j < n && draw_order_of(codes@[j as int]) < k ==> #[trigger] r@.contains(j),
            forall|a: int, b: int| 0 <= a < b < r@.len() ==> drawn_before(codes@, #[trigger] r@[a], #[trigger] r@[b]),
        decreases 6 - k,
    {
        let mut i: usize = 0;
        let ghost start = r@.len();
        while i < n
            invariant
                n == codes@.len(),
                k < 6,
                i <= n,
                start <= r@.len(),
                forall|q: int| 0 <= q < r@.len() ==> #[trigger] r@[q] < n,
                forall|q: int| 0 <= q < start ==> draw_order_of(codes@[#[trigger] r@[q] as int]) < k,
                forall|q: int| start <= q < r@.len() ==> draw_order_of(codes@[#[trigger] r@[q] as int]) == k && r@[q] < i,
                forall|j: usize| j < n && draw_order_of(codes@[j as int]) < k ==> #[trigger] r@.contains(j),
                forall|j: usize| j < i && draw_order_of(codes@[j as int]) == k ==> #[trigger] r@.contains(j),
                forall|a: int, b: int| 0 <= a < b < r@.len() ==> drawn_before(codes@, #[trigger] r@[a], #[trigger] r@[b]),
            decreases n - i,
        {
            if veg_draw_order(codes[i]) == k {
                let ghost before = r@;
                r.push(i);
                proof {
                    assert forall|j: usize| j < n && draw_order_of(codes@[j as int]) < k implies #[trigger] r@.contains(j) by {
                        assert(before.contains(j));
                        let w = choose|w: int| 0 <= w < before.len() && before[w] == j;
                        assert(r@[w] == j);
                    }
                    assert forall|j: usize| j < i + 1 && draw_order_of(codes@[j as int]) == k implies #[trigger] r@.contains(j) by {
                        if j < i {
                            assert(before.contains(j));
                            let w = choose|w: int| 0 <= w < before.len() && before[w] == j;
                            assert(r@[w] == j);
                        } else {
                            assert(r@[before.len() as int] == j);
                        }
                    }
                    assert forall|a: int, b: int| 0 <= a < b < r@.len() implies drawn_before(codes@, #[trigger] r@[a], #[trigger] r@[b]) by {
                        if b == before.len() {
                            assert(r@[a] == before[a]);
                            if a < start {
                                assert(draw_order_of(codes@[before[a] as int]) < k);
                            } else {
                                assert(before[a] < i);
                            }
                        } else {
                            assert(r@[a] == before[a] && r@[b] == before[b]);
                        }
                    }
                }
            }
            i = i + 1;
        }
        k = k + 1;
    }
    proof {
        assert forall|j: usize| j < codes@.len() implies #[trigger] r@.contains(j) by {
            assert(draw_order_of(codes@[j as int]) < 6);
        }
    }
    r
}

} // verus!


verus! {

// ---------------------------------------------------------------------------------------
// Chaining the boundary edges of a component into closed rings
// ---------------------------------------------------------------------------------------

/// A directed edge of a cell boundary: start vertex, end vertex, and the label of the
/// component on the other side. Vertices are numbered so that their order is the order of
/// their lattice coordinates.
pub type BoundaryEdge = (u64, u64, u32);

/// How many edges are not walked yet.
pub open spec fn unwalked(used: Seq<bool>) -> nat
    decreases used.len(),
{
    if used.len() == 0 {
        0
    } else {
        unwalked(used.drop_last()) + if used.last() {
            0nat
        } else {
            1nat
        }
    }
}

/// Marking an edge walked leaves one fewer to walk.
pub proof fn lemma_mark_walked(used: Seq<bool>, i: int)
    requires
        0 <= i < used.len(),
        !used[i],
    ensures
        unwalked(used.update(i, true)) + 1 == unwalked(used),
    decreases used.len(),
{
    let u = used.update(i, true);
    if i < used.len() - 1 {
        assert(u.drop_last() =~= used.drop_last().update(i, true));
        lemma_mark_walked(used.drop_last(), i);
    } else {
        assert(u.drop_last() =~= used.drop_last());
    }
}

/// Edge `i` leaves `v` and is not walked yet.
pub open spec fn open_from(es: Seq<BoundaryEdge>, used: Seq<bool>, v: u64, i: int) -> bool {
    0 <= i < es.len() && i < used.len() && !used[i] && es[i].0 == v
}

/// The last edge among the first `k` that leaves `v` and is not walked yet.
pub open spec fn last_open_below(es: Seq<BoundaryEdge>, used: Seq<bool>, v: u64, k: int) -> Option<
    int,
>
    decreases k,
{
    if k <= 0 {
        None
    } else if open_from(es, used, v, k - 1) {
        Some(k - 1)
    } else {
        last_open_below(es, used, v, k - 1)
    }
}

/// The last edge, in the order given, that leaves `v` and is not walked yet: the one a walk
/// takes next from `v`.
pub open spec fn last_open_from(es: Seq<BoundaryEdge>, used: Seq<bool>, v: u64) -> Option<int> {
    last_open_below(es, used, v, es.len() as int)
}

proof fn lemma_last_open_below(es: Seq<BoundaryEdge>, used: Seq<bool>, v: u64, k: int)
    requires
        k <= es.len(),
    ensures
        last_open_below(es, used, v, k) matches Some(i) ==> 0 <= i < k && open_from(es, used, v, i)
            && forall|j: int| i < j < k ==> !open_from(es, used, v, j),
        last_open_below(es, used, v, k) is None ==> forall|j: int|
            0 <= j < k ==> !open_from(es, used, v, j),
    decreases k,
{
    if k > 0 {
        lemma_last_open_below(es, used, v, k - 1);
    }
}

/// The smallest start vertex among the first `k` edges not walked yet.
pub open spec fn min_open_start_below(es: Seq<BoundaryEdge>, used: Seq<bool>, k: int) -> Option<u64>
    decreases k,
{
    if k <= 0 {
        None
    } else {
        let m = min_open_start_below(es, used, k - 1);
        if k - 1 < es.len() && k - 1 < used.len() && !used[k - 1] {
            match m {
                Some(x) => Some(
                    if es[k - 1].0 < x {
                        es[k - 1].0
                    } else {
                        x
                    },
                ),
                None => Some(es[k - 1].0),
            }
        } else {
            m
        }
    }
}

/// The smallest start vertex of an edge not walked yet: where the next ring starts.
pub open spec fn min_open_start(es: Seq<BoundaryEdge>, used: Seq<bool>) -> Option<u64> {
    min_open_start_below(es, used, es.len() as int)
}

proof fn lemma_min_open_start_below(es: Seq<BoundaryEdge>, used: Seq<bool>, k: int)
    requires
        k <= es.len(),
    ensures
        min_open_start_below(es, used, k) is Some ==> exists|i: int|
            0 <= i < k && #[trigger] open_from(es, used, min_open_start_below(es, used, k)->0, i),
        min_open_start_below(es, used, k) is Some ==> forall|i: int|
            0 <= i < k && i < used.len() && !used[i] ==> min_open_start_below(es, used, k)->0
                <= es[i].0,
        min_open_start_below(es, used, k) is None ==> forall|i: int|
            0 <= i < k && i < used.len() ==> used[i],
    decreases k,
{
    if k > 0 {
        lemma_min_open_start_below(es, used, k - 1);
        let m = min_open_start_below(es, used, k - 1);
        if k - 1 < used.len() && !used[k - 1] {
            match m {
                Some(x) => {
                    let w = choose|i: int| 0 <= i < k - 1 && #[trigger] open_from(es, used, x, i);
                    if es[k - 1].0 < x {
                        assert(min_open_start_below(es, used, k) == Some(es[k - 1].0));
                        assert(open_from(es, used, min_open_start_below(es, used, k)->0, k - 1));
                    } else {
                        assert(min_open_start_below(es, used, k) == Some(x));
                        assert(open_from(es, used, x, w));
                    }
                },
                None => {
                    assert(min_open_start_below(es, used, k) == Some(es[k - 1].0));
                    assert(open_from(es, used, min_open_start_below(es, used, k)->0, k - 1));
                },
            }
        } else {
            if let Some(x) = m {
                let w = choose|i: int| 0 <= i < k - 1 && #[trigger] open_from(es, used, x, i);
                assert(open_from(es, used, x, w));
                assert(min_open_start_below(es, used, k) == Some(x));
            }
        }
    }
}

/// Walk from `cur` along the last open edge at each vertex until the walk returns to
/// `start`, collecting the vertices after the start and the other-side label of every edge.
/// A walk that reaches a vertex with no open edge left is dropped (no vertices).
pub open spec fn walk(
    es: Seq<BoundaryEdge>,
    used: Seq<bool>,
    start: u64,
    cur: u64,
    ring: Seq<u64>,
    others: Seq<u32>,
) -> (Seq<u64>, Seq<u32>, Seq<bool>)
    decreases unwalked(used),
{
    match last_open_from(es, used, cur) {
        Some(i) => {
            if 0 <= i < used.len() && !used[i] {
                let used2 = used.update(i, true);
                let others2 = others.push(es[i].2);
                if es[i].1 == start {
                    (ring, others2, used2)
                } else {
                    proof {
                        lemma_mark_walked(used, i);
                    }
                    walk(es, used2, start, es[i].1, ring.push(es[i].1), others2)
                }
            } else {
                (Seq::empty(), others, used)
            }
        },
        None => (Seq::empty(), others, used),
    }
}

/// The rings of the edges not walked yet, in the order they are found: each starts at the
/// smallest start vertex left, and only rings of at least three vertices are kept.
pub open spec fn rings_from(es: Seq<BoundaryEdge>, used: Seq<bool>) -> Seq<(Seq<u64>, Seq<u32>)>
    decreases unwalked(used),
{
    match min_open_start(es, used) {
        Some(s) => {
            let w = walk(es, used, s, s, seq![s], Seq::empty());
            if unwalked(w.2) < unwalked(used) {
                let rest = rings_from(es, w.2);
                if w.0.len() >= 3 {
                    seq![(w.0, w.1)] + rest
                } else {
                    rest
                }
            } else {
                Seq::empty()
            }
        },
        None => Seq::empty(),
    }
}

/// `l` lists, in increasing order, exactly the edges from `v` that are not walked yet.
pub open spec fn open_list(es: Seq<BoundaryEdge>, used: Seq<bool>, v: u64, l: Seq<usize>) -> bool {
    &&& l.len() > 0
    &&& forall|a: int, b: int| 0 <= a < b < l.len() ==> l[a] < l[b]
    &&& forall|a: int| 0 <= a < l.len() ==> open_from(es, used, v, #[trigger] l[a] as int)
    &&& forall|i: int|
        open_from(es, used, v, i) ==> exists|a: int| 0 <= a < l.len() && #[trigger] l[a] == i
}

/// The index of open edges by start vertex: a vertex is a key exactly when an open edge
/// leaves it, and its list holds those edges.
pub open spec fn open_index(es: Seq<BoundaryEdge>, used: Seq<bool>, m: Map<u64, Vec<usize>>) -> bool {
    &&& forall|v: u64| #[trigger]
        m.contains_key(v) <==> exists|i: int| #[trigger] open_from(es, used, v, i)
    &&& forall|v: u64| #[trigger] m.contains_key(v) ==> open_list(es, used, v, m[v]@)
}

proof fn lemma_last_of_open_list(es: Seq<BoundaryEdge>, used: Seq<bool>, v: u64, l: Seq<usize>)
    requires
        open_list(es, used, v, l),
    ensures
        last_open_from(es, used, v) == Some(l.last() as int),
{
    lemma_last_open_below(es, used, v, es.len() as int);
    assert(open_from(es, used, v, l[l.len() - 1] as int));
    match last_open_from(es, used, v) {
        Some(i) => {
            let a = choose|a: int| 0 <= a < l.len() && #[trigger] l[a] == i;
            if a < l.len() - 1 {
                assert(l[a] < l[l.len() - 1]);
            }
        },
        None => {},
    }
}

/// Walking edge `i`, the last open edge from `v`, keeps the index right once `i` leaves
/// `v`'s list.
proof fn lemma_index_after_walk(
    es: Seq<BoundaryEdge>,
    used: Seq<bool>,
    m: Map<u64, Vec<usize>>,
    v: u64,
    l: Seq<usize>,
)
    requires
        open_index(es, used, m),
        m.contains_key(v),
        m[v]@ == l,
    ensures
        ({
            let i = l.last() as int;
            let used2 = used.update(i, true);
            &&& l.len() > 1 ==> open_list(es, used2, v, l.drop_last())
            &&& l.len() == 1 ==> forall|j: int| !open_from(es, used2, v, j)
            &&& forall|u: u64, j: int| u != v ==> open_from(es, used2, u, j) == open_from(es, used, u, j)
            &&& forall|j: int| open_from(es, used2, v, j) <==> open_from(es, used, v, j) && j != i
        }),
{
    let i = l.last() as int;
    let used2 = used.update(i, true);
    assert(open_list(es, used, v, l));
    assert(open_from(es, used, v, l[l.len() - 1] as int));
    assert forall|j: int| open_from(es, used2, v, j) <==> open_from(es, used, v, j) && j != i by {}
    if l.len() > 1 {
        let d = l.drop_last();
        assert forall|j: int| open_from(es, used2, v, j) implies exists|a: int|
            0 <= a < d.len() && #[trigger] d[a] == j by {
            let a = choose|a: int| 0 <= a < l.len() && #[trigger] l[a] == j;
            assert(a != l.len() - 1);
            assert(d[a] == j);
        }
        assert forall|a: int| 0 <= a < d.len() implies open_from(es, used2, v, #[trigger] d[a] as int) by {
            assert(l[a] == d[a]);
            assert(open_from(es, used, v, l[a] as int));
            assert(l[a] < l[l.len() - 1]);
        }
    } else {
        assert forall|j: int| !open_from(es, used2, v, j) by {
            if open_from(es, used, v, j) && j != i {
                let a = choose|a: int| 0 <= a < l.len() && #[trigger] l[a] == j;
                assert(a == 0);
            }
        }
    }
}

/// Marking edge `k` open (from the edges not yet added) extends its start's list at the end.
proof fn lemma_index_after_add(
    es: Seq<BoundaryEdge>,
    used: Seq<bool>,
    m: Map<u64, Vec<usize>>,
    k: usize,
    l: Seq<usize>,
)
    requires
        open_index(es, used, m),
        0 <= k < es.len(),
        k < used.len(),
        used[k as int],
        forall|j: int| k < j < used.len() ==> used[j],
        m.contains_key(es[k as int].0) ==> l == m[es[k as int].0]@,
        !m.contains_key(es[k as int].0) ==> l == Seq::<usize>::empty(),
    ensures
        ({
            let used2 = used.update(k as int, false);
            &&& open_list(es, used2, es[k as int].0, l.push(k))
            &&& forall|u: u64, j: int|
                u != es[k as int].0 ==> open_from(es, used2, u, j) == open_from(es, used, u, j)
        }),
{
    let v = es[k as int].0;
    let used2 = used.update(k as int, false);
    let l2 = l.push(k);
    if m.contains_key(v) {
        assert(open_list(es, used, v, l));
    }
    assert forall|a: int| 0 <= a < l.len() implies #[trigger] l[a] < k by {
        assert(open_from(es, used, v, l[a] as int));
    }
    assert forall|a: int| 0 <= a < l2.len() implies open_from(es, used2, v, #[trigger] l2[a] as int) by {
        if a < l.len() {
            assert(l2[a] == l[a]);
            assert(open_from(es, used, v, l[a] as int));
        }
    }
    assert forall|i: int| open_from(es, used2, v, i) implies exists|a: int|
        0 <= a < l2.len() && #[trigger] l2[a] == i by {
        if i == k {
            assert(l2[l.len() as int] == k);
        } else {
            assert(open_from(es, used, v, i));
            if m.contains_key(v) {
                let a = choose|a: int| 0 <= a < l.len() && #[trigger] l[a] == i;
                assert(l2[a] == i);
            } else {
                assert(exists|j: int| #[trigger] open_from(es, used, v, j));
            }
        }
    }
}

/// The smallest key of a table of start vertices, or `None` when it is empty.
fn min_start_vertex(m: &HashMap<u64, Vec<usize>>) -> (r: Option<u64>)
    ensures
        r is None ==> m@.dom().len() == 0,
        r is Some ==> m@.dom().contains(r->0) && forall|j: u64| m@.dom().contains(j) ==> r->0 <= j,
{
    broadcast use vstd::std_specs::hash::group_hash_axioms;

    let mut best: Option<u64> = None;
    let ghost mut count: int = 0;
    let ghost ks = vstd::std_specs::hash::spec_keys_iter(m).remaining().unref();
    assert(ks.to_set() == m@.dom());
    assert forall|i: int| 0 <= i < ks.len() implies m@.dom().contains(ks[i]) by {
        assert(ks.to_set().contains(ks[i]));
    }
    assert forall|j: u64| m@.dom().contains(j) implies exists|i: int| 0 <= i < ks.len() && ks[i] == j by {
        assert(ks.to_set().contains(j));
    }
    for k in it: m.keys()
        invariant
            it.seq().len() == m@.dom().len(),
            count == it.index(),
            best is None ==> count == 0,
            it.seq().unref() == ks,
            forall|i: int| 0 <= i < ks.len() ==> m@.dom().contains(ks[i]),
            forall|j: u64| m@.dom().contains(j) ==> exists|i: int| 0 <= i < ks.len() && ks[i] == j,
            best is None ==> it.index() == 0,
            best is Some ==> exists|i: int| 0 <= i < it.index() && ks[i] == best->0,
            forall|i: int| 0 <= i < it.index() ==> best is Some && best->0 <= ks[i],
    {
        assert(ks[it.index()] == *k);
        if best.is_none() || *k < best.unwrap() {
            best = Some(*k);
        }
        proof {
            count = count + 1;
        }
    }
    best
}

/// The rings as vertex and label sequences.
pub open spec fn rings_view(rs: Seq<(Vec<u64>, Vec<u32>)>) -> Seq<(Seq<u64>, Seq<u32>)> {
    rs.map_values(|x: (Vec<u64>, Vec<u32>)| (x.0@, x.1@))
}

/// Index the edges by start vertex.
fn index_edges(edges: &Vec<BoundaryEdge>) -> (m: HashMap<u64, Vec<usize>>)
    ensures
        open_index(edges@, Seq::new(edges@.len(), |j: int| false), m@),
{
    broadcast use vstd::std_specs::hash::group_hash_axioms;

    let n = edges.len();
    let mut m: HashMap<u64, Vec<usize>> = HashMap::new();
    let mut k: usize = 0;
    while k < n
        invariant
            n == edges@.len(),
            k <= n,
            open_index(edges@, Seq::new(n as nat, |j: int| j >= k), m@),
        decreases n - k,
    {
        let ghost used = Seq::new(n as nat, |j: int| j >= k);
        let ghost m0 = m@;
        let v = edges[k].0;
        let mut l = match m.remove(&v) {
            Some(l) => l,
            None => Vec::new(),
        };
        proof {
            lemma_index_after_add(edges@, used, m0, k, l@);
        }
        l.push(k);
        m.insert(v, l);
        proof {
            let used2 = used.update(k as int, false);
            assert(used2 =~= Seq::new(n as nat, |j: int| j >= k + 1));
            assert forall|u: u64| #[trigger] m@.contains_key(u) <==> exists|i: int|
                #[trigger] open_from(edges@, used2, u, i) by {
                if u == v {
                    assert(open_from(edges@, used2, u, k as int));
                } else {
                    if exists|i: int| #[trigger] open_from(edges@, used2, u, i) {
                        let i = choose|i: int| #[trigger] open_from(edges@, used2, u, i);
                        assert(open_from(edges@, used, u, i));
                    }
                    if m0.contains_key(u) {
                        let i = choose|i: int| #[trigger] open_from(edges@, used, u, i);
                        assert(open_from(edges@, used2, u, i));
                    }
                }
            }
            assert forall|u: u64| #[trigger] m@.contains_key(u) implies open_list(
                edges@,
                used2,
                u,
                m@[u]@,
            ) by {
                if u != v {
                    assert(open_list(edges@, used, u, m0[u]@));
                    assert forall|i: int| open_from(edges@, used2, u, i) implies exists|a: int|
                        0 <= a < m0[u]@.len() && #[trigger] m0[u]@[a] == i by {
                        assert(open_from(edges@, used, u, i));
                    }
                    assert forall|a: int| 0 <= a < m0[u]@.len() implies open_from(
                        edges@,
                        used2,
                        u,
                        #[trigger] m0[u]@[a] as int,
                    ) by {
                        assert(open_from(edges@, used, u, m0[u]@[a] as int));
                    }
                }
            }
        }
        k = k + 1;
    }
    assert(Seq::new(n as nat, |j: int| j >= n) =~= Seq::new(n as nat, |j: int| false));
    m
}

/// The smallest start vertex in the index is the smallest start of an open edge.
proof fn lemma_min_start_of_index(
    es: Seq<BoundaryEdge>,
    used: Seq<bool>,
    m: Map<u64, Vec<usize>>,
    r: Option<u64>,
)
    requires
        open_index(es, used, m),
        used.len() == es.len(),
        m.dom().finite(),
        r is None ==> m.dom().len() == 0,
        r is Some ==> m.dom().contains(r->0) && forall|j: u64| m.dom().contains(j) ==> r->0 <= j,
    ensures
        r == min_open_start(es, used),
{
    lemma_min_open_start_below(es, used, es.len() as int);
    let s = min_open_start(es, used);
    if r is Some {
        let k = r->0;
        let i = choose|i: int| #[trigger] open_from(es, used, k, i);
        assert(open_from(es, used, k, i));
        assert(s is Some);
        let w = choose|w: int| 0 <= w < es.len() && #[trigger] open_from(es, used, s->0, w);
        assert(m.contains_key(s->0));
    } else {
        if s is Some {
            let w = choose|w: int| 0 <= w < es.len() && #[trigger] open_from(es, used, s->0, w);
            assert(m.contains_key(s->0));
            assert(m.dom().contains(s->0));
        }
    }
}

/// Chain directed boundary edges into closed rings, tracking the label on the other side of
/// every segment. Each ring starts at the smallest start vertex of the edges not yet used,
/// so the rotation of every ring is deterministic; from each vertex the walk takes the last
/// given edge not yet used. A walk that reaches a vertex with no edge left is dropped, as
/// are rings of fewer than three vertices.
pub fn chain_rings(edges: &Vec<BoundaryEdge>) -> (r: Vec<(Vec<u64>, Vec<u32>)>)
    ensures
        rings_view(r@) == rings_from(edges@, Seq::new(edges@.len(), |j: int| false)),
{
    broadcast use vstd::std_specs::hash::group_hash_axioms;

    let ghost es = edges@;
    let ghost all_open = Seq::new(es.len(), |j: int| false);
    let mut m = index_edges(edges);
    let ghost mut used: Seq<bool> = all_open;
    let mut rings: Vec<(Vec<u64>, Vec<u32>)> = Vec::new();
    let mut next_start = min_start_vertex(&m);
    proof {
        lemma_min_start_of_index(es, used, m@, next_start);
    }
    while next_start.is_some()
        invariant
            es == edges@,
            used.len() == es.len(),
            open_index(es, used, m@),
            next_start == min_open_start(es, used),
            rings_from(es, all_open) == rings_view(rings@) + rings_from(es, used),
        decreases unwalked(used),
    {
        let start = next_start.unwrap();
        let ghost used0 = used;
        let mut ring: Vec<u64> = Vec::new();
        ring.push(start);
        let mut others: Vec<u32> = Vec::new();
        let mut cur: u64 = start;
        let mut going = true;
        let mut dropped = false;
        let ghost mut steps: nat = 0;
        proof {
            lemma_min_open_start_below(es, used, es.len() as int);
            let w = choose|w: int| 0 <= w < es.len() && #[trigger] open_from(es, used, start, w);
            assert(open_from(es, used, start, w));
            assert(ring@ =~= seq![start]);
        }
        while going
            invariant
                es == edges@,
                used.len() == es.len(),
                open_index(es, used, m@),
                unwalked(used) + steps == unwalked(used0),
                steps == 0 ==> going && cur == start && m@.contains_key(start),
                !going ==> steps > 0,
                going ==> !dropped,
                going ==> walk(es, used0, start, start, seq![start], Seq::empty()) == walk(
                    es,
                    used,
                    start,
                    cur,
                    ring@,
                    others@,
                ),
                !going ==> walk(es, used0, start, start, seq![start], Seq::empty()) == (
                    if dropped {
                        Seq::<u64>::empty()
                    } else {
                        ring@
                    },
                    others@,
                    used,
                ),
            decreases unwalked(used) + if going {
                1nat
            } else {
                0nat
            },
        {
            let ghost m0 = m@;
            match m.remove(&cur) {
                None => {
                    proof {
                        lemma_last_open_below(es, used, cur, es.len() as int);
                        if last_open_from(es, used, cur) is Some {
                            assert(open_from(es, used, cur, last_open_from(es, used, cur)->0));
                        }
                        assert(walk(es, used, start, cur, ring@, others@) == (
                            Seq::<u64>::empty(),
                            others@,
                            used,
                        ));
                    }
                    going = false;
                    dropped = true;
                },
                Some(mut l) => {
                    proof {
                        assert(open_list(es, used, cur, l@));
                        lemma_last_of_open_list(es, used, cur, l@);
                        lemma_index_after_walk(es, used, m0, cur, l@);
                    }
                    let ghost l0 = l@;
                    let ghost w0 = walk(es, used, start, cur, ring@, others@);
                    let i = l.pop().unwrap();
                    if l.len() > 0 {
                        m.insert(cur, l);
                    }
                    proof {
                        let used2 = used.update(i as int, true);
                        lemma_mark_walked(used, i as int);
                        assert forall|u: u64| #[trigger] m@.contains_key(u) <==> exists|j: int|
                            #[trigger] open_from(es, used2, u, j) by {
                            if u != cur {
                                if m0.contains_key(u) {
                                    let j = choose|j: int| #[trigger] open_from(es, used, u, j);
                                    assert(open_from(es, used2, u, j));
                                }
                                if exists|j: int| #[trigger] open_from(es, used2, u, j) {
                                    let j = choose|j: int| #[trigger] open_from(es, used2, u, j);
                                    assert(open_from(es, used, u, j));
                                }
                            } else if l0.len() > 1 {
                                assert(open_from(es, used2, u, l0[0] as int));
                            }
                        }
                        assert forall|u: u64| #[trigger] m@.contains_key(u) implies open_list(
                            es,
                            used2,
                            u,
                            m@[u]@,
                        ) by {
                            if u != cur {
                                assert(open_list(es, used, u, m0[u]@));
                                assert forall|j: int| open_from(es, used2, u, j) implies exists|
                                    a: int,
                                | 0 <= a < m0[u]@.len() && #[trigger] m0[u]@[a] == j by {
                                    assert(open_from(es, used, u, j));
                                }
                                assert forall|a: int| 0 <= a < m0[u]@.len() implies open_from(
                                    es,
                                    used2,
                                    u,
                                    #[trigger] m0[u]@[a] as int,
                                ) by {
                                    assert(open_from(es, used, u, m0[u]@[a] as int));
                                }
                            } else {
                                assert(m@[u]@ =~= l0.drop_last());
                            }
                        }
                        used = used2;
                        steps = steps + 1;
                    }
                    let ghost others0 = others@;
                    others.push(edges[i].2);
                    let next = edges[i].1;
                    proof {
                        assert(w0 == (if next == start {
                            (ring@, others@, used)
                        } else {
                            walk(es, used, start, next, ring@.push(next), others@)
                        }));
                    }
                    if next == start {
                        going = false;
                    } else {
                        ring.push(next);
                        cur = next;
                    }
                },
            }
        }
        if dropped {
            ring.clear();
        }
        let ghost w = (ring@, others@, used);
        proof {
            assert(unwalked(w.2) < unwalked(used0));
        }
        if ring.len() >= 3 {
            let ghost before = rings@;
            rings.push((ring, others));
            proof {
                assert(rings_view(rings@) =~= rings_view(before) + seq![(w.0, w.1)]);
            }
        }
        next_start = min_start_vertex(&m);
        proof {
            lemma_min_start_of_index(es, used, m@, next_start);
        }
    }
    proof {
        assert(rings_from(es, used) =~= Seq::<(Seq<u64>, Seq<u32>)>::empty());
    }
    rings
}

/// Every vertex of the edges is below `bound`.
pub open spec fn vertices_below(es: Seq<BoundaryEdge>, bound: u64) -> bool {
    forall|i: int| 0 <= i < es.len() ==> (#[trigger] es[i]).0 < bound && es[i].1 < bound
}

/// A closed ring: as many segment labels as vertices, all vertices below `bound`.
pub open spec fn ring_shape_ok(r: (Seq<u64>, Seq<u32>), bound: u64) -> bool {
    r.1.len() == r.0.len() && forall|j: int| 0 <= j < r.0.len() ==> #[trigger] r.0[j] < bound
}

proof fn lemma_walk_shape(
    es: Seq<BoundaryEdge>,
    used: Seq<bool>,
    start: u64,
    cur: u64,
    ring: Seq<u64>,
    others: Seq<u32>,
    bound: u64,
)
    requires
        vertices_below(es, bound),
        ring.len() == others.len() + 1,
        forall|j: int| 0 <= j < ring.len() ==> #[trigger] ring[j] < bound,
    ensures
        ({
            let w = walk(es, used, start, cur, ring, others);
            w.0.len() == 0 || ring_shape_ok((w.0, w.1), bound)
        }),
    decreases unwalked(used),
{
    match last_open_from(es, used, cur) {
        Some(i) => {
            if 0 <= i < used.len() && !used[i] {
                lemma_last_open_below(es, used, cur, es.len() as int);
                let used2 = used.update(i, true);
                let others2 = others.push(es[i].2);
                if es[i].1 != start {
                    lemma_mark_walked(used, i);
                    let ring2 = ring.push(es[i].1);
                    assert(es[i].1 < bound);
                    lemma_walk_shape(es, used2, start, es[i].1, ring2, others2, bound);
                }
            }
        },
        None => {},
    }
}

/// Every ring found has as many segment labels as vertices, and its vertices are those of
/// the edges.
pub proof fn lemma_rings_shape(es: Seq<BoundaryEdge>, used: Seq<bool>, bound: u64)
    requires
        vertices_below(es, bound),
    ensures
        forall|k: int|
            0 <= k < rings_from(es, used).len() ==> ring_shape_ok(
                #[trigger] rings_from(es, used)[k],
                bound,
            ) && rings_from(es, used)[k].0.len() >= 3,
    decreases unwalked(used),
{
    match min_open_start(es, used) {
        Some(s) => {
            lemma_min_open_start_below(es, used, es.len() as int);
            let i = choose|i: int| 0 <= i < es.len() && #[trigger] open_from(es, used, s, i);
            assert(open_from(es, used, s, i));
            assert(seq![s].len() == 1 && seq![s][0] < bound);
            lemma_walk_shape(es, used, s, s, seq![s], Seq::empty(), bound);
            let w = walk(es, used, s, s, seq![s], Seq::empty());
            if unwalked(w.2) < unwalked(used) {
                lemma_rings_shape(es, w.2, bound);
                let rest = rings_from(es, w.2);
                if w.0.len() >= 3 {
                    assert forall|k: int| 0 <= k < rings_from(es, used).len() implies ring_shape_ok(
                        #[trigger] rings_from(es, used)[k],
                        bound,
                    ) && rings_from(es, used)[k].0.len() >= 3 by {
                        if k > 0 {
                            assert(rings_from(es, used)[k] == rest[k - 1]);
                        }
                    }
                }
            }
        },
        None => {},
    }
}


/// Vegetation layers are written light to dark: open land (403), slow running (406),
/// walk (408), fight (410), then undergrowth (407), and any other code after all of them.
pub proof fn lemma_light_to_dark(other: u16)
    ensures
        draw_order_of(403) < draw_order_of(406),
        draw_order_of(406) < draw_order_of(408),
        draw_order_of(408) < draw_order_of(410),
        draw_order_of(410) < draw_order_of(407),
        other != 403 && other != 406 && other != 408 && other != 410 && other != 407 ==> draw_order_of(
            407,
        ) < draw_order_of(other),
{
}

} // verus!
