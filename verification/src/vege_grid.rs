//! The cell grid stage of vegetation vectorization: median filtering and connected
//! component labelling (both by `imageproc`), dissolving components below the ISOM minimum
//! area into their surroundings, and tracing the boundary of every component.
use vstd::prelude::*;
use image::{GrayImage, Luma};
use imageproc::region_labelling::{Connectivity, connected_components};
use crate::vege_vector::{
    BoundaryEdge, chain_rings, lemma_rings_shape, ring_shape_ok, rings_from, vertices_below,
};
use crate::geometry::copy_vec;

verus! {

/// A class grid of `width` x `height` cells stored row by row, small enough to be labelled
/// (fewer than 2^32 cells) and indexed on this machine.
pub open spec fn grid_ok(pixels: Seq<u8>, width: u32, height: u32) -> bool {
    pixels.len() == width * height && width * height < 0x1_0000_0000 && width * height
        < usize::MAX
}

/// Cells `a` and `b` of a `width` x `height` grid are side neighbours (west, east, north
/// or south).
pub open spec fn side_neighbours(width: u32, height: u32, a: int, b: int) -> bool {
    let w = width as int;
    &&& 0 <= a < w * height
    &&& 0 <= b < w * height
    &&& ((a / w == b / w && (a % w - b % w == 1 || b % w - a % w == 1)) || (a % w == b % w && (a
        - b == w || b - a == w)))
}

/// A path of side neighbours through cells of one class.
pub open spec fn same_class_path(pixels: Seq<u8>, width: u32, height: u32, path: Seq<int>) -> bool {
    &&& path.len() >= 1
    &&& forall|k: int|
        0 <= k < path.len() ==> 0 <= #[trigger] path[k] < pixels.len() && pixels[path[k]]
            == pixels[path[0]]
    &&& forall|k: int|
        0 <= k < path.len() - 1 ==> side_neighbours(width, height, #[trigger] path[k], path[k + 1])
}

/// Cells `a` and `b` belong to one 4-connected component: a path of side neighbours of
/// their class leads from one to the other.
#[verifier::opaque]
pub open spec fn four_connected(pixels: Seq<u8>, width: u32, height: u32, a: int, b: int) -> bool {
    exists|path: Seq<int>|
        #[trigger] same_class_path(pixels, width, height, path) && path[0] == a && path.last() == b
}

/// The largest label of a sequence, 0 for none.
pub open spec fn max_label(l: Seq<u32>) -> u32
    decreases l.len(),
{
    if l.len() == 0 {
        0
    } else if l.last() > max_label(l.drop_last()) {
        l.last()
    } else {
        max_label(l.drop_last())
    }
}

/// Cell `i` is labelled 0 exactly when it is background.
pub open spec fn background_at(pixels: Seq<u8>, labels: Seq<u32>, i: int) -> bool {
    labels[i] == 0 <==> pixels[i] == 0
}

/// Foreground cells `i` and `j` share a label exactly when they are 4-connected.
pub open spec fn same_label_at(pixels: Seq<u8>, width: u32, height: u32, labels: Seq<u32>, i: int, j: int) -> bool {
    pixels[i] != 0 && pixels[j] != 0 ==> (labels[i] == labels[j] <==> four_connected(
        pixels,
        width,
        height,
        i,
        j,
    ))
}

/// Some cell before `i` has the label of cell `i`.
pub open spec fn label_seen_before(labels: Seq<u32>, i: int) -> bool {
    exists|j: int| 0 <= j < i && #[trigger] labels[j] == labels[i]
}

/// The label of foreground cell `i` came before it, or is the next new label.
pub open spec fn numbered_at(pixels: Seq<u8>, labels: Seq<u32>, i: int) -> bool {
    pixels[i] != 0 ==> label_seen_before(labels, i) || labels[i] == max_label(labels.take(i)) + 1
}

/// Whether `labels` labels the 4-connected components of a class grid, class 0 being the
/// background: 0 exactly on background cells, one label per component, and labels numbered
/// from 1 in the order in which their components first appear in row order.
pub open spec fn is_component_labelling(pixels: Seq<u8>, width: u32, height: u32, labels: Seq<u32>) -> bool {
    &&& labels.len() == pixels.len()
    &&& forall|i: int| 0 <= i < labels.len() ==> #[trigger] background_at(pixels, labels, i)
    &&& forall|i: int, j: int|
        0 <= i < labels.len() && 0 <= j < labels.len() ==> #[trigger] same_label_at(
            pixels,
            width,
            height,
            labels,
            i,
            j,
        )
    &&& forall|i: int| 0 <= i < labels.len() ==> #[trigger] numbered_at(pixels, labels, i)
}

/// The labels of the 4-connected components of a class grid (see
/// [`is_component_labelling`]; the labelling is unique).
pub open spec fn four_connected_labels(pixels: Seq<u8>, width: u32, height: u32) -> Seq<u32> {
    choose|labels: Seq<u32>| is_component_labelling(pixels, width, height, labels)
}

/// Whether `imageproc` can label a grid: it is empty, or some cell is background, or two
/// side neighbours share a class. On any other grid every cell starts a label of its own and
/// the last one, equal to the number of cells, overruns the union-find table.
pub open spec fn labels_fit(pixels: Seq<u8>, width: u32, height: u32) -> bool {
    ||| pixels.len() == 0
    ||| exists|i: int| 0 <= i < pixels.len() && #[trigger] pixels[i] == 0
    ||| exists|a: int, b: int| #[trigger] side_neighbours(width, height, a, b) && pixels[a] == pixels[b]
}

/// Cell `i` of a `width`-wide row-major grid is `i % width` columns in and `i / width` rows
/// down.
proof fn lemma_cell_coords(i: int, w: int)
    requires
        w > 0,
        i >= 0,
    ensures
        i == (i / w) * w + i % w,
        0 <= i % w < w,
        i / w >= 0,
{
    assert(i == (i / w) * w + i % w && 0 <= i % w < w && i / w >= 0) by (nonlinear_arith)
        requires
            w > 0,
            i >= 0,
    ;
}

/// Whether `imageproc` can label the grid (see [`labels_fit`]).
pub fn can_label(pixels: &Vec<u8>, width: u32, height: u32) -> (r: bool)
    requires
        pixels@.len() == width * height,
    ensures
        r == labels_fit(pixels@, width, height),
{
    let n = pixels.len();
    if n == 0 {
        return true;
    }
    let ghost w = width as int;
    assert(w > 0) by (nonlinear_arith)
        requires
            w * height == n,
            n > 0,
            w >= 0,
    ;
    let wu = width as usize;
    assert(w <= n) by (nonlinear_arith)
        requires
            w * height == n,
            n > 0,
            w > 0,
    ;
    let mut i: usize = 0;
    let mut x: usize = 0;
    while i < n
        invariant
            n == pixels@.len(),
            wu <= n,
            n == w * height,
            w == width,
            wu == w,
            w > 0,
            i <= n,
            x as int == (i as int) % w,
            forall|j: int|
                0 <= j < i ==> #[trigger] pixels@[j] != 0 && (j % w + 1 < w ==> pixels@[j]
                    != pixels@[j + 1]) && (j + w < n ==> pixels@[j] != pixels@[j + w]),
        decreases n - i,
    {
        proof {
            lemma_cell_coords(i as int, w);
        }
        if pixels[i] == 0 {
            assert(pixels@[i as int] == 0);
            return true;
        }
        if x + 1 < wu && i + 1 < n && pixels[i] == pixels[i + 1] {
            proof {
                let q = i as int / w;
                vstd::arithmetic::div_mod::lemma_fundamental_div_mod_converse(i + 1, w, q, x + 1);
                assert(side_neighbours(width, height, i as int, i + 1));
            }
            return true;
        }
        if i < n - wu && pixels[i] == pixels[i + wu] {
            proof {
                let q = i as int / w;
                assert(i + w == (q + 1) * w + x) by (nonlinear_arith)
                    requires
                        i == q * w + x,
                ;
                vstd::arithmetic::div_mod::lemma_fundamental_div_mod_converse(i + w, w, q + 1, x as int);
                assert(side_neighbours(width, height, i as int, i + w));
            }
            return true;
        }
        proof {
            if x + 1 < wu {
                let ii = i as int;
                let q = ii / w;
                assert(q < height) by (nonlinear_arith)
                    requires
                        ii == q * w + x,
                        x >= 0,
                        ii < w * height,
                        w > 0,
                ;
                assert(ii + 1 < n) by (nonlinear_arith)
                    requires
                        ii == q * w + x,
                        x + 1 < w,
                        q + 1 <= height,
                        n == w * height,
                        w > 0,
                ;
            }
        }
        let ghost old_i = i;
        i = i + 1;
        if x + 1 == wu {
            x = 0;
            proof {
                let q = old_i as int / w;
                assert(i as int == (q + 1) * w + 0) by (nonlinear_arith)
                    requires
                        old_i as int == q * w + (w - 1),
                        i as int == old_i + 1,
                ;
                vstd::arithmetic::div_mod::lemma_fundamental_div_mod_converse(i as int, w, q + 1, 0);
            }
        } else {
            x = x + 1;
            proof {
                let q = old_i as int / w;
                assert(i as int == q * w + x);
                vstd::arithmetic::div_mod::lemma_fundamental_div_mod_converse(i as int, w, q, x as int);
            }
        }
    }
    proof {
        assert forall|a: int, b: int| #[trigger] side_neighbours(width, height, a, b) implies pixels@[a]
            != pixels@[b] by {
            lemma_cell_coords(a, w);
            lemma_cell_coords(b, w);
            if a / w == b / w && b % w - a % w == 1 {
                assert(b == a + 1);
                assert(pixels@[a] != 0);
            } else if a / w == b / w && a % w - b % w == 1 {
                assert(a == b + 1);
                assert(pixels@[b] != 0);
            } else if b - a == w {
                assert(pixels@[a] != 0);
            } else {
                assert(pixels@[b] != 0);
            }
        }
    }
    false
}

/// `imageproc::region_labelling::connected_components` with 4-connectivity and background
/// 0, on a row-major grid. As its documentation and source show, it labels each cell by the
/// component of equal-valued side neighbours it belongs to, 0 for background cells, and
/// numbers the components from 1 in the order in which their first cells come in row order
/// (see [`is_component_labelling`]); so no label exceeds the number of cells. It panics on
/// grids of 2^32 cells or more, and, as its source shows, on grids where every cell would
/// start a label of its own (an index past its union-find table); `requires` leaves both out
/// (see [`labels_fit`]).
#[verifier::external_body]
fn four_connected_components(pixels: &Vec<u8>, width: u32, height: u32) -> (labels: Vec<u32>)
    requires
        grid_ok(pixels@, width, height),
        labels_fit(pixels@, width, height),
    ensures
        is_component_labelling(pixels@, width, height, labels@),
{
    let img = GrayImage::from_raw(width, height, pixels.clone()).unwrap();
    connected_components(&img, Connectivity::Four, Luma([0u8])).into_raw()
}

/// Every label of a sequence is at most its largest.
pub(crate) proof fn lemma_max_label_is_max(l: Seq<u32>)
    ensures
        forall|i: int| 0 <= i < l.len() ==> #[trigger] l[i] <= max_label(l),
    decreases l.len(),
{
    if l.len() > 0 {
        lemma_max_label_is_max(l.drop_last());
        assert forall|i: int| 0 <= i < l.len() implies #[trigger] l[i] <= max_label(l) by {
            if i < l.len() - 1 {
                assert(l.drop_last()[i] == l[i]);
            }
        }
    }
}

/// In a component labelling the labels before cell `k` are at most `k`.
pub(crate) proof fn lemma_labels_bounded(pixels: Seq<u8>, width: u32, height: u32, labels: Seq<u32>, k: int)
    requires
        is_component_labelling(pixels, width, height, labels),
        0 <= k <= labels.len(),
    ensures
        max_label(labels.take(k)) <= k,
        forall|i: int| 0 <= i < k ==> #[trigger] labels[i] <= k,
    decreases k,
{
    if k > 0 {
        let i = k - 1;
        lemma_labels_bounded(pixels, width, height, labels, i);
        let prev = labels.take(i);
        assert(labels.take(k).drop_last() =~= prev);
        assert(labels.take(k).last() == labels[i]);
        assert(background_at(pixels, labels, i));
        assert(numbered_at(pixels, labels, i));
        if pixels[i] != 0 && label_seen_before(labels, i) {
            let j = choose|j: int| 0 <= j < i && #[trigger] labels[j] == labels[i];
            assert(labels[j] <= i);
        }
        assert(labels[i] <= k);
    }
}

/// A class grid has one component labelling.
proof fn lemma_labelling_unique(pixels: Seq<u8>, width: u32, height: u32, a: Seq<u32>, b: Seq<u32>, k: int)
    requires
        is_component_labelling(pixels, width, height, a),
        is_component_labelling(pixels, width, height, b),
        0 <= k <= a.len(),
    ensures
        a.take(k) == b.take(k),
    decreases k,
{
    if k > 0 {
        let i = k - 1;
        lemma_labelling_unique(pixels, width, height, a, b, i);
        assert(a.take(i) =~= b.take(i));
        assert forall|j: int| 0 <= j < i implies a[j] == b[j] by {
            assert(a.take(i)[j] == a[j]);
            assert(b.take(i)[j] == b[j]);
        }
        assert(background_at(pixels, a, i));
        assert(background_at(pixels, b, i));
        if pixels[i] != 0 {
            assert(numbered_at(pixels, a, i));
            assert(numbered_at(pixels, b, i));
            lemma_max_label_is_max(a.take(i));
            if label_seen_before(a, i) {
                let j = choose|j: int| 0 <= j < i && #[trigger] a[j] == a[i];
                assert(background_at(pixels, a, j));
                assert(same_label_at(pixels, width, height, a, i, j));
                assert(same_label_at(pixels, width, height, b, i, j));
                assert(a[j] == b[j]);
            } else if label_seen_before(b, i) {
                let j = choose|j: int| 0 <= j < i && #[trigger] b[j] == b[i];
                assert(background_at(pixels, b, j));
                assert(same_label_at(pixels, width, height, a, i, j));
                assert(same_label_at(pixels, width, height, b, i, j));
                assert(a[j] == b[j]);
                assert(false);
            }
        }
        assert(a.take(k) =~= b.take(k)) by {
            assert forall|j: int| 0 <= j < k implies a.take(k)[j] == b.take(k)[j] by {
                if j < i {
                    assert(a[j] == b[j]);
                }
            }
        }
    }
}

/// Label the 4-connected components of a class grid (see [`is_component_labelling`]).
fn label_components(pixels: &Vec<u8>, width: u32, height: u32) -> (labels: Vec<u32>)
    requires
        grid_ok(pixels@, width, height),
        labels_fit(pixels@, width, height),
    ensures
        is_component_labelling(pixels@, width, height, labels@),
        labels@ == four_connected_labels(pixels@, width, height),
        labels@.len() == pixels@.len(),
        forall|i: int| 0 <= i < labels@.len() ==> (labels@[i] == 0 <==> pixels@[i] == 0),
        forall|i: int| 0 <= i < labels@.len() ==> labels@[i] <= pixels@.len(),
        max_label(labels@) <= pixels@.len(),
{
    let labels = four_connected_components(pixels, width, height);
    proof {
        let n = labels@.len() as int;
        let chosen = four_connected_labels(pixels@, width, height);
        assert(is_component_labelling(pixels@, width, height, chosen));
        lemma_labelling_unique(pixels@, width, height, labels@, chosen, n);
        assert(labels@.take(n) =~= labels@);
        assert(chosen.take(n) =~= chosen);
        lemma_labels_bounded(pixels@, width, height, labels@, n);
        assert(labels@.take(n) =~= labels@);
        assert forall|i: int| 0 <= i < n implies (labels@[i] == 0 <==> pixels@[i] == 0) by {
            assert(background_at(pixels@, labels@, i));
        }
    }
    labels
}

/// `v` clamped into `0..n`: the padding by continuity of an image edge.
pub open spec fn clamp_into(v: int, n: int) -> int {
    if v < 0 {
        0
    } else if v >= n {
        n - 1
    } else {
        v
    }
}

/// The values in the `(2 * radius + 1)` square kernel around cell (`x`, `y`) of a row-major
/// grid, coordinates beyond an edge taking the edge's value.
pub open spec fn kernel_values(pixels: Seq<u8>, width: u32, height: u32, radius: u32, x: int, y: int) -> Seq<u8> {
    let side = 2 * radius + 1;
    Seq::new(
        (side * side) as nat,
        |k: int|
            pixels[clamp_into(y - radius + k / side, height as int) * width + clamp_into(
                x - radius + k % side,
                width as int,
            )],
    )
}

/// Whether `m` is the median of an odd number of values: at least half of them are at
/// most `m`, and fewer than half are below it.
pub open spec fn is_median(vals: Seq<u8>, m: u8) -> bool {
    &&& 2 * vals.filter(|v: u8| v <= m).len() >= vals.len()
    &&& 2 * vals.filter(|v: u8| v < m).len() < vals.len()
}

/// A row-major grid median filtered with the given radius in both directions: each cell
/// takes the median of its kernel (see [`kernel_values`]).
pub open spec fn median_filtered(pixels: Seq<u8>, width: u32, height: u32, radius: u32) -> Seq<u8> {
    Seq::new(
        pixels.len(),
        |c: int|
            choose|m: u8|
                #[trigger] is_median(
                    kernel_values(pixels, width, height, radius, c % (width as int), c / (width as int)),
                    m,
                ),
    )
}

/// `imageproc::filter::median_filter` with the same radius in both directions, on a
/// row-major grid. As its documentation says, each output cell is the median of the
/// `(2 * radius + 1)` square kernel around it, padded by continuity (see
/// [`median_filtered`]). It panics when a dimension plus the radius exceeds `i32::MAX`, and
/// counts the kernel in `u32` (doubled when looking for the median), which `requires`
/// keeps from overflowing.
#[verifier::external_body]
pub(crate) fn median_filter_grid(pixels: &Vec<u8>, width: u32, height: u32, radius: u32) -> (r: Vec<u8>)
    requires
        pixels@.len() == width * height,
        width + radius <= i32::MAX,
        height + radius <= i32::MAX,
        radius < 23000,
    ensures
        r@ == median_filtered(pixels@, width, height, radius),
{
    let img = GrayImage::from_raw(width, height, pixels.clone()).unwrap();
    imageproc::filter::median_filter(&img, radius, radius).into_raw()
}

// ---------------------------------------------------------------------------------------
// Dissolving components below the minimum area
// ---------------------------------------------------------------------------------------

/// Whether a cell has label `l`.
pub open spec fn has_label(labels: Seq<u32>, l: u32) -> spec_fn(usize) -> bool {
    |c: usize| labels[c as int] == l
}

/// The cells with label `l`, in row order.
pub open spec fn cells_of(labels: Seq<u32>, l: u32) -> Seq<usize> {
    Seq::new(labels.len(), |i: int| i as usize).filter(has_label(labels, l))
}

/// The class of cell (`x`, `y`), 0 outside the grid.
pub open spec fn class_at(img: Seq<u8>, width: u32, height: u32, x: int, y: int) -> u8 {
    if 0 <= x < width && 0 <= y < height {
        img[y * width + x]
    } else {
        0
    }
}

/// How many of the four neighbours of cell `c` (west, east, north, south) have class `k`.
pub open spec fn neighbours_of_class(img: Seq<u8>, width: u32, height: u32, c: int, k: u8) -> nat {
    let x = c % (width as int);
    let y = c / (width as int);
    (if class_at(img, width, height, x - 1, y) == k {
        1nat
    } else {
        0nat
    }) + (if class_at(img, width, height, x + 1, y) == k {
        1nat
    } else {
        0nat
    }) + (if class_at(img, width, height, x, y - 1) == k {
        1nat
    } else {
        0nat
    }) + (if class_at(img, width, height, x, y + 1) == k {
        1nat
    } else {
        0nat
    })
}

/// How often class `k` borders the cells of a component of class `class`, counted per cell
/// side (so a cell with two such neighbours counts twice).
pub open spec fn border_count(
    img: Seq<u8>,
    width: u32,
    height: u32,
    cells: Seq<usize>,
    class: u8,
    k: u8,
) -> nat
    decreases cells.len(),
{
    if cells.len() == 0 || k == class {
        0
    } else {
        border_count(img, width, height, cells.drop_last(), class, k) + neighbours_of_class(
            img,
            width,
            height,
            cells.last() as int,
            k,
        )
    }
}

/// Among classes below `k` that border the component, the one bordering it most, the
/// higher class on a tie.
pub open spec fn most_bordering_below(
    img: Seq<u8>,
    width: u32,
    height: u32,
    cells: Seq<usize>,
    class: u8,
    k: int,
) -> Option<u8>
    decreases k,
{
    if k <= 0 {
        None
    } else {
        let b = most_bordering_below(img, width, height, cells, class, k - 1);
        let n = border_count(img, width, height, cells, class, (k - 1) as u8);
        if n == 0 {
            b
        } else {
            match b {
                Some(bc) => if n >= border_count(img, width, height, cells, class, bc) {
                    Some((k - 1) as u8)
                } else {
                    b
                },
                None => Some((k - 1) as u8),
            }
        }
    }
}

/// The class a component dissolves into: the most frequent class around it (outside the
/// grid counting as background 0), the higher class on a tie, or 0 when nothing borders it.
pub open spec fn dissolve_target(
    img: Seq<u8>,
    width: u32,
    height: u32,
    cells: Seq<usize>,
    class: u8,
) -> u8 {
    match most_bordering_below(img, width, height, cells, class, 256) {
        Some(c) => c,
        None => 0,
    }
}

/// One component's turn in a dissolve pass: a component with fewer cells than the minimum
/// for its class takes the class it dissolves into. Returns the grid and whether it changed.
pub open spec fn dissolve_step(
    img: Seq<u8>,
    labels: Seq<u32>,
    width: u32,
    height: u32,
    min_cells: Seq<usize>,
    l: u32,
) -> (Seq<u8>, bool) {
    let cells = cells_of(labels, l);
    if l == 0 || cells.len() == 0 {
        (img, false)
    } else {
        let class = img[cells[0] as int];
        if cells.len() >= min_cells[class as int] {
            (img, false)
        } else {
            let new = dissolve_target(img, width, height, cells, class);
            (Seq::new(img.len(), |i: int| if labels[i] == l { new } else { img[i] }), true)
        }
    }
}

/// The first `k` turns of a dissolve pass, in label order.
pub open spec fn dissolve_turns(
    img: Seq<u8>,
    labels: Seq<u32>,
    width: u32,
    height: u32,
    min_cells: Seq<usize>,
    k: int,
) -> (Seq<u8>, bool)
    decreases k,
{
    if k <= 0 {
        (img, false)
    } else {
        let prev = dissolve_turns(img, labels, width, height, min_cells, k - 1);
        let next = dissolve_step(prev.0, labels, width, height, min_cells, (k - 1) as u32);
        (next.0, prev.1 || next.1)
    }
}

/// One dissolve pass: every label in order takes its turn, on the grid as the earlier turns
/// left it.
pub open spec fn dissolve_pass_of(
    img: Seq<u8>,
    labels: Seq<u32>,
    width: u32,
    height: u32,
    min_cells: Seq<usize>,
) -> (Seq<u8>, bool) {
    dissolve_turns(img, labels, width, height, min_cells, img.len() as int + 1)
}

/// The cells of each label, in row order.
fn group_cells(labels: &Vec<u32>, n_groups: usize) -> (g: Vec<Vec<usize>>)
    requires
        n_groups <= 0x1_0000_0000,
        forall|i: int| 0 <= i < labels@.len() ==> labels@[i] < n_groups,
    ensures
        g@.len() == n_groups,
        forall|l: int| 0 <= l < n_groups ==> (#[trigger] g@[l])@ == cells_of(labels@, l as u32),
{
    let mut g: Vec<Vec<usize>> = Vec::with_capacity(n_groups);
    let mut l: usize = 0;
    while l < n_groups
        invariant
            l <= n_groups,
            g@.len() == l,
            forall|k: int| 0 <= k < l ==> (#[trigger] g@[k])@ == Seq::<usize>::empty(),
        decreases n_groups - l,
    {
        g.push(Vec::new());
        l = l + 1;
    }
    let n = labels.len();
    let mut i: usize = 0;
    while i < n
        invariant
            n == labels@.len(),
            i <= n,
            g@.len() == n_groups,
            n_groups <= 0x1_0000_0000,
            forall|j: int| 0 <= j < labels@.len() ==> labels@[j] < n_groups,
            forall|k: int|
                0 <= k < n_groups ==> (#[trigger] g@[k])@ == Seq::new(i as nat, |j: int| j as usize).filter(
                    has_label(labels@, k as u32),
                ),
        decreases n - i,
    {
        let li = labels[i] as usize;
        let ghost g0 = g@;
        g[li].push(i);
        proof {
            assert forall|k: int| 0 <= k < n_groups implies (#[trigger] g@[k])@ == Seq::new(
                (i + 1) as nat,
                |j: int| j as usize,
            ).filter(has_label(labels@, k as u32)) by {
                let pred = has_label(labels@, k as u32);
                let before = Seq::new(i as nat, |j: int| j as usize);
                assert(Seq::new((i + 1) as nat, |j: int| j as usize) =~= before.push(i));
                before.lemma_filter_push(i, pred);
                assert(pred(i) <==> k == li);
                if k != li {
                    assert(g@[k] == g0[k]);
                } else {
                    assert(g@[k]@ == g0[k]@.push(i));
                }
            }
        }
        i = i + 1;
    }
    proof {
        assert forall|k: int| 0 <= k < n_groups implies (#[trigger] g@[k])@ == cells_of(
            labels@,
            k as u32,
        ) by {
            assert(Seq::new(n as nat, |j: int| j as usize) =~= Seq::new(
                labels@.len(),
                |j: int| j as usize,
            ));
        }
    }
    g
}

/// The class of cell (`x`, `y`), 0 outside the grid.
fn class_at_exec(img: &Vec<u8>, width: u32, height: u32, x: i64, y: i64) -> (r: u8)
    requires
        grid_ok(img@, width, height),
    ensures
        r == class_at(img@, width, height, x as int, y as int),
{
    if 0 <= x && x < width as i64 && 0 <= y && y < height as i64 {
        proof {
            assert(y * width + x < width * height) by (nonlinear_arith)
                requires
                    0 <= x < width,
                    0 <= y < height,
            ;
        }
        img[(y as usize) * (width as usize) + (x as usize)]
    } else {
        0
    }
}

/// How often each class borders the cells of a component of class `class`.
fn border_counts(img: &Vec<u8>, width: u32, height: u32, cells: &Vec<usize>, class: u8) -> (counts:
    Vec<u64>)
    requires
        grid_ok(img@, width, height),
        cells@.len() <= img@.len(),
        forall|j: int| 0 <= j < cells@.len() ==> cells@[j] < img@.len(),
    ensures
        counts@.len() == 256,
        forall|k: int|
            0 <= k < 256 ==> (#[trigger] counts@[k]) == border_count(
                img@,
                width,
                height,
                cells@,
                class,
                k as u8,
            ),
{
    let mut counts: Vec<u64> = Vec::with_capacity(256);
    let mut k: usize = 0;
    while k < 256
        invariant
            k <= 256,
            counts@.len() == k,
            forall|q: int| 0 <= q < k ==> counts@[q] == 0,
        decreases 256 - k,
    {
        counts.push(0);
        k = k + 1;
    }
    let mut j: usize = 0;
    while j < cells.len()
        invariant
            grid_ok(img@, width, height),
            cells@.len() <= img@.len(),
            forall|q: int| 0 <= q < cells@.len() ==> cells@[q] < img@.len(),
            j <= cells@.len(),
            cells@.len() < 0x1_0000_0000,
            counts@.len() == 256,
            forall|q: int|
                0 <= q < 256 ==> (#[trigger] counts@[q]) == border_count(
                    img@,
                    width,
                    height,
                    cells@.take(j as int),
                    class,
                    q as u8,
                ),
            forall|q: int| 0 <= q < 256 ==> counts@[q] <= 4 * j,
        decreases cells@.len() - j,
    {
        let c = cells[j];
        proof {
            assert(width > 0) by (nonlinear_arith)
                requires
                    c < width * height,
            ;
        }
        let x = (c % (width as usize)) as i64;
        let y = (c / (width as usize)) as i64;
        let ns: [u8; 4] = [
            class_at_exec(img, width, height, x - 1, y),
            class_at_exec(img, width, height, x + 1, y),
            class_at_exec(img, width, height, x, y - 1),
            class_at_exec(img, width, height, x, y + 1),
        ];
        let ghost counts0 = counts@;
        let mut d: usize = 0;
        while d < 4
            invariant
                d <= 4,
                counts@.len() == 256,
                forall|q: int|
                    0 <= q < 256 ==> (#[trigger] counts@[q]) == counts0[q] + if q as u8 == class {
                        0
                    } else {
                        (if d > 0 && ns@[0] == q as u8 {
                            1int
                        } else {
                            0int
                        }) + (if d > 1 && ns@[1] == q as u8 {
                            1int
                        } else {
                            0int
                        }) + (if d > 2 && ns@[2] == q as u8 {
                            1int
                        } else {
                            0int
                        }) + (if d > 3 && ns@[3] == q as u8 {
                            1int
                        } else {
                            0int
                        })
                    },
                counts0.len() == 256,
                j < 0x1_0000_0000,
                forall|q: int| 0 <= q < 256 ==> counts0[q] <= 4 * j,
            decreases 4 - d,
        {
            let k = ns[d];
            if k != class {
                let v = counts[k as usize];
                counts.set(k as usize, v + 1);
            }
            d = d + 1;
        }
        proof {
            assert(cells@.take(j + 1).drop_last() =~= cells@.take(j as int));
            assert(c as int % (width as int) == x && c as int / (width as int) == y);
            assert forall|q: int| 0 <= q < 256 implies (#[trigger] counts@[q]) == border_count(
                img@,
                width,
                height,
                cells@.take(j + 1),
                class,
                q as u8,
            ) by {
                assert((q as u8) as int == q);
            }
        }
        j = j + 1;
    }
    assert(cells@.take(cells@.len() as int) =~= cells@);
    counts
}

/// The class a component dissolves into, from how often each class borders it.
fn pick_dissolve_target(
    counts: &Vec<u64>,
    img: Ghost<Seq<u8>>,
    width: Ghost<u32>,
    height: Ghost<u32>,
    cells: Ghost<Seq<usize>>,
    class: u8,
) -> (r: u8)
    requires
        counts@.len() == 256,
        forall|k: int|
            0 <= k < 256 ==> (#[trigger] counts@[k]) == border_count(
                img@,
                width@,
                height@,
                cells@,
                class,
                k as u8,
            ),
    ensures
        r == dissolve_target(img@, width@, height@, cells@, class),
{
    let mut best: Option<u8> = None;
    let mut best_n: u64 = 0;
    let mut k: usize = 0;
    while k < 256
        invariant
            k <= 256,
            counts@.len() == 256,
            forall|q: int|
                0 <= q < 256 ==> (#[trigger] counts@[q]) == border_count(
                    img@,
                    width@,
                    height@,
                    cells@,
                    class,
                    q as u8,
                ),
            best == most_bordering_below(img@, width@, height@, cells@, class, k as int),
            best matches Some(b) ==> best_n == border_count(img@, width@, height@, cells@, class, b),
        decreases 256 - k,
    {
        let n = counts[k];
        proof {
            assert(((k as int) as u8) as int == k);
        }
        if n != 0 {
            if best.is_none() || n >= best_n {
                best = Some(k as u8);
                best_n = n;
            }
        }
        k = k + 1;
    }
    match best {
        Some(c) => c,
        None => 0,
    }
}

pub(crate) proof fn lemma_cells_of(labels: Seq<u32>, l: u32)
    requires
        labels.len() < 0x1_0000_0000,
    ensures
        forall|j: int|
            0 <= j < cells_of(labels, l).len() ==> (#[trigger] cells_of(labels, l)[j]) < labels.len()
                && labels[cells_of(labels, l)[j] as int] == l,
        forall|i: int|
            0 <= i < labels.len() ==> (cells_of(labels, l).contains(i as usize) <==> labels[i] == l),
        cells_of(labels, l).len() <= labels.len(),
        forall|a: int, b: int|
            0 <= a < b < cells_of(labels, l).len() ==> cells_of(labels, l)[a] < cells_of(labels, l)[b],
{
    let all = Seq::new(labels.len(), |i: int| i as usize);
    let p = has_label(labels, l);
    let f = all.filter(p);
    all.lemma_filter_len(p);
    assert forall|j: int| 0 <= j < f.len() implies (#[trigger] f[j]) < labels.len() && labels[f[j]
        as int] == l by {
        all.lemma_filter_pred(p, j);
        assert(f.contains(f[j]));
        all.lemma_filter_contains_rev(p, f[j]);
        let k = choose|k: int| 0 <= k < all.len() && all[k] == f[j];
        assert(all[k] == k as usize);
    }
    assert forall|i: int| 0 <= i < labels.len() implies (f.contains(i as usize) <==> labels[i]
        == l) by {
        if labels[i] == l {
            all.lemma_filter_contains(p, i);
        }
        if f.contains(i as usize) {
            let j = choose|j: int| 0 <= j < f.len() && f[j] == i as usize;
            assert(labels[f[j] as int] == l);
        }
    }
    lemma_filter_of_increasing(all, p);
}

/// A filtered increasing sequence is increasing.
proof fn lemma_filter_of_increasing(s: Seq<usize>, p: spec_fn(usize) -> bool)
    requires
        forall|a: int, b: int| 0 <= a < b < s.len() ==> s[a] < s[b],
    ensures
        forall|a: int, b: int| 0 <= a < b < s.filter(p).len() ==> s.filter(p)[a] < s.filter(p)[b],
    decreases s.len(),
{
    reveal(Seq::filter);
    if s.len() > 0 {
        lemma_filter_of_increasing(s.drop_last(), p);
        let f = s.drop_last().filter(p);
        assert forall|j: int| 0 <= j < f.len() implies #[trigger] f[j] < s.last() by {
            assert(f.contains(f[j]));
            s.drop_last().lemma_filter_contains_rev(p, f[j]);
            let k = choose|k: int| 0 <= k < s.drop_last().len() && s.drop_last()[k] == f[j];
            assert(s[k] == f[j]);
        }
    }
}

/// One component's turn in a dissolve pass (see [`dissolve_step`]).
fn dissolve_turn(
    img: &mut Vec<u8>,
    labels: &Vec<u32>,
    width: u32,
    height: u32,
    min_cells: &Vec<usize>,
    l: u32,
    cells: &Vec<usize>,
) -> (changed: bool)
    requires
        grid_ok(old(img)@, width, height),
        labels@.len() == old(img)@.len(),
        min_cells@.len() == 256,
        cells@ == cells_of(labels@, l),
    ensures
        (final(img)@, changed) == dissolve_step(old(img)@, labels@, width, height, min_cells@, l),
{
    proof {
        lemma_cells_of(labels@, l);
    }
    if l == 0 || cells.len() == 0 {
        return false;
    }
    let class = img[cells[0]];
    if cells.len() >= min_cells[class as usize] {
        return false;
    }
    let counts = border_counts(img, width, height, cells, class);
    let new = pick_dissolve_target(
        &counts,
        Ghost(img@),
        Ghost(width),
        Ghost(height),
        Ghost(cells@),
        class,
    );
    let ghost img0 = img@;
    let mut j: usize = 0;
    while j < cells.len()
        invariant
            img@.len() == img0.len(),
            img0.len() < 0x1_0000_0000,
            labels@.len() == img0.len(),
            cells@ == cells_of(labels@, l),
            j <= cells@.len(),
            forall|q: int| 0 <= q < cells@.len() ==> (#[trigger] cells@[q]) < img0.len(),
            img@ == Seq::new(
                img0.len(),
                |i: int| if cells@.take(j as int).contains(i as usize) { new } else { img0[i] },
            ),
        decreases cells@.len() - j,
    {
        let c = cells[j];
        img.set(c, new);
        proof {
            assert(cells@.take(j + 1) =~= cells@.take(j as int).push(c));
            assert forall|i: int| 0 <= i < img0.len() implies (#[trigger] cells@.take(j + 1).contains(
                i as usize,
            ) <==> cells@.take(j as int).contains(i as usize) || i == c) by {
                if i == c {
                    assert(cells@.take(j + 1)[j as int] == c);
                }
                if cells@.take(j + 1).contains(i as usize) {
                    let a = choose|a: int| 0 <= a < j + 1 && #[trigger] cells@.take(j + 1)[a] == i as usize;
                    if a < j {
                        assert(cells@.take(j as int)[a] == i as usize);
                    }
                }
                if cells@.take(j as int).contains(i as usize) {
                    let a = choose|a: int| 0 <= a < j && #[trigger] cells@.take(j as int)[a] == i as usize;
                    assert(cells@.take(j + 1)[a] == i as usize);
                }
            }
            assert(img@ =~= Seq::new(
                img0.len(),
                |i: int| if cells@.take(j + 1).contains(i as usize) { new } else { img0[i] },
            ));
        }
        j = j + 1;
    }
    proof {
        assert(cells@.take(cells@.len() as int) =~= cells@);
        assert(img@ =~= Seq::new(img0.len(), |i: int| if labels@[i] == l { new } else { img0[i] }));
    }
    true
}

/// One dissolve pass over a labelling of the grid (see [`dissolve_pass_of`]).
fn dissolve_pass(
    img: &mut Vec<u8>,
    labels: &Vec<u32>,
    width: u32,
    height: u32,
    min_cells: &Vec<usize>,
) -> (changed: bool)
    requires
        grid_ok(old(img)@, width, height),
        labels@.len() == old(img)@.len(),
        forall|i: int| 0 <= i < labels@.len() ==> labels@[i] <= old(img)@.len(),
        min_cells@.len() == 256,
    ensures
        (final(img)@, changed) == dissolve_pass_of(old(img)@, labels@, width, height, min_cells@),
        final(img)@.len() == old(img)@.len(),
{
    let n = img.len();
    let groups = group_cells(labels, n + 1);
    let ghost img0 = img@;
    let mut changed = false;
    let mut l: usize = 0;
    while l <= n
        invariant
            n == img0.len(),
            grid_ok(img@, width, height),
            img@.len() == n,
            labels@.len() == n,
            min_cells@.len() == 256,
            groups@.len() == n + 1,
            forall|k: int| 0 <= k < n + 1 ==> (#[trigger] groups@[k])@ == cells_of(labels@, k as u32),
            l <= n + 1,
            (img@, changed) == dissolve_turns(img0, labels@, width, height, min_cells@, l as int),
        decreases n + 1 - l,
    {
        let ch = dissolve_turn(img, labels, width, height, min_cells, l as u32, &groups[l]);
        proof {
            lemma_cells_of(labels@, l as u32);
        }
        changed = changed || ch;
        l = l + 1;
    }
    changed
}

/// The grid after dissolve passes repeated until one changes nothing, each pass on a fresh
/// labelling, for at most `fuel` passes; and whether it settled within them.
pub open spec fn settled_grid(
    img: Seq<u8>,
    width: u32,
    height: u32,
    min_cells: Seq<usize>,
    fuel: nat,
) -> (Seq<u8>, bool)
    decreases fuel,
{
    if fuel == 0 {
        (img, false)
    } else {
        let pass = dissolve_pass_of(
            img,
            four_connected_labels(img, width, height),
            width,
            height,
            min_cells,
        );
        if pass.1 {
            settled_grid(pass.0, width, height, min_cells, (fuel - 1) as nat)
        } else {
            (pass.0, true)
        }
    }
}

/// A pass whose turns change nothing leaves the grid as it was, every turn finding its
/// component large enough (or empty).
proof fn lemma_unchanged_turns(
    img: Seq<u8>,
    labels: Seq<u32>,
    width: u32,
    height: u32,
    min_cells: Seq<usize>,
    k: int,
)
    requires
        !dissolve_turns(img, labels, width, height, min_cells, k).1,
    ensures
        dissolve_turns(img, labels, width, height, min_cells, k).0 == img,
        forall|l: int|
            0 <= l < k ==> !(#[trigger] dissolve_step(img, labels, width, height, min_cells, l as u32)).1,
    decreases k,
{
    if k > 0 {
        lemma_unchanged_turns(img, labels, width, height, min_cells, k - 1);
    }
}

/// A settled grid is a fixpoint: one more pass over its own labelling changes nothing.
proof fn lemma_settled_is_fixpoint(img: Seq<u8>, width: u32, height: u32, min_cells: Seq<usize>, fuel: nat)
    requires
        settled_grid(img, width, height, min_cells, fuel).1,
    ensures
        ({
            let g = settled_grid(img, width, height, min_cells, fuel).0;
            &&& g.len() == img.len()
            &&& !dissolve_pass_of(g, four_connected_labels(g, width, height), width, height, min_cells).1
        }),
    decreases fuel,
{
    let labels = four_connected_labels(img, width, height);
    let pass = dissolve_pass_of(img, labels, width, height, min_cells);
    if pass.1 {
        lemma_turns_len(img, labels, width, height, min_cells, img.len() as int + 1);
        lemma_settled_is_fixpoint(pass.0, width, height, min_cells, (fuel - 1) as nat);
    } else {
        lemma_unchanged_turns(img, labels, width, height, min_cells, img.len() as int + 1);
    }
}

/// The turns of a pass keep the grid's size.
pub(crate) proof fn lemma_turns_len(
    img: Seq<u8>,
    labels: Seq<u32>,
    width: u32,
    height: u32,
    min_cells: Seq<usize>,
    k: int,
)
    ensures
        dissolve_turns(img, labels, width, height, min_cells, k).0.len() == img.len(),
    decreases k,
{
    if k > 0 {
        lemma_turns_len(img, labels, width, height, min_cells, k - 1);
    }
}

/// Once dissolving has settled, no component is below the minimum cell count of its class:
/// every label of the settled grid that has cells has at least as many as its class asks.
pub proof fn lemma_settled_components_reach_minimum(
    pixels: Seq<u8>,
    width: u32,
    height: u32,
    min_cells: Seq<usize>,
    fuel: nat,
    l: u32,
)
    requires
        settled_grid(pixels, width, height, min_cells, fuel).1,
        1 <= l <= pixels.len(),
        cells_of(
            four_connected_labels(settled_grid(pixels, width, height, min_cells, fuel).0, width, height),
            l,
        ).len() > 0,
    ensures
        ({
            let g = settled_grid(pixels, width, height, min_cells, fuel).0;
            let cells = cells_of(four_connected_labels(g, width, height), l);
            cells.len() >= min_cells[g[cells[0] as int] as int]
        }),
{
    let g = settled_grid(pixels, width, height, min_cells, fuel).0;
    let labels = four_connected_labels(g, width, height);
    lemma_settled_is_fixpoint(pixels, width, height, min_cells, fuel);
    lemma_unchanged_turns(g, labels, width, height, min_cells, g.len() as int + 1);
    let li = l as int;
    assert(li as u32 == l);
    assert(!dissolve_step(g, labels, width, height, min_cells, li as u32).1);
}

/// Dissolve the components below their class's minimum cell count into their surroundings,
/// pass after pass until a pass changes nothing. Returns the grid and its labelling. Every
/// pass that changes the grid lowers its number of components, so it settles within one
/// pass more than there are cells.
pub fn dissolve_small_components(
    pixels: Vec<u8>,
    width: u32,
    height: u32,
    min_cells: &Vec<usize>,
) -> (r: (Vec<u8>, Vec<u32>))
    requires
        grid_ok(pixels@, width, height),
        labels_fit(pixels@, width, height),
        min_cells@.len() == 256,
    ensures
        settled_grid(pixels@, width, height, min_cells@, pixels@.len() + 1).1,
        r.0@ == settled_grid(pixels@, width, height, min_cells@, pixels@.len() + 1).0,
        r.1@ == four_connected_labels(r.0@, width, height),
        r.0@.len() == pixels@.len(),
        r.1@.len() == r.0@.len(),
        forall|i: int| 0 <= i < r.1@.len() ==> r.1@[i] <= r.0@.len(),
{
    let mut img = pixels;
    let mut labels = label_components(&img, width, height);
    let mut fuel: u64 = img.len() as u64 + 1;
    let mut settled = false;
    while fuel > 0 && !settled
        invariant
            grid_ok(img@, width, height),
            labels_fit(img@, width, height),
            img@.len() == pixels@.len(),
            is_component_labelling(img@, width, height, labels@),
            labels@ == four_connected_labels(img@, width, height),
            labels@.len() == img@.len(),
            forall|i: int| 0 <= i < labels@.len() ==> labels@[i] <= img@.len(),
            min_cells@.len() == 256,
            !settled ==> max_label(labels@) < fuel,
            settled_grid(pixels@, width, height, min_cells@, pixels@.len() + 1) == if settled {
                (img@, true)
            } else {
                settled_grid(img@, width, height, min_cells@, fuel as nat)
            },
        decreases fuel,
    {
        let ghost before = img@;
        let ghost before_labels = labels@;
        let changed = dissolve_pass(&mut img, &labels, width, height, min_cells);
        proof {
            if changed {
                crate::settling::lemma_changing_pass_fits(before, before_labels, width, height, min_cells@);
            } else {
                lemma_unchanged_turns(before, before_labels, width, height, min_cells@, before.len() as int + 1);
            }
        }
        labels = label_components(&img, width, height);
        proof {
            if changed {
                crate::settling::lemma_changing_pass_merges(
                    before,
                    before_labels,
                    labels@,
                    width,
                    height,
                    min_cells@,
                );
            }
        }
        if !changed {
            settled = true;
        }
        fuel = fuel - 1;
    }
    (img, labels)
}

// ---------------------------------------------------------------------------------------
// Junctions and boundary edges of the labelled grid
// ---------------------------------------------------------------------------------------

/// The label of cell (`x`, `y`), 0 outside the grid.
pub open spec fn label_at(labels: Seq<u32>, width: u32, height: u32, x: int, y: int) -> u32 {
    if 0 <= x < width && 0 <= y < height {
        labels[y * width + x]
    } else {
        0
    }
}

/// The number of the lattice vertex (`x`, `y`), 0 <= x <= width, 0 <= y <= height. Vertices
/// are numbered column by column, so their numbers are in the order of their coordinates
/// (x first).
pub open spec fn vertex_id(height: u32, x: int, y: int) -> u64 {
    (x * (height + 1) + y) as u64
}

/// How many distinct values there are among four.
pub open spec fn distinct_among_four(a: u32, b: u32, c: u32, d: u32) -> int {
    1 + (if b != a {
        1int
    } else {
        0int
    }) + (if c != a && c != b {
        1int
    } else {
        0int
    }) + (if d != a && d != b && d != c {
        1int
    } else {
        0int
    })
}

/// A junction: a lattice vertex where three or more labels meet, or where the same two
/// labels pinch diagonally. Boundary chains are cut at junctions.
pub open spec fn is_junction(labels: Seq<u32>, width: u32, height: u32, x: int, y: int) -> bool {
    let a = label_at(labels, width, height, x - 1, y - 1);
    let b = label_at(labels, width, height, x, y - 1);
    let c = label_at(labels, width, height, x - 1, y);
    let d = label_at(labels, width, height, x, y);
    distinct_among_four(a, b, c, d) >= 3 || (a == d && b == c && a != b)
}

/// The lattice fits the machine: every vertex number fits a `usize`.
pub open spec fn lattice_ok(width: u32, height: u32) -> bool {
    (width + 1) * (height + 1) < usize::MAX
}

/// The label of cell (`x`, `y`), 0 outside the grid.
fn label_at_exec(labels: &Vec<u32>, width: u32, height: u32, x: i64, y: i64) -> (r: u32)
    requires
        labels@.len() == width * height,
    ensures
        r == label_at(labels@, width, height, x as int, y as int),
{
    let n = labels.len();
    if 0 <= x && x < width as i64 && 0 <= y && y < height as i64 {
        proof {
            assert(y * width + x < width * height) by (nonlinear_arith)
                requires
                    0 <= x < width,
                    0 <= y < height,
            ;
        }
        proof {
            assert(y * width <= y * width + x) by (nonlinear_arith)
                requires
                    0 <= x,
                    0 <= y,
            ;
        }
        labels[(y as usize) * (width as usize) + (x as usize)]
    } else {
        0
    }
}

/// Which lattice vertices are junctions, by vertex number.
pub fn junction_vertices(labels: &Vec<u32>, width: u32, height: u32) -> (r: Vec<bool>)
    requires
        labels@.len() == width * height,
        lattice_ok(width, height),
    ensures
        r@.len() == (width + 1) * (height + 1),
        forall|x: int, y: int|
            0 <= x <= width && 0 <= y <= height ==> r@[vertex_id(height, x, y) as int]
                == is_junction(labels@, width, height, x, y),
{
    proof {
        assert(width + 1 <= (width + 1) * (height + 1)) by (nonlinear_arith);
        assert(height + 1 <= (width + 1) * (height + 1)) by (nonlinear_arith);
    }
    let total = (width as usize + 1) * (height as usize + 1);
    let mut r: Vec<bool> = Vec::with_capacity(total);
    let mut x: u64 = 0;
    while x <= width as u64
        invariant
            labels@.len() == width * height,
            lattice_ok(width, height),
            x <= width + 1,
            r@.len() == x * (height + 1),
            forall|xx: int, y: int|
                0 <= xx < x && 0 <= y <= height ==> r@[vertex_id(height, xx, y) as int]
                    == is_junction(labels@, width, height, xx, y),
        decreases width + 1 - x,
    {
        let mut y: u64 = 0;
        while y <= height as u64
            invariant
                labels@.len() == width * height,
                lattice_ok(width, height),
                x <= width,
                y <= height + 1,
                r@.len() == x * (height + 1) + y,
                forall|xx: int, yy: int|
                    0 <= xx < x && 0 <= yy <= height ==> r@[vertex_id(height, xx, yy) as int]
                        == is_junction(labels@, width, height, xx, yy),
                forall|yy: int|
                    0 <= yy < y ==> r@[vertex_id(height, x as int, yy) as int] == is_junction(
                        labels@,
                        width,
                        height,
                        x as int,
                        yy,
                    ),
            decreases height + 1 - y,
        {
            let xi = x as i64;
            let yi = y as i64;
            let a = label_at_exec(labels, width, height, xi - 1, yi - 1);
            let b = label_at_exec(labels, width, height, xi, yi - 1);
            let c = label_at_exec(labels, width, height, xi - 1, yi);
            let d = label_at_exec(labels, width, height, xi, yi);
            let mut distinct: u32 = 1;
            if b != a {
                distinct = distinct + 1;
            }
            if c != a && c != b {
                distinct = distinct + 1;
            }
            if d != a && d != b && d != c {
                distinct = distinct + 1;
            }
            let checker = a == d && b == c && a != b;
            proof {
                assert(x * (height + 1) + y < (width + 1) * (height + 1)) by (nonlinear_arith)
                    requires
                        x <= width,
                        y <= height,
                ;
                assert(vertex_id(height, x as int, y as int) == x * (height + 1) + y);
            }
            r.push(distinct >= 3 || checker);
            proof {
                assert forall|xx: int, yy: int|
                    0 <= xx < x && 0 <= yy <= height implies r@[vertex_id(height, xx, yy) as int]
                    == is_junction(labels@, width, height, xx, yy) by {
                    assert(xx * (height + 1) + yy < x * (height + 1)) by (nonlinear_arith)
                        requires
                            0 <= xx < x,
                            0 <= yy <= height,
                    ;
                }
            }
            y = y + 1;
        }
        proof {
            assert((x + 1) * (height + 1) == x * (height + 1) + (height + 1)) by (nonlinear_arith);
            assert forall|xx: int, yy: int|
                0 <= xx < x + 1 && 0 <= yy <= height implies r@[vertex_id(height, xx, yy) as int]
                == is_junction(labels@, width, height, xx, yy) by {
                if xx < x {
                    assert(r@[vertex_id(height, xx, yy) as int] == is_junction(labels@, width, height, xx, yy));
                }
            }
        }
        x = x + 1;
    }
    r
}

/// The boundary edge on one side of a cell of label `l`, from `from` to `to` with the cell
/// on the left: present when the cell across that side has another label.
pub open spec fn side_edge(
    labels: Seq<u32>,
    width: u32,
    height: u32,
    l: u32,
    across_x: int,
    across_y: int,
    from: u64,
    to: u64,
) -> Seq<BoundaryEdge> {
    let o = label_at(labels, width, height, across_x, across_y);
    if o != l {
        seq![(from, to, o)]
    } else {
        Seq::empty()
    }
}

/// The boundary edges of cell `c`, counter-clockwise around it (top, right, bottom, left),
/// each with the label across it.
pub open spec fn cell_edges(labels: Seq<u32>, width: u32, height: u32, c: int) -> Seq<BoundaryEdge> {
    let x = c % (width as int);
    let y = c / (width as int);
    let l = labels[c];
    side_edge(labels, width, height, l, x, y - 1, vertex_id(height, x, y), vertex_id(height, x + 1, y))
        + side_edge(
        labels,
        width,
        height,
        l,
        x + 1,
        y,
        vertex_id(height, x + 1, y),
        vertex_id(height, x + 1, y + 1),
    ) + side_edge(
        labels,
        width,
        height,
        l,
        x,
        y + 1,
        vertex_id(height, x + 1, y + 1),
        vertex_id(height, x, y + 1),
    ) + side_edge(labels, width, height, l, x - 1, y, vertex_id(height, x, y + 1), vertex_id(height, x, y))
}

/// The boundary edges of the component with label `l`, cell by cell in row order.
pub open spec fn component_edges_of(labels: Seq<u32>, width: u32, height: u32, l: u32) -> Seq<
    BoundaryEdge,
> {
    cells_of(labels, l).map_values(|c: usize| cell_edges(labels, width, height, c as int)).flatten()
}

/// The boundary edges of cell `i` (see [`cell_edges`]).
fn cell_edges_exec(labels: &Vec<u32>, width: u32, height: u32, i: usize) -> (r: Vec<BoundaryEdge>)
    requires
        labels@.len() == width * height,
        width * height < 0x1_0000_0000,
        lattice_ok(width, height),
        i < labels@.len(),
    ensures
        r@ == cell_edges(labels@, width, height, i as int),
        vertices_below(r@, ((width + 1) * (height + 1)) as u64),
{
    let l = labels[i];
    proof {
        assert(width > 0) by (nonlinear_arith)
            requires
                i < width * height,
        ;
    }
    let x = (i % (width as usize)) as i64;
    let y = (i / (width as usize)) as i64;
    let hh = height as u64 + 1;
    proof {
        assert(x < width && y < height) by (nonlinear_arith)
            requires
                i < width * height,
                x == (i as int) % (width as int),
                y == (i as int) / (width as int),
                width > 0,
        ;
        assert((x + 1) * (height + 1) + y + 1 < (width + 1) * (height + 1) && x * (height + 1)
            <= (x + 1) * (height + 1)) by (nonlinear_arith)
            requires
                0 <= x < width,
                0 <= y < height,
        ;
    }
    let xu = x as u64;
    let yu = y as u64;
    let v00 = xu * hh + yu;
    let v10 = (xu + 1) * hh + yu;
    let v11 = (xu + 1) * hh + yu + 1;
    let v01 = xu * hh + yu + 1;
    let mut r: Vec<BoundaryEdge> = Vec::new();
    let o = label_at_exec(labels, width, height, x, y - 1);
    if o != l {
        r.push((v00, v10, o));
    }
    let o = label_at_exec(labels, width, height, x + 1, y);
    if o != l {
        r.push((v10, v11, o));
    }
    let o = label_at_exec(labels, width, height, x, y + 1);
    if o != l {
        r.push((v11, v01, o));
    }
    let o = label_at_exec(labels, width, height, x - 1, y);
    if o != l {
        r.push((v01, v00, o));
    }
    proof {
        assert(vertex_id(height, x as int, y as int) == v00);
        assert(vertex_id(height, x + 1, y as int) == v10);
        assert(vertex_id(height, x + 1, y + 1) == v11);
        assert(vertex_id(height, x as int, y + 1) == v01);
        assert(r@ =~= cell_edges(labels@, width, height, i as int));
        let bound = ((width + 1) * (height + 1)) as u64;
        assert(v00 < bound && v10 < bound && v11 < bound && v01 < bound);
    }
    r
}

/// The boundary edges of every component, by label (label 0, the background, has none).
pub fn component_edges(labels: &Vec<u32>, width: u32, height: u32, n_groups: usize) -> (e: Vec<
    Vec<BoundaryEdge>,
>)
    requires
        labels@.len() == width * height,
        width * height < 0x1_0000_0000,
        lattice_ok(width, height),
        n_groups <= 0x1_0000_0000,
        forall|i: int| 0 <= i < labels@.len() ==> labels@[i] < n_groups,
    ensures
        e@.len() == n_groups,
        e@.len() > 0 ==> e@[0]@ == Seq::<BoundaryEdge>::empty(),
        forall|l: int|
            0 <= l < n_groups ==> vertices_below(
                (#[trigger] e@[l])@,
                ((width + 1) * (height + 1)) as u64,
            ),
        forall|l: int|
            1 <= l < n_groups ==> (#[trigger] e@[l])@ == component_edges_of(
                labels@,
                width,
                height,
                l as u32,
            ),
{
    let mut e: Vec<Vec<BoundaryEdge>> = Vec::with_capacity(n_groups);
    let mut k: usize = 0;
    while k < n_groups
        invariant
            k <= n_groups,
            e@.len() == k,
            forall|q: int| 0 <= q < k ==> (#[trigger] e@[q])@ == Seq::<BoundaryEdge>::empty(),
        decreases n_groups - k,
    {
        e.push(Vec::new());
        k = k + 1;
    }
    let n = labels.len();
    let ghost f = |c: usize| cell_edges(labels@, width, height, c as int);
    let mut i: usize = 0;
    while i < n
        invariant
            n == labels@.len(),
            labels@.len() == width * height,
            width * height < 0x1_0000_0000,
            lattice_ok(width, height),
            n_groups <= 0x1_0000_0000,
            forall|j: int| 0 <= j < labels@.len() ==> labels@[j] < n_groups,
            f == (|c: usize| cell_edges(labels@, width, height, c as int)),
            i <= n,
            e@.len() == n_groups,
            e@.len() > 0 ==> e@[0]@ == Seq::<BoundaryEdge>::empty(),
            forall|q: int|
                0 <= q < n_groups ==> vertices_below(
                    (#[trigger] e@[q])@,
                    ((width + 1) * (height + 1)) as u64,
                ),
            forall|q: int|
                1 <= q < n_groups ==> (#[trigger] e@[q])@ == Seq::new(i as nat, |j: int| j as usize).filter(
                    has_label(labels@, q as u32),
                ).map_values(f).flatten(),
        decreases n - i,
    {
        let l = labels[i];
        if l != 0 {
            let ghost e0 = e@[l as int]@;
            let mut ce = cell_edges_exec(labels, width, height, i);
            e[l as usize].append(&mut ce);
            proof {
                assert(e@[l as int]@ =~= e0 + cell_edges(labels@, width, height, i as int));
            }
        }
        proof {
            assert forall|q: int| 1 <= q < n_groups implies (#[trigger] e@[q])@ == Seq::new(
                (i + 1) as nat,
                |j: int| j as usize,
            ).filter(has_label(labels@, q as u32)).map_values(f).flatten() by {
                let pred = has_label(labels@, q as u32);
                let before = Seq::new(i as nat, |j: int| j as usize);
                assert(Seq::new((i + 1) as nat, |j: int| j as usize) =~= before.push(i));
                before.lemma_filter_push(i, pred);
                if q == l {
                    assert(before.filter(pred).push(i).map_values(f) =~= before.filter(pred).map_values(
                        f,
                    ).push(f(i)));
                    before.filter(pred).map_values(f).lemma_flatten_push(f(i));
                }
            }
        }
        i = i + 1;
    }
    proof {
        assert(Seq::new(n as nat, |j: int| j as usize) =~= Seq::new(
            labels@.len(),
            |j: int| j as usize,
        ));
    }
    e
}

// ---------------------------------------------------------------------------------------
// Cutting rings into shared chains
// ---------------------------------------------------------------------------------------

/// The key under which a boundary chain shared by two components is simplified once for
/// both: the two labels (smaller first), the chain's end vertices (smaller first), and its
/// smallest interior vertex (its first vertex when it has no interior), which tells apart
/// parallel chains between the same pair.
pub type ChainKey = (u32, u32, u64, u64, u64);

/// How a ring is cut: a ring that meets no junction is one closed chain between exactly
/// two components; any other ring is cut at its junctions into chains, each shared with one
/// other component.
pub enum RingChains {
    Island(ChainKey),
    Chains(Vec<(Vec<u64>, ChainKey)>),
}

/// How a ring is cut, chains by their vertex sequences.
pub ghost enum RingChainsView {
    Island(ChainKey),
    Chains(Seq<(Seq<u64>, ChainKey)>),
}

impl View for RingChains {
    type V = RingChainsView;

    open spec fn view(&self) -> RingChainsView {
        match self {
            RingChains::Island(k) => RingChainsView::Island(*k),
            RingChains::Chains(v) => RingChainsView::Chains(
                v@.map_values(|c: (Vec<u64>, ChainKey)| (c.0@, c.1)),
            ),
        }
    }
}

/// The smallest vertex of a non-empty sequence.
pub open spec fn seq_min(s: Seq<u64>) -> u64
    decreases s.len(),
{
    if s.len() <= 1 {
        s[0]
    } else {
        let m = seq_min(s.drop_last());
        if s.last() < m {
            s.last()
        } else {
            m
        }
    }
}

/// Whether position `i` of a ring is at a junction.
pub open spec fn at_junction(vs: Seq<u64>, junction: Seq<bool>) -> spec_fn(int) -> bool {
    |i: int| junction[vs[i] as int]
}

/// The positions of a ring's junctions, in order.
pub open spec fn junction_positions(vs: Seq<u64>, junction: Seq<bool>) -> Seq<int> {
    Seq::new(vs.len(), |i: int| i).filter(at_junction(vs, junction))
}

/// The chain of a ring from position `a` on to position `b`, both included, going round
/// the ring once when `a == b`.
pub open spec fn chain_from(vs: Seq<u64>, a: int, b: int) -> Seq<u64> {
    let n = vs.len() as int;
    let steps = if b > a {
        b - a
    } else {
        n - a + b
    };
    Seq::new((steps + 1) as nat, |t: int| vs[(a + t) % n])
}

/// The key of a chain of the component `label` shared with the component `other`.
pub open spec fn chain_key(label: u32, other: u32, chain: Seq<u64>) -> ChainKey {
    let lo = if label < other {
        label
    } else {
        other
    };
    let hi = if label < other {
        other
    } else {
        label
    };
    let first = chain[0];
    let last = chain.last();
    let e0 = if first < last {
        first
    } else {
        last
    };
    let e1 = if first < last {
        last
    } else {
        first
    };
    let interior = chain.subrange(1, chain.len() - 1);
    let vmin = if interior.len() > 0 {
        seq_min(interior)
    } else {
        chain[0]
    };
    (lo, hi, e0, e1, vmin)
}

/// The smallest vertex of a non-empty sequence is one of its vertices and no larger than
/// any of them.
proof fn lemma_seq_min_is_min(s: Seq<u64>)
    requires
        s.len() >= 1,
    ensures
        s.contains(seq_min(s)),
        forall|i: int| 0 <= i < s.len() ==> seq_min(s) <= #[trigger] s[i],
    decreases s.len(),
{
    if s.len() > 1 {
        lemma_seq_min_is_min(s.drop_last());
        let m = seq_min(s.drop_last());
        let w = choose|i: int| 0 <= i < s.drop_last().len() && s.drop_last()[i] == m;
        assert(s[w] == m);
        assert forall|i: int| 0 <= i < s.len() implies seq_min(s) <= #[trigger] s[i] by {
            if i < s.len() - 1 {
                assert(s.drop_last()[i] == s[i]);
            }
        }
        assert(s[s.len() - 1] == s.last());
    } else {
        assert(s[0] == seq_min(s));
    }
}

/// A sequence read backwards has the same smallest vertex.
proof fn lemma_seq_min_reverse(s: Seq<u64>)
    requires
        s.len() >= 1,
    ensures
        seq_min(s.reverse()) == seq_min(s),
{
    let r = s.reverse();
    lemma_seq_min_is_min(s);
    lemma_seq_min_is_min(r);
    let i = choose|i: int| 0 <= i < s.len() && s[i] == seq_min(s);
    let j = choose|j: int| 0 <= j < r.len() && r[j] == seq_min(r);
    assert(r[s.len() - 1 - i] == s[i]);
    assert(s[s.len() - 1 - j] == r[j]);
}

/// Both components along a shared chain find it under the same key: the chain seen from
/// the other side, walked the other way round, has the key it has from this side. Chains
/// have at least two vertices; one of exactly two distinct vertices, with no interior
/// vertex, is keyed by its first vertex and so gets a different key from each side, and is
/// left out.
pub proof fn lemma_chain_key_shared(label: u32, other: u32, chain: Seq<u64>)
    requires
        chain.len() >= 3 || (chain.len() == 2 && chain[0] == chain[1]),
    ensures
        chain_key(label, other, chain) == chain_key(other, label, chain.reverse()),
{
    let n = chain.len() as int;
    let r = chain.reverse();
    assert(r[0] == chain.last());
    assert(r.last() == chain[0]);
    if n >= 3 {
        let inner = chain.subrange(1, n - 1);
        assert(r.subrange(1, n - 1) =~= inner.reverse());
        lemma_seq_min_reverse(inner);
    } else {
        assert(chain.subrange(1, 1).len() == 0);
        assert(r.subrange(1, 1).len() == 0);
    }
}

/// How a ring of the component `label` is cut (see [`RingChains`]).
pub open spec fn ring_chains_of(
    vs: Seq<u64>,
    others: Seq<u32>,
    label: u32,
    junction: Seq<bool>,
) -> RingChainsView {
    let jp = junction_positions(vs, junction);
    if jp.len() == 0 {
        let other = others[0];
        let vmin = seq_min(vs);
        let lo = if label < other {
            label
        } else {
            other
        };
        let hi = if label < other {
            other
        } else {
            label
        };
        RingChainsView::Island((lo, hi, vmin, vmin, vmin))
    } else {
        RingChainsView::Chains(
            Seq::new(
                jp.len(),
                |k: int|
                    {
                        let a = jp[k];
                        let ch = chain_from(vs, a, jp[(k + 1) % (jp.len() as int)]);
                        (ch, chain_key(label, others[a], ch))
                    },
            ),
        )
    }
}

/// The smallest of `s[lo..hi]`, a non-empty range.
fn min_in(s: &Vec<u64>, lo: usize, hi: usize) -> (r: u64)
    requires
        lo < hi <= s@.len(),
    ensures
        r == seq_min(s@.subrange(lo as int, hi as int)),
{
    let mut m = s[lo];
    let mut i = lo + 1;
    assert(s@.subrange(lo as int, lo + 1) =~= seq![s@[lo as int]]);
    while i < hi
        invariant
            lo < i <= hi <= s@.len(),
            m == seq_min(s@.subrange(lo as int, i as int)),
        decreases hi - i,
    {
        assert(s@.subrange(lo as int, i + 1).drop_last() =~= s@.subrange(lo as int, i as int));
        if s[i] < m {
            m = s[i];
        }
        i = i + 1;
    }
    m
}

/// The chain of a ring from position `a` on to position `b`, and its key.
fn cut_chain(vs: &Vec<u64>, label: u32, other: u32, a: usize, b: usize) -> (r: (Vec<u64>, ChainKey))
    requires
        a < vs@.len(),
        b < vs@.len(),
    ensures
        r.0@ == chain_from(vs@, a as int, b as int),
        r.1 == chain_key(label, other, chain_from(vs@, a as int, b as int)),
{
    let n = vs.len();
    let steps = if b > a {
        b - a
    } else {
        n - a + b
    };
    let ghost want = chain_from(vs@, a as int, b as int);
    let mut chain: Vec<u64> = Vec::with_capacity(steps);
    chain.push(vs[a]);
    assert((a + 0) % (n as int) == a) by (nonlinear_arith)
        requires
            a < n,
    ;
    assert(chain@ =~= want.take(1));
    let mut t: usize = 0;
    while t < steps
        invariant
            n == vs@.len(),
            a < n,
            1 <= steps <= n,
            want == chain_from(vs@, a as int, b as int),
            want.len() == steps + 1,
            t <= steps,
            chain@ == want.take(t + 1),
        decreases steps - t,
    {
        let i = if t + 1 < n - a {
            a + t + 1
        } else {
            t + 1 - (n - a)
        };
        assert(i == (a + t + 1) % (n as int)) by (nonlinear_arith)
            requires
                a < n,
                t + 1 <= n,
                i == if t + 1 < n - a {
                    a + t + 1
                } else {
                    t + 1 - (n - a)
                },
        ;
        chain.push(vs[i]);
        proof {
            assert(chain@ =~= want.take(t + 2));
        }
        t = t + 1;
    }
    assert(want.take(want.len() as int) =~= want);
    let lo = if label < other {
        label
    } else {
        other
    };
    let hi = if label < other {
        other
    } else {
        label
    };
    let first = chain[0];
    let last = chain[chain.len() - 1];
    let e0 = if first < last {
        first
    } else {
        last
    };
    let e1 = if first < last {
        last
    } else {
        first
    };
    let vmin = if chain.len() > 2 {
        min_in(&chain, 1, chain.len() - 1)
    } else {
        chain[0]
    };
    (chain, (lo, hi, e0, e1, vmin))
}

/// Positions as integers.
pub open spec fn as_ints(s: Seq<usize>) -> Seq<int> {
    s.map_values(|q: usize| q as int)
}

/// Cut a ring of the component `label` at its junctions (see [`RingChains`]). `vs` are the
/// ring's vertices, `others` the label across each of its segments, and `junction` tells
/// for each vertex number whether it is a junction.
pub fn ring_chains(vs: &Vec<u64>, others: &Vec<u32>, label: u32, junction: &Vec<bool>) -> (r:
    RingChains)
    requires
        vs@.len() >= 1,
        others@.len() == vs@.len(),
        forall|i: int| 0 <= i < vs@.len() ==> (#[trigger] vs@[i]) < junction@.len(),
    ensures
        r@ == ring_chains_of(vs@, others@, label, junction@),
{
    let n = vs.len();
    let ghost p = at_junction(vs@, junction@);
    let mut jp: Vec<usize> = Vec::new();
    let mut i: usize = 0;
    while i < n
        invariant
            n == vs@.len(),
            forall|q: int| 0 <= q < vs@.len() ==> (#[trigger] vs@[q]) < junction@.len(),
            p == at_junction(vs@, junction@),
            i <= n,
            as_ints(jp@) == Seq::new(i as nat, |q: int| q).filter(p),
            forall|q: int| 0 <= q < jp@.len() ==> (#[trigger] jp@[q]) < i,
        decreases n - i,
    {
        let ghost before = jp@;
        let v = vs[i];
        let jl: usize = junction.len();
        assert(v < jl);
        let hit = junction[v as usize];
        if hit {
            jp.push(i);
        }
        proof {
            let s0 = Seq::new(i as nat, |q: int| q);
            assert(Seq::new((i + 1) as nat, |q: int| q) =~= s0.push(i as int));
            s0.lemma_filter_push(i as int, p);
            assert(p(i as int) == hit);
            if hit {
                assert(jp@ == before.push(i));
                assert(as_ints(jp@) =~= as_ints(before).push(i as int));
            }
        }
        i = i + 1;
    }
    let ghost jps = junction_positions(vs@, junction@);
    assert(Seq::new(n as nat, |q: int| q) =~= Seq::new(vs@.len(), |q: int| q));
    assert(jps == as_ints(jp@));
    if jp.len() == 0 {
        let other = others[0];
        let vmin = min_in(vs, 0, n);
        assert(vs@.subrange(0, n as int) =~= vs@);
        let lo = if label < other {
            label
        } else {
            other
        };
        let hi = if label < other {
            other
        } else {
            label
        };
        return RingChains::Island((lo, hi, vmin, vmin, vmin));
    }
    let m = jp.len();
    let mut chains: Vec<(Vec<u64>, ChainKey)> = Vec::with_capacity(m);
    let mut k: usize = 0;
    while k < m
        invariant
            n == vs@.len(),
            others@.len() == n,
            m == jp@.len(),
            m > 0,
            forall|q: int| 0 <= q < m ==> (#[trigger] jp@[q]) < n,
            jps == as_ints(jp@),
            k <= m,
            chains@.len() == k,
            forall|q: int|
                0 <= q < k ==> (#[trigger] chains@[q]).0@ == chain_from(
                    vs@,
                    jps[q],
                    jps[(q + 1) % (m as int)],
                ) && chains@[q].1 == chain_key(
                    label,
                    others@[jps[q]],
                    chain_from(vs@, jps[q], jps[(q + 1) % (m as int)]),
                ),
        decreases m - k,
    {
        let a = jp[k];
        let b = jp[(k + 1) % m];
        let c = cut_chain(vs, label, others[a], a, b);
        chains.push(c);
        k = k + 1;
    }
    let r = RingChains::Chains(chains);
    proof {
        assert(r@ == ring_chains_of(vs@, others@, label, junction@)) by {
            let want = Seq::new(
                jps.len(),
                |q: int|
                    {
                        let a = jps[q];
                        let ch = chain_from(vs@, a, jps[(q + 1) % (jps.len() as int)]);
                        (ch, chain_key(label, others@[a], ch))
                    },
            );
            assert(chains@.map_values(|c: (Vec<u64>, ChainKey)| (c.0@, c.1)) =~= want);
        }
    }
    r
}

// ---------------------------------------------------------------------------------------
// Tracing the components of a class grid
// ---------------------------------------------------------------------------------------

/// Which vertices are junctions, by vertex number.
pub open spec fn junction_table(labels: Seq<u32>, width: u32, height: u32) -> Seq<bool> {
    Seq::new(
        ((width + 1) * (height + 1)) as nat,
        |id: int| is_junction(labels, width, height, id / (height + 1), id % (height + 1)),
    )
}

/// The traced outline of one component: its label, its class, and its boundary rings, each
/// with its vertices and how it is cut into chains.
pub struct ComponentOutline {
    pub label: u32,
    pub class: u8,
    pub rings: Vec<(Vec<u64>, RingChains)>,
}

/// An outline by its values: label, class, and each ring's vertices and cut.
pub open spec fn outline_view(o: ComponentOutline) -> (u32, u8, Seq<(Seq<u64>, RingChainsView)>) {
    (o.label, o.class, o.rings@.map_values(|r: (Vec<u64>, RingChains)| (r.0@, r.1@)))
}

/// The rings of a component with their cuts.
pub open spec fn cut_rings(
    rings: Seq<(Seq<u64>, Seq<u32>)>,
    l: u32,
    junction: Seq<bool>,
) -> Seq<(Seq<u64>, RingChainsView)> {
    rings.map_values(|r: (Seq<u64>, Seq<u32>)| (r.0, ring_chains_of(r.0, r.1, l, junction)))
}

/// The outline of the component with label `l`: its class is that of its first cell, and
/// its rings are those its boundary edges chain into.
pub open spec fn component_outline_of(
    img: Seq<u8>,
    labels: Seq<u32>,
    width: u32,
    height: u32,
    l: u32,
) -> (u32, u8, Seq<(Seq<u64>, RingChainsView)>) {
    let es = component_edges_of(labels, width, height, l);
    (
        l,
        img[cells_of(labels, l)[0] as int],
        cut_rings(
            rings_from(es, Seq::new(es.len(), |j: int| false)),
            l,
            junction_table(labels, width, height),
        ),
    )
}

/// Whether `l` labels a component (label 0 is the background).
pub open spec fn is_component(labels: Seq<u32>) -> spec_fn(int) -> bool {
    |l: int| 1 <= l && cells_of(labels, l as u32).len() > 0
}

/// The outline of each label.
pub open spec fn outline_fn(img: Seq<u8>, labels: Seq<u32>, width: u32, height: u32) -> spec_fn(
    int,
) -> (u32, u8, Seq<(Seq<u64>, RingChainsView)>) {
    |l: int| component_outline_of(img, labels, width, height, l as u32)
}

/// The outlines of all components, in label order.
pub open spec fn component_outlines_of(
    img: Seq<u8>,
    labels: Seq<u32>,
    width: u32,
    height: u32,
) -> Seq<(u32, u8, Seq<(Seq<u64>, RingChainsView)>)> {
    Seq::new(labels.len() + 1, |l: int| l).filter(is_component(labels)).map_values(
        outline_fn(img, labels, width, height),
    )
}

proof fn lemma_junction_table(labels: Seq<u32>, width: u32, height: u32, r: Seq<bool>)
    requires
        r.len() == (width + 1) * (height + 1),
        forall|x: int, y: int|
            0 <= x <= width && 0 <= y <= height ==> r[vertex_id(height, x, y) as int]
                == is_junction(labels, width, height, x, y),
        lattice_ok(width, height),
    ensures
        r == junction_table(labels, width, height),
{
    assert forall|id: int| 0 <= id < r.len() implies r[id] == junction_table(
        labels,
        width,
        height,
    )[id] by {
        let hh = height + 1;
        let x = id / hh;
        let y = id % hh;
        assert(x * hh + y == id && 0 <= y < hh && 0 <= x <= width) by (nonlinear_arith)
            requires
                hh == height + 1,
                x == id / hh,
                y == id % hh,
                0 <= id < (width + 1) * hh,
        ;
        assert(vertex_id(height, x, y) == id);
    }
    assert(r =~= junction_table(labels, width, height));
}

/// Trace every component of a labelled grid: its class and its boundary rings, cut at the
/// junctions, in label order.
pub fn trace_components(img: &Vec<u8>, labels: &Vec<u32>, width: u32, height: u32) -> (r: Vec<
    ComponentOutline,
>)
    requires
        grid_ok(img@, width, height),
        lattice_ok(width, height),
        labels@.len() == img@.len(),
        forall|i: int| 0 <= i < labels@.len() ==> labels@[i] <= img@.len(),
    ensures
        r@.map_values(|o: ComponentOutline| outline_view(o)) == component_outlines_of(
            img@,
            labels@,
            width,
            height,
        ),
{
    let n = labels.len();
    let groups = group_cells(labels, n + 1);
    let edges = component_edges(labels, width, height, n + 1);
    let junction = junction_vertices(labels, width, height);
    proof {
        lemma_junction_table(labels@, width, height, junction@);
    }
    let ghost bound = ((width + 1) * (height + 1)) as u64;
    let ghost p = is_component(labels@);
    let ghost f = outline_fn(img@, labels@, width, height);
    let mut out: Vec<ComponentOutline> = Vec::new();
    let mut l: usize = 0;
    while l <= n
        invariant
            n == labels@.len(),
            n < 0x1_0000_0000,
            grid_ok(img@, width, height),
            lattice_ok(width, height),
            labels@.len() == img@.len(),
            bound == ((width + 1) * (height + 1)) as u64,
            junction@ == junction_table(labels@, width, height),
            junction@.len() == (width + 1) * (height + 1),
            groups@.len() == n + 1,
            forall|k: int| 0 <= k < n + 1 ==> (#[trigger] groups@[k])@ == cells_of(labels@, k as u32),
            edges@.len() == n + 1,
            forall|k: int| 0 <= k < n + 1 ==> vertices_below((#[trigger] edges@[k])@, bound),
            forall|k: int|
                1 <= k < n + 1 ==> (#[trigger] edges@[k])@ == component_edges_of(
                    labels@,
                    width,
                    height,
                    k as u32,
                ),
            p == is_component(labels@),
            f == outline_fn(img@, labels@, width, height),
            l <= n + 1,
            out@.map_values(|o: ComponentOutline| outline_view(o)) == Seq::new(
                l as nat,
                |k: int| k,
            ).filter(p).map_values(f),
        decreases n + 1 - l,
    {
        let ghost before = out@;
        if l >= 1 && groups[l].len() > 0 {
            let c0 = groups[l][0];
            proof {
                lemma_cells_of(labels@, l as u32);
            }
            let class = img[c0];
            let rings = chain_rings(&edges[l]);
            let ghost es = edges@[l as int]@;
            let ghost all_open = Seq::new(es.len(), |j: int| false);
            proof {
                lemma_rings_shape(es, all_open, bound);
            }
            let mut rs: Vec<(Vec<u64>, RingChains)> = Vec::with_capacity(rings.len());
            let mut k: usize = 0;
            while k < rings.len()
                invariant
                    junction@.len() == bound,
                    forall|q: int|
                        0 <= q < rings@.len() ==> ring_shape_ok(
                            #[trigger] rings_from(es, all_open)[q],
                            bound,
                        ) && rings_from(es, all_open)[q].0.len() >= 3,
                    rings@.map_values(|x: (Vec<u64>, Vec<u32>)| (x.0@, x.1@)) == rings_from(
                        es,
                        all_open,
                    ),
                    k <= rings@.len(),
                    rs@.len() == k,
                    forall|q: int|
                        0 <= q < k ==> (#[trigger] rs@[q]).0@ == rings@[q].0@ && rs@[q].1@
                            == ring_chains_of(rings@[q].0@, rings@[q].1@, l as u32, junction@),
                decreases rings@.len() - k,
            {
                let vs = &rings[k].0;
                let others = &rings[k].1;
                proof {
                    assert(rings_from(es, all_open)[k as int] == (vs@, others@));
                }
                let rc = ring_chains(vs, others, l as u32, &junction);
                rs.push((copy_vec(vs), rc));
                k = k + 1;
            }
            out.push(ComponentOutline { label: l as u32, class, rings: rs });
            proof {
                let o = out@.last();
                assert(o.rings@.map_values(|r: (Vec<u64>, RingChains)| (r.0@, r.1@)) =~= cut_rings(
                    rings_from(es, all_open),
                    l as u32,
                    junction@,
                ));
                assert(outline_view(o) == f(l as int));
            }
        }
        proof {
            let s0 = Seq::new(l as nat, |k: int| k);
            assert(Seq::new((l + 1) as nat, |k: int| k) =~= s0.push(l as int));
            s0.lemma_filter_push(l as int, p);
            if p(l as int) {
                assert(out@.map_values(|o: ComponentOutline| outline_view(o)) =~= before.map_values(
                    |o: ComponentOutline| outline_view(o),
                ).push(f(l as int)));
            } else {
                assert(!(l >= 1 && groups@[l as int]@.len() > 0));
            }
        }
        l = l + 1;
    }
    out
}

/// The grid after the median filter passes, a radius of 0 skipping its pass.
pub open spec fn after_median(pixels: Seq<u8>, width: u32, height: u32, radii: Seq<u32>) -> Seq<u8>
    decreases radii.len(),
{
    if radii.len() == 0 {
        pixels
    } else {
        let before = after_median(pixels, width, height, radii.drop_last());
        if radii.last() > 0 {
            median_filtered(before, width, height, radii.last())
        } else {
            before
        }
    }
}

/// The median filter passes over a class grid, in order, a radius of 0 skipping its pass
/// (see [`after_median`]).
pub fn median_passes(grid: Vec<u8>, width: u32, height: u32, median_radii: [u32; 2]) -> (r: Vec<u8>)
    requires
        grid@.len() == width * height,
        width + median_radii[0] <= i32::MAX,
        height + median_radii[0] <= i32::MAX,
        width + median_radii[1] <= i32::MAX,
        height + median_radii[1] <= i32::MAX,
        median_radii[0] < 23000,
        median_radii[1] < 23000,
    ensures
        r@ == after_median(grid@, width, height, median_radii@),
        r@.len() == grid@.len(),
{
    let mut img = grid;
    let mut k: usize = 0;
    while k < 2
        invariant
            k <= 2,
            img@.len() == width * height,
            img@ == after_median(grid@, width, height, median_radii@.take(k as int)),
            width + median_radii[0] <= i32::MAX,
            height + median_radii[0] <= i32::MAX,
            width + median_radii[1] <= i32::MAX,
            height + median_radii[1] <= i32::MAX,
            median_radii[0] < 23000,
            median_radii[1] < 23000,
        decreases 2 - k,
    {
        let r = median_radii[k];
        proof {
            assert(median_radii@.take(k + 1).drop_last() =~= median_radii@.take(k as int));
        }
        if r > 0 {
            img = median_filter_grid(&img, width, height, r);
        }
        k = k + 1;
    }
    assert(median_radii@.take(2) =~= median_radii@);
    img
}

/// The topology of a class grid: the grid median filtered, its components below their
/// class's minimum cell count dissolved until that settles (see
/// [`dissolve_small_components`]), and every remaining component traced. Returns the
/// outlines in label order; an empty grid has none. `None` when the filtered grid cannot
/// be labelled (every cell a foreground class and no two side neighbours alike, see
/// [`labels_fit`]), where component labelling would fail.
pub fn grid_topology(
    grid: Vec<u8>,
    width: u32,
    height: u32,
    min_cells: &Vec<usize>,
    median_radii: [u32; 2],
) -> (r: Option<Vec<ComponentOutline>>)
    requires
        grid_ok(grid@, width, height),
        lattice_ok(width, height),
        min_cells@.len() == 256,
        width + median_radii[0] <= i32::MAX,
        height + median_radii[0] <= i32::MAX,
        width + median_radii[1] <= i32::MAX,
        height + median_radii[1] <= i32::MAX,
        median_radii[0] < 23000,
        median_radii[1] < 23000,
    ensures
        width == 0 || height == 0 ==> r is Some && r->0@.len() == 0,
        width > 0 && height > 0 ==> ({
            let filtered = after_median(grid@, width, height, median_radii@);
            let settled = settled_grid(filtered, width, height, min_cells@, filtered.len() + 1);
            &&& (r is Some <==> labels_fit(filtered, width, height))
            &&& r is Some ==> settled.1 && r->0@.map_values(|o: ComponentOutline| outline_view(o))
                == component_outlines_of(
                settled.0,
                four_connected_labels(settled.0, width, height),
                width,
                height,
            )
        }),
{
    if width == 0 || height == 0 {
        return Some(Vec::new());
    }
    let img = median_passes(grid, width, height, median_radii);
    if !can_label(&img, width, height) {
        return None;
    }
    let (img, labels) = dissolve_small_components(img, width, height, min_cells);
    Some(trace_components(&img, &labels, width, height))
}

} // verus!
