//! Why dissolving small components settles: a pass that changes the grid leaves it with
//! fewer components than it had, so passes cannot go on changing it for ever.
use vstd::prelude::*;
use crate::vege_grid::{
    background_at, border_count, class_at, dissolve_step, dissolve_turns, four_connected,
    is_component_labelling, label_seen_before, lemma_max_label_is_max, max_label,
    most_bordering_below, neighbours_of_class, numbered_at, same_class_path, same_label_at,
    side_neighbours, dissolve_pass_of, dissolve_target, cells_of, lemma_cells_of, labels_fit,
};
use vstd::set_lib::{set_int_range, lemma_int_range, lemma_len_subset, lemma_map_size_bound};

verus! {

/// Label `k` is given to some cell before cell `i`.
pub open spec fn label_present(labels: Seq<u32>, i: int, k: u32) -> bool {
    exists|j: int| 0 <= j < i && #[trigger] labels[j] == k
}

/// The labels of a component labelling cover every number from 1 up to the largest one.
pub(crate) proof fn lemma_labels_cover(pixels: Seq<u8>, width: u32, height: u32, labels: Seq<u32>, i: int)
    requires
        is_component_labelling(pixels, width, height, labels),
        0 <= i <= labels.len(),
    ensures
        forall|k: u32| 1 <= k <= max_label(labels.take(i)) ==> #[trigger] label_present(labels, i, k),
    decreases i,
{
    if i > 0 {
        let prev = labels.take(i - 1);
        lemma_labels_cover(pixels, width, height, labels, i - 1);
        assert(labels.take(i).drop_last() =~= prev);
        assert(labels.take(i).last() == labels[i - 1]);
        if labels[i - 1] > max_label(prev) {
            assert(background_at(pixels, labels, i - 1));
            assert(numbered_at(pixels, labels, i - 1));
            if label_seen_before(labels, i - 1) {
                let j = choose|j: int| 0 <= j < i - 1 && #[trigger] labels[j] == labels[i - 1];
                lemma_max_label_is_max(prev);
                assert(prev[j] == labels[j]);
                assert(false);
            }
        }
        assert forall|k: u32| 1 <= k <= max_label(labels.take(i)) implies #[trigger] label_present(labels, i, k) by {
            if k <= max_label(prev) {
                assert(label_present(labels, i - 1, k));
                let j = choose|j: int| 0 <= j < i - 1 && #[trigger] labels[j] == k;
                assert(labels[j] == k);
            } else {
                assert(labels[i - 1] == k);
            }
        }
    }
}

/// Cells that share a label have the same class.
pub(crate) proof fn lemma_same_label_same_class(
    pixels: Seq<u8>,
    width: u32,
    height: u32,
    labels: Seq<u32>,
    i: int,
    j: int,
)
    requires
        is_component_labelling(pixels, width, height, labels),
        0 <= i < labels.len(),
        0 <= j < labels.len(),
        labels[i] == labels[j],
        labels[i] != 0,
    ensures
        pixels[i] == pixels[j],
        pixels[i] != 0,
{
    assert(background_at(pixels, labels, i));
    assert(background_at(pixels, labels, j));
    assert(same_label_at(pixels, width, height, labels, i, j));
    reveal(four_connected);
    let path = choose|path: Seq<int>|
        #[trigger] same_class_path(pixels, width, height, path) && path[0] == i && path.last() == j;
    assert(pixels[path[path.len() - 1]] == pixels[path[0]]);
}

/// A path's start is 4-connected to every cell on it.
pub(crate) proof fn lemma_path_prefix(pixels: Seq<u8>, width: u32, height: u32, path: Seq<int>, t: int)
    requires
        same_class_path(pixels, width, height, path),
        0 <= t < path.len(),
    ensures
        four_connected(pixels, width, height, path[0], path[t]),
{
    let pre = path.take(t + 1);
    assert(same_class_path(pixels, width, height, pre)) by {
        assert forall|k: int| 0 <= k < pre.len() implies 0 <= #[trigger] pre[k] < pixels.len()
            && pixels[pre[k]] == pixels[pre[0]] by {
            assert(pre[k] == path[k]);
        }
        assert forall|k: int| 0 <= k < pre.len() - 1 implies crate::vege_grid::side_neighbours(
            width,
            height,
            #[trigger] pre[k],
            pre[k + 1],
        ) by {
            assert(pre[k] == path[k] && pre[k + 1] == path[k + 1]);
        }
    }
    reveal(four_connected);
    assert(pre[0] == path[0] && pre.last() == path[t]);
}

/// The turns of a dissolve pass over a labelled grid: the grid keeps its size, background
/// cells and the cells of labels not yet reached keep their class, and cells that share a
/// label keep sharing a class.
pub(crate) proof fn lemma_turns_shape(
    img: Seq<u8>,
    labels: Seq<u32>,
    width: u32,
    height: u32,
    min_cells: Seq<usize>,
    k: int,
)
    requires
        is_component_labelling(img, width, height, labels),
        k >= 0,
    ensures
        dissolve_turns(img, labels, width, height, min_cells, k).0.len() == img.len(),
        forall|i: int|
            0 <= i < img.len() && (labels[i] >= k || labels[i] == 0) ==> #[trigger] dissolve_turns(
                img,
                labels,
                width,
                height,
                min_cells,
                k,
            ).0[i] == img[i],
        forall|i: int, j: int|
            0 <= i < img.len() && 0 <= j < img.len() && labels[i] == labels[j] ==> #[trigger] dissolve_turns(
                img,
                labels,
                width,
                height,
                min_cells,
                k,
            ).0[i] == #[trigger] dissolve_turns(img, labels, width, height, min_cells, k).0[j],
    decreases k,
{
    let t = dissolve_turns(img, labels, width, height, min_cells, k).0;
    if k == 0 {
        assert forall|i: int, j: int|
            0 <= i < img.len() && 0 <= j < img.len() && labels[i] == labels[j] implies t[i] == t[j] by {
            if labels[i] != 0 {
                lemma_same_label_same_class(img, width, height, labels, i, j);
            } else {
                assert(background_at(img, labels, i));
                assert(background_at(img, labels, j));
            }
        }
    } else {
        lemma_turns_shape(img, labels, width, height, min_cells, k - 1);
        let prev = dissolve_turns(img, labels, width, height, min_cells, k - 1).0;
        let l = (k - 1) as u32;
        let step = dissolve_step(prev, labels, width, height, min_cells, l);
        assert(t == step.0);
        assert forall|i: int|
            0 <= i < img.len() && (labels[i] >= k || labels[i] == 0) implies #[trigger] t[i] == img[i] by {
            assert(prev[i] == img[i]);
        }
        assert forall|i: int, j: int|
            0 <= i < img.len() && 0 <= j < img.len() && labels[i] == labels[j] implies #[trigger] t[i]
            == #[trigger] t[j] by {
            assert(prev[i] == prev[j]);
        }
    }
}

/// Turn `l` was the last of the first `k` turns of a pass to change the grid.
pub open spec fn last_change_at(
    img: Seq<u8>,
    labels: Seq<u32>,
    width: u32,
    height: u32,
    min_cells: Seq<usize>,
    k: int,
    l: int,
) -> bool {
    &&& 0 <= l < k
    &&& dissolve_step(
        dissolve_turns(img, labels, width, height, min_cells, l).0,
        labels,
        width,
        height,
        min_cells,
        l as u32,
    ).1
    &&& dissolve_turns(img, labels, width, height, min_cells, k).0 == dissolve_turns(
        img,
        labels,
        width,
        height,
        min_cells,
        l + 1,
    ).0
}

/// A pass that changed the grid has a last turn that changed it.
pub(crate) proof fn lemma_last_change(
    img: Seq<u8>,
    labels: Seq<u32>,
    width: u32,
    height: u32,
    min_cells: Seq<usize>,
    k: int,
)
    requires
        dissolve_turns(img, labels, width, height, min_cells, k).1,
    ensures
        exists|l: int| #[trigger] last_change_at(img, labels, width, height, min_cells, k, l),
    decreases k,
{
    let prev = dissolve_turns(img, labels, width, height, min_cells, k - 1);
    let next = dissolve_step(prev.0, labels, width, height, min_cells, (k - 1) as u32);
    if next.1 {
        assert(last_change_at(img, labels, width, height, min_cells, k, k - 1));
    } else {
        lemma_last_change(img, labels, width, height, min_cells, k - 1);
        let l = choose|l: int| #[trigger] last_change_at(img, labels, width, height, min_cells, k - 1, l);
        assert(last_change_at(img, labels, width, height, min_cells, k, l));
    }
}

/// The class a component dissolves into borders it.
pub(crate) proof fn lemma_most_bordering_borders(
    img: Seq<u8>,
    width: u32,
    height: u32,
    cells: Seq<usize>,
    class: u8,
    k: int,
)
    requires
        most_bordering_below(img, width, height, cells, class, k) is Some,
    ensures
        border_count(
            img,
            width,
            height,
            cells,
            class,
            most_bordering_below(img, width, height, cells, class, k)->0,
        ) > 0,
    decreases k,
{
    if k > 0 {
        let b = most_bordering_below(img, width, height, cells, class, k - 1);
        if b is Some {
            lemma_most_bordering_borders(img, width, height, cells, class, k - 1);
        }
    }
}

/// A class borders a component only if it is another class and some cell of the component
/// has a neighbour of it.
pub(crate) proof fn lemma_border_witness(
    img: Seq<u8>,
    width: u32,
    height: u32,
    cells: Seq<usize>,
    class: u8,
    c: u8,
)
    requires
        border_count(img, width, height, cells, class, c) > 0,
    ensures
        c != class,
        exists|t: int| 0 <= t < cells.len() && #[trigger] neighbours_of_class(img, width, height, cells[t] as int, c) > 0,
    decreases cells.len(),
{
    if border_count(img, width, height, cells.drop_last(), class, c) > 0 {
        lemma_border_witness(img, width, height, cells.drop_last(), class, c);
        let t = choose|t: int|
            0 <= t < cells.drop_last().len() && #[trigger] neighbours_of_class(
                img,
                width,
                height,
                cells.drop_last()[t] as int,
                c,
            ) > 0;
        assert(cells.drop_last()[t] == cells[t]);
    } else {
        let t = cells.len() - 1;
        assert(cells.last() == cells[t]);
        assert(neighbours_of_class(img, width, height, cells[t] as int, c) > 0);
    }
}

/// A cell with a neighbour of a class other than background has a side neighbour of it
/// inside the grid.
pub(crate) proof fn lemma_neighbour_witness(img: Seq<u8>, width: u32, height: u32, cell: int, c: u8)
    requires
        img.len() == width * height,
        0 <= cell < img.len(),
        c != 0,
        neighbours_of_class(img, width, height, cell, c) > 0,
    ensures
        exists|n: int| side_neighbours(width, height, cell, n) && #[trigger] img[n] == c,
{
    let w = width as int;
    let x = cell % w;
    let y = cell / w;
    assert(w > 0) by (nonlinear_arith)
        requires
            0 <= cell < w * height,
    ;
    assert(cell == y * w + x && 0 <= x < w && 0 <= y < height) by (nonlinear_arith)
        requires
            w > 0,
            0 <= cell < w * height,
            x == cell % w,
            y == cell / w,
    ;
    if class_at(img, width, height, x - 1, y) == c {
        let n = cell - 1;
        assert(n == y * w + (x - 1));
        vstd::arithmetic::div_mod::lemma_fundamental_div_mod_converse(n, w, y, x - 1);
        assert(side_neighbours(width, height, cell, n));
        assert(img[n] == c);
    } else if class_at(img, width, height, x + 1, y) == c {
        let n = cell + 1;
        assert(n == y * w + (x + 1));
        vstd::arithmetic::mul::lemma_mul_inequality(y + 1, height as int, w);
        assert((y + 1) * w == y * w + w) by (nonlinear_arith);
        assert(w * height == height * w) by (nonlinear_arith);
        assert(n < w * height);
        vstd::arithmetic::div_mod::lemma_fundamental_div_mod_converse(n, w, y, x + 1);
        assert(side_neighbours(width, height, cell, n));
        assert(img[n] == c);
    } else if class_at(img, width, height, x, y - 1) == c {
        let n = cell - w;
        assert(n == (y - 1) * w + x) by (nonlinear_arith)
            requires
                n == cell - w,
                cell == y * w + x,
        ;
        assert(0 <= y - 1);
        assert(n >= 0) by (nonlinear_arith)
            requires
                n == (y - 1) * w + x,
                y - 1 >= 0,
                x >= 0,
                w > 0,
        ;
        vstd::arithmetic::div_mod::lemma_fundamental_div_mod_converse(n, w, y - 1, x);
        assert(side_neighbours(width, height, cell, n));
        assert(img[n] == c);
    } else {
        assert(class_at(img, width, height, x, y + 1) == c);
        let n = cell + w;
        assert(n == (y + 1) * w + x) by (nonlinear_arith)
            requires
                n == cell + w,
                cell == y * w + x,
        ;
        assert(n < w * height) by (nonlinear_arith)
            requires
                n == (y + 1) * w + x,
                y + 1 < height,
                0 <= x < w,
        ;
        vstd::arithmetic::div_mod::lemma_fundamental_div_mod_converse(n, w, y + 1, x);
        assert(side_neighbours(width, height, cell, n));
        assert(img[n] == c);
    }
}

/// When the cells of every component of a grid keep sharing a class in a changed grid,
/// each component stays within one component of the changed grid (unless it became
/// background).
pub(crate) proof fn lemma_components_stay_joined(
    img: Seq<u8>,
    labels: Seq<u32>,
    out: Seq<u8>,
    out_labels: Seq<u32>,
    width: u32,
    height: u32,
    i: int,
    j: int,
)
    requires
        is_component_labelling(img, width, height, labels),
        is_component_labelling(out, width, height, out_labels),
        out.len() == img.len(),
        forall|a: int, b: int|
            0 <= a < img.len() && 0 <= b < img.len() && labels[a] == labels[b] ==> #[trigger] out[a]
                == #[trigger] out[b],
        0 <= i < img.len(),
        0 <= j < img.len(),
        labels[i] == labels[j],
        labels[i] != 0,
        out[i] != 0,
    ensures
        out_labels[i] == out_labels[j],
{
    assert(background_at(img, labels, i));
    assert(background_at(img, labels, j));
    assert(same_label_at(img, width, height, labels, i, j));
    assert(four_connected(img, width, height, i, j));
    reveal(four_connected);
    let path = choose|path: Seq<int>|
        #[trigger] same_class_path(img, width, height, path) && path[0] == i && path.last() == j;
    assert forall|t: int| 0 <= t < path.len() implies 0 <= #[trigger] path[t] < out.len() && out[path[t]]
        == out[path[0]] by {
        lemma_path_prefix(img, width, height, path, t);
        assert(same_label_at(img, width, height, labels, i, path[t]));
        assert(background_at(img, labels, path[t]));
    }
    assert(same_class_path(out, width, height, path));
    assert(four_connected(out, width, height, i, j));
    assert(out[j] == out[i]);
    assert(same_label_at(out, width, height, out_labels, i, j));
}

/// A cell with label `l`, when there is one.
pub open spec fn cell_with_label(labels: Seq<u32>, l: int) -> int {
    choose|i: int| 0 <= i < labels.len() && labels[i] == l
}

/// The label in `out_labels` of the cells of label `l` in `labels`.
pub open spec fn label_after(labels: Seq<u32>, out_labels: Seq<u32>) -> spec_fn(int) -> int {
    |l: int| out_labels[cell_with_label(labels, l)] as int
}

/// A dissolve pass that changes a grid leaves it with fewer components: every component of
/// the new grid is made of whole old components, and the last component to dissolve either
/// became background or joined another one.
pub proof fn lemma_changing_pass_merges(
    img: Seq<u8>,
    labels: Seq<u32>,
    out_labels: Seq<u32>,
    width: u32,
    height: u32,
    min_cells: Seq<usize>,
)
    requires
        img.len() == width * height,
        img.len() < 0x1_0000_0000,
        is_component_labelling(img, width, height, labels),
        dissolve_pass_of(img, labels, width, height, min_cells).1,
        is_component_labelling(
            dissolve_pass_of(img, labels, width, height, min_cells).0,
            width,
            height,
            out_labels,
        ),
    ensures
        max_label(out_labels) < max_label(labels),
{
    let n = img.len() as int;
    let kk = n + 1;
    let out = dissolve_pass_of(img, labels, width, height, min_cells).0;
    lemma_turns_shape(img, labels, width, height, min_cells, kk);
    lemma_last_change(img, labels, width, height, min_cells, kk);
    let ls = choose|l: int| #[trigger] last_change_at(img, labels, width, height, min_cells, kk, l);
    let before = dissolve_turns(img, labels, width, height, min_cells, ls).0;
    lemma_turns_shape(img, labels, width, height, min_cells, ls);
    let lu = ls as u32;
    assert(lu as int == ls);
    let cells = cells_of(labels, lu);
    lemma_cells_of(labels, lu);
    let c0 = cells[0] as int;
    let class = before[c0];
    let new = dissolve_target(before, width, height, cells, class);
    assert(out == Seq::new(before.len(), |i: int| if labels[i] == lu { new } else { before[i] }));
    assert(labels[c0] == lu && lu != 0);
    assert(class == img[c0]);
    // every old component is within one new component
    assert forall|a: int, b: int|
        0 <= a < img.len() && 0 <= b < img.len() && labels[a] == labels[b] && labels[a] != 0 && out[a] != 0
        implies #[trigger] out_labels[a] == #[trigger] out_labels[b] by {
        lemma_components_stay_joined(img, labels, out, out_labels, width, height, a, b);
    }
    // the partner the last dissolved component joined, when it did not become background
    let ghost mut partner: int = 0;
    let ghost mut partner_cell: int = 0;
    let ghost mut own_cell: int = 0;
    if new != 0 {
        lemma_most_bordering_borders(before, width, height, cells, class, 256);
        lemma_border_witness(before, width, height, cells, class, new);
        let t = choose|t: int|
            0 <= t < cells.len() && #[trigger] neighbours_of_class(before, width, height, cells[t] as int, new) > 0;
        let ct = cells[t] as int;
        lemma_neighbour_witness(before, width, height, ct, new);
        let nb = choose|nb: int| side_neighbours(width, height, ct, nb) && #[trigger] before[nb] == new;
        assert(labels[nb] != 0) by {
            assert(background_at(img, labels, nb));
        }
        assert(labels[nb] != lu) by {
            if labels[nb] == lu {
                lemma_same_label_same_class(img, width, height, labels, nb, c0);
            }
        }
        assert(out[nb] == new && out[ct] == new);
        let path = seq![ct, nb];
        assert(same_class_path(out, width, height, path));
        reveal(four_connected);
        assert(four_connected(out, width, height, ct, nb));
        assert(same_label_at(out, width, height, out_labels, ct, nb));
        partner = labels[nb] as int;
        partner_cell = nb;
        own_cell = ct;
    }
    // counting: the new labels are the images of the old labels but the last dissolved one
    let big_n = max_label(labels) as int;
    let small_n = max_label(out_labels) as int;
    let f = label_after(labels, out_labels);
    lemma_max_label_is_max(labels);
    assert(1 <= ls <= big_n);
    lemma_int_range(1, big_n + 1);
    let dom = set_int_range(1, big_n + 1).remove(ls);
    assert(dom.len() == big_n - 1);
    lemma_map_size_bound(dom, dom.map(f), f);
    lemma_int_range(1, small_n + 1);
    let targets = set_int_range(1, small_n + 1);
    assert(out_labels.take(n) =~= out_labels);
    lemma_labels_cover(out, width, height, out_labels, n);
    assert forall|k: int| targets.contains(k) implies #[trigger] dom.map(f).contains(k) by {
        let ku = k as u32;
        assert(crate::settling::label_present(out_labels, n, ku));
        let i = choose|i: int| 0 <= i < n && #[trigger] out_labels[i] == ku;
        assert(background_at(out, out_labels, i));
        assert(labels[i] != 0) by {
            assert(background_at(img, labels, i));
            if labels[i] == 0 {
                assert(dissolve_turns(img, labels, width, height, min_cells, kk).0[i] == img[i]);
            }
        }
        let l = labels[i] as int;
        let r = cell_with_label(labels, l);
        assert(0 <= r < n && labels[r] == l);
        assert(out[r] == out[i]);
        assert(out_labels[r] == out_labels[i]);
        assert(f(l) == k);
        assert(l <= big_n);
        if l != ls {
            assert(dom.contains(l));
        } else {
            assert(new != 0);
            let m = partner;
            let rm = cell_with_label(labels, m);
            assert(0 <= rm < n && labels[rm] == m);
            assert(out_labels[rm] == out_labels[partner_cell]);
            assert(out_labels[own_cell] == out_labels[i]);
            assert(f(m) == k);
            assert(m <= big_n);
            assert(dom.contains(m));
        }
    }
    lemma_len_subset(targets, dom.map(f));
}

/// A dissolve pass that changes a grid leaves it labellable: the last component to dissolve
/// became background or took the class of a side neighbour.
pub proof fn lemma_changing_pass_fits(
    img: Seq<u8>,
    labels: Seq<u32>,
    width: u32,
    height: u32,
    min_cells: Seq<usize>,
)
    requires
        img.len() == width * height,
        img.len() < 0x1_0000_0000,
        is_component_labelling(img, width, height, labels),
        dissolve_pass_of(img, labels, width, height, min_cells).1,
    ensures
        labels_fit(dissolve_pass_of(img, labels, width, height, min_cells).0, width, height),
{
    let n = img.len() as int;
    let kk = n + 1;
    let out = dissolve_pass_of(img, labels, width, height, min_cells).0;
    lemma_turns_shape(img, labels, width, height, min_cells, kk);
    lemma_last_change(img, labels, width, height, min_cells, kk);
    let ls = choose|l: int| #[trigger] last_change_at(img, labels, width, height, min_cells, kk, l);
    let before = dissolve_turns(img, labels, width, height, min_cells, ls).0;
    lemma_turns_shape(img, labels, width, height, min_cells, ls);
    let lu = ls as u32;
    assert(lu as int == ls);
    let cells = cells_of(labels, lu);
    lemma_cells_of(labels, lu);
    let c0 = cells[0] as int;
    let class = before[c0];
    let new = dissolve_target(before, width, height, cells, class);
    assert(out == Seq::new(before.len(), |i: int| if labels[i] == lu { new } else { before[i] }));
    assert(labels[c0] == lu);
    if new == 0 {
        assert(out[c0] == 0);
    } else {
        lemma_most_bordering_borders(before, width, height, cells, class, 256);
        lemma_border_witness(before, width, height, cells, class, new);
        let t = choose|t: int|
            0 <= t < cells.len() && #[trigger] neighbours_of_class(before, width, height, cells[t] as int, new) > 0;
        let ct = cells[t] as int;
        lemma_neighbour_witness(before, width, height, ct, new);
        let nb = choose|nb: int| side_neighbours(width, height, ct, nb) && #[trigger] before[nb] == new;
        assert(out[nb] == new && out[ct] == new);
        assert(side_neighbours(width, height, ct, nb) && out[ct] == out[nb]);
    }
}

} // verus!
