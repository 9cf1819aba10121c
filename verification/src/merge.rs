//! The integer and string rules of the merge stage: which per-tile binary DXF files
//! belong to which merged output, and the contour classification of a smoothed line.
use vstd::prelude::*;
use vstd::string::StringExecFns;
use crate::geometry::{
    Classification, Geometry, GeometryView, spec_is_contour, spec_is_depression, spec_is_index,
    spec_is_intermed, without_intermed_view,
};
use crate::text::{ends_with, str_ends_with};

verus! {

/// The `i`th file suffix that is merged.
pub open spec fn merge_suffix(i: int) -> Seq<char> {
    if i == 0 {
        "contours"@
    } else if i == 1 {
        "c2g"@
    } else if i == 2 {
        "basemap"@
    } else if i == 3 {
        "c3g"@
    } else if i == 4 {
        "formlines"@
    } else if i == 5 {
        "dotknolls"@
    } else {
        "detected"@
    }
}

/// The file suffixes merged into `merged_{suffix}.dxf.bin`, in output order.
pub fn merge_suffixes() -> (r: Vec<&'static str>)
    ensures
        r@.len() == 7,
        forall|i: int| 0 <= i < 7 ==> (#[trigger] r@[i])@ == merge_suffix(i),
{
    vec!["contours", "c2g", "basemap", "c3g", "formlines", "dotknolls", "detected"]
}

/// The file-name ending of a per-tile binary DXF file with the given suffix.
pub open spec fn dxf_bin_ending(suffix: Seq<char>) -> Seq<char> {
    "_"@ + suffix + ".dxf.bin"@
}

/// The positions, in order, of the names among the first `k` that end with `ending`.
pub open spec fn indices_ending_with(names: Seq<Seq<char>>, ending: Seq<char>, k: int) -> Seq<usize>
    decreases k,
{
    if k <= 0 {
        Seq::empty()
    } else {
        indices_ending_with(names, ending, k - 1) + if ends_with(names[k - 1], ending) {
            seq![(k - 1) as usize]
        } else {
            Seq::empty()
        }
    }
}

/// Group file names by merge suffix: for each suffix of [`merge_suffixes`], the positions of
/// the names that end with `_{suffix}.dxf.bin`, in input order.
pub fn files_by_suffix(names: &Vec<String>) -> (r: Vec<Vec<usize>>)
    ensures
        r@.len() == 7,
        forall|i: int|
            0 <= i < 7 ==> (#[trigger] r@[i])@ == indices_ending_with(
                names@.map_values(|s: String| s@),
                dxf_bin_ending(merge_suffix(i)),
                names@.len() as int,
            ),
{
    let ghost ns = names@.map_values(|s: String| s@);
    let suffixes = merge_suffixes();
    let mut r: Vec<Vec<usize>> = Vec::new();
    let mut i: usize = 0;
    while i < 7
        invariant
            i <= 7,
            suffixes@.len() == 7,
            forall|k: int| 0 <= k < 7 ==> (#[trigger] suffixes@[k])@ == merge_suffix(k),
            ns == names@.map_values(|s: String| s@),
            r@.len() == i,
            forall|k: int|
                0 <= k < i ==> (#[trigger] r@[k])@ == indices_ending_with(
                    ns,
                    dxf_bin_ending(merge_suffix(k)),
                    names@.len() as int,
                ),
        decreases 7 - i,
    {
        let mut ending = String::from_str("_");
        ending.append(suffixes[i]);
        ending.append(".dxf.bin");
        assert(ending@ == dxf_bin_ending(merge_suffix(i as int)));
        let mut group: Vec<usize> = Vec::new();
        let mut j: usize = 0;
        while j < names.len()
            invariant
                j <= names@.len(),
                ns == names@.map_values(|s: String| s@),
                ending@ == dxf_bin_ending(merge_suffix(i as int)),
                group@ == indices_ending_with(ns, ending@, j as int),
            decreases names@.len() - j,
        {
            if str_ends_with(names[j].as_str(), ending.as_str()) {
                group.push(j);
            }
            assert(ns[j as int] == names@[j as int]@);
            j = j + 1;
        }
        r.push(group);
        i = i + 1;
    }
    r
}

/// The classification of a smoothed contour line: depression or contour, with the index
/// flag and then the intermediate flag added when they apply.
pub open spec fn contour_class_of(depression: bool, index: bool, intermed: bool) -> Classification {
    if depression {
        if index {
            if intermed {
                Classification::DepressionIndexIntermed
            } else {
                Classification::DepressionIndex
            }
        } else if intermed {
            Classification::DepressionIntermed
        } else {
            Classification::Depression
        }
    } else {
        if index {
            if intermed {
                Classification::ContourIndexIntermed
            } else {
                Classification::ContourIndex
            }
        } else if intermed {
            Classification::ContourIntermed
        } else {
            Classification::Contour
        }
    }
}

/// Classify a smoothed contour: start from depression or contour, "add" the index flag,
/// then "add" the intermediate flag.
pub fn contour_class(depression: bool, index: bool, intermed: bool) -> (r: Classification)
    ensures
        r == contour_class_of(depression, index, intermed),
{
    let mut layer = if depression {
        Classification::Depression
    } else {
        Classification::Contour
    };
    if index {
        layer = match layer {
            Classification::Contour => Classification::ContourIndex,
            Classification::Depression => Classification::DepressionIndex,
            other => other,
        };
    }
    if intermed {
        layer = match layer {
            Classification::Contour => Classification::ContourIntermed,
            Classification::ContourIndex => Classification::ContourIndexIntermed,
            Classification::Depression => Classification::DepressionIntermed,
            Classification::DepressionIndex => Classification::DepressionIndexIntermed,
            other => other,
        };
    }
    layer
}

/// The flags of a smoothed contour's class are exactly the ones it was classified with:
/// a depression or else a contour, index or not, intermediate or not.
pub proof fn lemma_contour_class_flags(depression: bool, index: bool, intermed: bool)
    ensures
        spec_is_depression(contour_class_of(depression, index, intermed)) == depression,
        spec_is_contour(contour_class_of(depression, index, intermed)) == !depression,
        spec_is_index(contour_class_of(depression, index, intermed)) == index,
        spec_is_intermed(contour_class_of(depression, index, intermed)) == intermed,
{
}

/// Every contour or depression class is the class of its own flags.
pub proof fn lemma_contour_class_of_flags(c: Classification)
    requires
        spec_is_contour(c) || spec_is_depression(c),
    ensures
        contour_class_of(spec_is_depression(c), spec_is_index(c), spec_is_intermed(c)) == c,
{
}

/// What a list of geometry blocks holds, block by block.
pub open spec fn geometries_view<P2, P3, H>(gs: Seq<Geometry<P2, P3, H>>) -> Seq<
    GeometryView<P2, P3, H>,
> {
    gs.map_values(|g: Geometry<P2, P3, H>| g@)
}

/// The merged geometry of one suffix: the blocks of its files, file after file.
pub open spec fn suffix_geometry<B, P2, P3, H>(files: Seq<(B, Vec<Geometry<P2, P3, H>>)>) -> Seq<
    GeometryView<P2, P3, H>,
> {
    files.map_values(|f: (B, Vec<Geometry<P2, P3, H>>)| geometries_view(f.1@)).flatten()
}

/// How a suffix's blocks are carried into the file of all geometry: the contours without
/// their intermediate contours, the other suffixes as they are.
pub open spec fn carried_into_all<P2, P3, H>(
    contours: bool,
    s: Seq<GeometryView<P2, P3, H>>,
) -> Seq<GeometryView<P2, P3, H>> {
    if contours {
        s.map_values(|v: GeometryView<P2, P3, H>| without_intermed_view(v))
    } else {
        s
    }
}

/// The geometry of `merged.dxf.bin`: every suffix in order (the first one is the
/// contours), each carried into it by [`carried_into_all`].
pub open spec fn all_geometry<B, P2, P3, H>(groups: Seq<Vec<(B, Vec<Geometry<P2, P3, H>>)>>) -> Seq<
    GeometryView<P2, P3, H>,
> {
    Seq::new(groups.len(), |i: int| carried_into_all(i == 0, suffix_geometry(groups[i]@))).flatten()
}

/// The bounds of every loaded file, in loading order.
pub open spec fn loaded_bounds<B, P2, P3, H>(groups: Seq<Vec<(B, Vec<Geometry<P2, P3, H>>)>>) -> Seq<
    B,
> {
    groups.map_values(
        |g: Vec<(B, Vec<Geometry<P2, P3, H>>)>|
            g@.map_values(|f: (B, Vec<Geometry<P2, P3, H>>)| f.0),
    ).flatten()
}

/// The bounds of the first file loaded, used for every merged output.
pub open spec fn first_bounds<B, P2, P3, H>(groups: Seq<Vec<(B, Vec<Geometry<P2, P3, H>>)>>) -> Option<
    B,
> {
    let bs = loaded_bounds(groups);
    if bs.len() > 0 {
        Some(bs[0])
    } else {
        None
    }
}

/// The blocks of one file, copied for its suffix's output and carried into the file of all
/// geometry.
fn merge_file_geometries<P2: Copy, P3: Copy, H: Copy>(
    gs: &Vec<Geometry<P2, P3, H>>,
    contours: bool,
) -> (r: (Vec<Geometry<P2, P3, H>>, Vec<Geometry<P2, P3, H>>))
    ensures
        geometries_view(r.0@) == geometries_view(gs@),
        geometries_view(r.1@) == carried_into_all(contours, geometries_view(gs@)),
{
    let mut own: Vec<Geometry<P2, P3, H>> = Vec::with_capacity(gs.len());
    let mut carried: Vec<Geometry<P2, P3, H>> = Vec::with_capacity(gs.len());
    let mut k: usize = 0;
    while k < gs.len()
        invariant
            k <= gs@.len(),
            geometries_view(own@) == geometries_view(gs@.take(k as int)),
            geometries_view(carried@) == carried_into_all(contours, geometries_view(gs@.take(k as int))),
        decreases gs@.len() - k,
    {
        let ghost own0 = own@;
        let ghost carried0 = carried@;
        own.push(gs[k].copied());
        if contours {
            carried.push(gs[k].without_intermed());
        } else {
            carried.push(gs[k].copied());
        }
        proof {
            let t = gs@.take(k + 1);
            assert(t =~= gs@.take(k as int).push(gs@[k as int]));
            assert(geometries_view(t) =~= geometries_view(gs@.take(k as int)).push(gs@[k as int]@));
            assert(geometries_view(own@) =~= geometries_view(own0).push(gs@[k as int]@));
            assert(geometries_view(carried@) =~= geometries_view(carried0).push(
                geometries_view(carried@).last(),
            ));
            assert(carried_into_all(contours, geometries_view(t)) =~= carried_into_all(
                contours,
                geometries_view(gs@.take(k as int)),
            ).push(carried_into_all(contours, geometries_view(t)).last()));
        }
        k = k + 1;
    }
    assert(gs@.take(gs@.len() as int) =~= gs@);
    (own, carried)
}

/// The blocks of every file of one suffix, for its output and for the file of all geometry.
fn merge_suffix_files<B, P2: Copy, P3: Copy, H: Copy>(
    files: &Vec<(B, Vec<Geometry<P2, P3, H>>)>,
    contours: bool,
) -> (r: (Vec<Geometry<P2, P3, H>>, Vec<Geometry<P2, P3, H>>))
    ensures
        geometries_view(r.0@) == suffix_geometry(files@),
        geometries_view(r.1@) == carried_into_all(contours, suffix_geometry(files@)),
{
    let mut own: Vec<Geometry<P2, P3, H>> = Vec::new();
    let mut carried: Vec<Geometry<P2, P3, H>> = Vec::new();
    let mut j: usize = 0;
    while j < files.len()
        invariant
            j <= files@.len(),
            geometries_view(own@) == suffix_geometry(files@.take(j as int)),
            geometries_view(carried@) == carried_into_all(contours, suffix_geometry(files@.take(j as int))),
        decreases files@.len() - j,
    {
        let ghost own0 = own@;
        let ghost carried0 = carried@;
        let (mut a, mut b) = merge_file_geometries(&files[j].1, contours);
        let ghost a0 = a@;
        let ghost b0 = b@;
        own.append(&mut a);
        carried.append(&mut b);
        proof {
            let f = |f: (B, Vec<Geometry<P2, P3, H>>)| geometries_view(f.1@);
            let t = files@.take(j + 1);
            assert(t =~= files@.take(j as int).push(files@[j as int]));
            assert(t.map_values(f) =~= files@.take(j as int).map_values(f).push(
                geometries_view(files@[j as int].1@),
            ));
            files@.take(j as int).map_values(f).lemma_flatten_push(
                geometries_view(files@[j as int].1@),
            );
            assert(geometries_view(own@) =~= geometries_view(own0) + geometries_view(a0));
            assert(geometries_view(carried@) =~= geometries_view(carried0) + geometries_view(b0));
            let before = suffix_geometry(files@.take(j as int));
            let added = geometries_view(files@[j as int].1@);
            assert(carried_into_all(contours, before + added) =~= carried_into_all(contours, before)
                + carried_into_all(contours, added));
        }
        j = j + 1;
    }
    assert(files@.take(files@.len() as int) =~= files@);
    (own, carried)
}

/// Merge the loaded per-tile binary DXF files: one group per merge suffix, in the order of
/// [`merge_suffixes`] (the first is the contours), each file with its bounds and its
/// geometry blocks. Returns the bounds of the first file loaded, the geometry of each
/// suffix's merged file, and the geometry of the file of all geometry, in which the
/// contours lose their intermediate contours.
pub fn bindxfmerge<B: Copy, P2: Copy, P3: Copy, H: Copy>(
    groups: &Vec<Vec<(B, Vec<Geometry<P2, P3, H>>)>>,
) -> (r: (Option<B>, Vec<Vec<Geometry<P2, P3, H>>>, Vec<Geometry<P2, P3, H>>))
    ensures
        r.0 == first_bounds(groups@),
        r.1@.len() == groups@.len(),
        forall|i: int|
            0 <= i < groups@.len() ==> geometries_view((#[trigger] r.1@[i])@) == suffix_geometry(
                groups@[i]@,
            ),
        geometries_view(r.2@) == all_geometry(groups@),
{
    let mut first: Option<B> = None;
    let mut per_suffix: Vec<Vec<Geometry<P2, P3, H>>> = Vec::with_capacity(groups.len());
    let mut all: Vec<Geometry<P2, P3, H>> = Vec::new();
    let mut i: usize = 0;
    while i < groups.len()
        invariant
            i <= groups@.len(),
            first == first_bounds(groups@.take(i as int)),
            per_suffix@.len() == i,
            forall|k: int|
                0 <= k < i ==> geometries_view((#[trigger] per_suffix@[k])@) == suffix_geometry(
                    groups@[k]@,
                ),
            geometries_view(all@) == all_geometry(groups@.take(i as int)),
        decreases groups@.len() - i,
    {
        let ghost all0 = all@;
        let ghost first0 = first;
        if first.is_none() && groups[i].len() > 0 {
            first = Some(groups[i][0].0);
        }
        let (own, mut carried) = merge_suffix_files(&groups[i], i == 0);
        let ghost c0 = carried@;
        per_suffix.push(own);
        all.append(&mut carried);
        proof {
            let t = groups@.take(i + 1);
            assert(t =~= groups@.take(i as int).push(groups@[i as int]));
            let bf = |f: (B, Vec<Geometry<P2, P3, H>>)| f.0;
            let gf = |g: Vec<(B, Vec<Geometry<P2, P3, H>>)>| g@.map_values(bf);
            assert(t.map_values(gf) =~= groups@.take(i as int).map_values(gf).push(
                groups@[i as int]@.map_values(bf),
            ));
            groups@.take(i as int).map_values(gf).lemma_flatten_push(
                groups@[i as int]@.map_values(bf),
            );
            let pieces = |k: int| carried_into_all(k == 0, suffix_geometry(t[k]@));
            let pieces0 = |k: int|
                carried_into_all(k == 0, suffix_geometry(groups@.take(i as int)[k]@));
            assert(Seq::new(t.len(), pieces) =~= Seq::new(i as nat, pieces0).push(
                carried_into_all(i == 0, suffix_geometry(groups@[i as int]@)),
            ));
            Seq::new(i as nat, pieces0).lemma_flatten_push(
                carried_into_all(i == 0, suffix_geometry(groups@[i as int]@)),
            );
            assert(geometries_view(all@) =~= geometries_view(all0) + geometries_view(c0));
            assert(loaded_bounds(t) == loaded_bounds(groups@.take(i as int)) + groups@[
                i as int
            ]@.map_values(bf));
        }
        i = i + 1;
    }
    assert(groups@.take(groups@.len() as int) =~= groups@);
    (first, per_suffix, all)
}

/// What becomes of a joined contour line in smoothing.
#[derive(Debug, Clone, Copy, PartialEq, Eq, Structural)]
pub enum ContourFate {
    /// Too short to keep, or a knoll that is not distinct enough.
    Dropped,
    /// A small closed line kept as a dot knoll (or dot depression) at its centre.
    DotKnoll,
    /// Smoothed and kept as a contour.
    Contour,
}

/// The fate of a joined line of `len` vertices: lines under 3 vertices are cleared; a line
/// found not distinct enough as a knoll (`indistinct`, judged only for closed lines under
/// the depression length) is dropped; lines under 5 vertices are dropped; the remaining
/// lines under 15 vertices become dot knolls; the rest are contours.
pub open spec fn contour_fate_of(len: usize, indistinct: bool) -> ContourFate {
    if len < 3 || indistinct || len < 5 {
        ContourFate::Dropped
    } else if len < 15 {
        ContourFate::DotKnoll
    } else {
        ContourFate::Contour
    }
}

/// Decide what becomes of a joined line of `len` vertices (see [`contour_fate_of`]).
pub fn contour_fate(len: usize, indistinct: bool) -> (r: ContourFate)
    ensures
        r == contour_fate_of(len, indistinct),
{
    let mut skip = false;
    if len < 3 {
        skip = true;
    }
    if !skip && indistinct {
        skip = true;
    }
    if len < 5 {
        skip = true;
    }
    if !skip && len < 15 {
        return ContourFate::DotKnoll;
    }
    if skip {
        ContourFate::Dropped
    } else {
        ContourFate::Contour
    }
}

/// The vertex from which the height of a joined line of `len` vertices is looked up: one
/// before a third of the way along, but not before the first.
pub open spec fn height_probe_start_of(len: usize) -> usize {
    if len == 0 || (len - 1) / 3 < 1 {
        0
    } else {
        ((len - 1) / 3 - 1) as usize
    }
}

/// The vertex from which the height of a joined line is looked up.
pub fn height_probe_start(len: usize) -> (r: usize)
    ensures
        r == height_probe_start_of(len),
{
    if len == 0 {
        return 0;
    }
    let third = (len - 1) / 3;
    if third < 1 {
        0
    } else {
        third - 1
    }
}

/// Whether a rendered tile image takes part in the merged map: a `.png` that is not an
/// undergrowth or vegetation image (nor their bit images), and that is a depression image
/// exactly when `depr`.
pub open spec fn png_merge_candidate_of(name: Seq<char>, depr: bool) -> bool {
    &&& ends_with(name, ".png"@)
    &&& !ends_with(name, "_undergrowth.png"@)
    &&& !ends_with(name, "_undergrowth_bit.png"@)
    &&& !ends_with(name, "_vege.png"@)
    &&& !ends_with(name, "_vege_bit.png"@)
    &&& ends_with(name, "_depr.png"@) == depr
}

/// The merged map never takes in an undergrowth or vegetation image (nor their bit
/// images), with or without depressions, and a tile image goes into at most one of the two
/// merged maps (with and without depressions).
pub proof fn lemma_map_merge_leaves_out_vegetation(name: Seq<char>, depr: bool)
    ensures
        ends_with(name, "_undergrowth.png"@) ==> !png_merge_candidate_of(name, depr),
        ends_with(name, "_undergrowth_bit.png"@) ==> !png_merge_candidate_of(name, depr),
        ends_with(name, "_vege.png"@) ==> !png_merge_candidate_of(name, depr),
        ends_with(name, "_vege_bit.png"@) ==> !png_merge_candidate_of(name, depr),
        !(png_merge_candidate_of(name, true) && png_merge_candidate_of(name, false)),
{
}

/// Whether a rendered tile image takes part in the merged map (see
/// [`png_merge_candidate_of`]).
pub fn png_merge_candidate(name: &str, depr: bool) -> (r: bool)
    ensures
        r == png_merge_candidate_of(name@, depr),
{
    str_ends_with(name, ".png") && !str_ends_with(name, "_undergrowth.png") && !str_ends_with(
        name,
        "_undergrowth_bit.png",
    ) && !str_ends_with(name, "_vege.png") && !str_ends_with(name, "_vege_bit.png") && ((depr
        && str_ends_with(name, "_depr.png")) || (!depr && !str_ends_with(name, "_depr.png")))
}

/// Whether a tile image takes part in the merged vegetation image: a vegetation image, or
/// an undergrowth image when those are included.
pub fn vege_merge_candidate(name: &str, include_undergrowth: bool) -> (r: bool)
    ensures
        r == (ends_with(name@, "_vege.png"@) || (include_undergrowth && ends_with(
            name@,
            "_undergrowth.png"@,
        ))),
        r ==> !png_merge_candidate_of(name@, true) && !png_merge_candidate_of(name@, false),
{
    str_ends_with(name, "_vege.png") || (include_undergrowth && str_ends_with(
        name,
        "_undergrowth.png",
    ))
}

/// The name of the merged map image, without extension.
pub fn merged_png_name(depr: bool) -> (r: &'static str)
    ensures
        r@ == if depr {
            "merged_depr"@
        } else {
            "merged"@
        },
{
    if depr {
        "merged_depr"
    } else {
        "merged"
    }
}

/// The name of the merged vegetation image, without extension.
pub fn merged_vege_name(include_undergrowth: bool) -> (r: &'static str)
    ensures
        r@ == if include_undergrowth {
            "merged_vege_undergrowth"@
        } else {
            "merged_vege"@
        },
{
    if include_undergrowth {
        "merged_vege_undergrowth"
    } else {
        "merged_vege"
    }
}

} // verus!
