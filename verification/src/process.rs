//! The decisions of tile processing: which input format a file is in, which stages a
//! tile goes through for a given configuration, and how many workers run.
use vstd::prelude::*;
use crate::text::{ends_with, str_ends_with};

verus! {

/// The formats a point cloud tile can be read from.
#[derive(Debug, Clone, Copy, PartialEq, Eq, Structural)]
pub enum InputKind {
    /// Text lines `x y z [classification [number_of_returns [return_number]]]`.
    Xyz,
    /// LAS or LAZ point cloud.
    Laz,
    /// The internal binary record format, copied as is.
    XyzBin,
}

/// The input format of a lower-cased file name, suffixes checked in this order.
pub open spec fn input_kind_of(name: Seq<char>) -> Option<InputKind> {
    if ends_with(name, ".xyz"@) {
        Some(InputKind::Xyz)
    } else if ends_with(name, ".laz"@) || ends_with(name, ".las"@) {
        Some(InputKind::Laz)
    } else if ends_with(name, ".xyz.bin"@) {
        Some(InputKind::XyzBin)
    } else {
        None
    }
}

/// The input format of a (lower-cased) file name, or `None` when it is not supported.
pub fn input_kind(name: &str) -> (r: Option<InputKind>)
    ensures
        r == input_kind_of(name@),
{
    if str_ends_with(name, ".xyz") {
        Some(InputKind::Xyz)
    } else if str_ends_with(name, ".laz") || str_ends_with(name, ".las") {
        Some(InputKind::Laz)
    } else if str_ends_with(name, ".xyz.bin") {
        Some(InputKind::XyzBin)
    } else {
        None
    }
}

/// The configuration switches that decide which stages a tile goes through.
#[derive(Debug, Clone, Copy, PartialEq, Eq, Structural)]
pub struct TileFlags {
    pub vegeonly: bool,
    pub cliffsonly: bool,
    pub contoursonly: bool,
    pub skipknolldetection: bool,
    /// `basemapcontours` is not zero.
    pub basemap: bool,
    pub vectorvege: bool,
    pub detectbuildings: bool,
    /// The caller renders later (batch mode with shape files).
    pub skip_rendering: bool,
}

/// How a tile is rendered at the end of processing.
#[derive(Debug, Clone, Copy, PartialEq, Eq, Structural)]
pub enum RenderStage {
    /// Both png maps, with and without depressions.
    Maps,
    /// Form lines only, without an image.
    FormlinesOnly,
    /// No rendering.
    Skip,
}

/// The stages a tile goes through, in pipeline order.
#[derive(Debug, Clone, Copy, PartialEq, Eq, Structural)]
pub struct TileStages {
    /// Contours at 0.3 m from the first heightmap.
    pub contours03: bool,
    pub basemap: bool,
    pub knoll_detection: bool,
    /// Knoll lift, contours at half interval, smoothing and joining, dot knolls.
    pub contour_generation: bool,
    /// GeoJSON of contours and dot knolls.
    pub contour_geojson: bool,
    pub vegetation: bool,
    pub cliffs: bool,
    pub buildings: bool,
    pub render: RenderStage,
}

/// The stages of a tile for the given switches.
pub open spec fn stages_of(f: TileFlags) -> TileStages {
    let contours = !f.vegeonly && !f.cliffsonly;
    TileStages {
        contours03: contours,
        basemap: contours && f.basemap,
        knoll_detection: contours && !f.skipknolldetection,
        contour_generation: contours,
        contour_geojson: contours && f.vectorvege,
        vegetation: !f.cliffsonly && !f.contoursonly,
        cliffs: !f.vegeonly && !f.contoursonly,
        buildings: !f.vegeonly && !f.contoursonly && !f.cliffsonly && f.detectbuildings,
        render: if !f.skip_rendering && !f.vegeonly && !f.contoursonly && !f.cliffsonly {
            RenderStage::Maps
        } else if f.contoursonly {
            RenderStage::FormlinesOnly
        } else {
            RenderStage::Skip
        },
    }
}

/// What the "only" switches do: each one, set alone, runs its own stage and none of the
/// other main stages (contours, vegetation, cliffs, buildings) and no map rendering (a
/// contours-only run renders form lines alone); with none of them set every main stage
/// runs, buildings when detected, and maps unless rendering is skipped. A stage runs only
/// when no other stage's "only" switch is set.
pub proof fn lemma_only_switches(f: TileFlags)
    ensures
        f.vegeonly && !f.cliffsonly && !f.contoursonly ==> {
            let st = stages_of(f);
            &&& st.vegetation
            &&& !st.cliffs && !st.contour_generation && !st.contours03 && !st.buildings
            &&& st.render == RenderStage::Skip
        },
        f.cliffsonly && !f.vegeonly && !f.contoursonly ==> {
            let st = stages_of(f);
            &&& st.cliffs
            &&& !st.vegetation && !st.contour_generation && !st.contours03 && !st.buildings
            &&& st.render == RenderStage::Skip
        },
        f.contoursonly && !f.vegeonly && !f.cliffsonly ==> {
            let st = stages_of(f);
            &&& st.contour_generation && st.contours03
            &&& !st.vegetation && !st.cliffs && !st.buildings
            &&& st.render == RenderStage::FormlinesOnly
        },
        !f.vegeonly && !f.cliffsonly && !f.contoursonly ==> {
            let st = stages_of(f);
            &&& st.contour_generation && st.contours03 && st.vegetation && st.cliffs
            &&& st.buildings == f.detectbuildings
            &&& (st.render == RenderStage::Maps) == !f.skip_rendering
        },
        stages_of(f).cliffs ==> !f.vegeonly && !f.contoursonly,
        stages_of(f).vegetation ==> !f.cliffsonly && !f.contoursonly,
        stages_of(f).contour_generation ==> !f.vegeonly && !f.cliffsonly,
{
}

/// Decide which stages a tile goes through.
pub fn tile_stages(f: TileFlags) -> (r: TileStages)
    ensures
        r == stages_of(f),
{
    let contours = !f.vegeonly && !f.cliffsonly;
    let render = if !f.skip_rendering && !f.vegeonly && !f.contoursonly && !f.cliffsonly {
        RenderStage::Maps
    } else if f.contoursonly {
        RenderStage::FormlinesOnly
    } else {
        RenderStage::Skip
    };
    TileStages {
        contours03: contours,
        basemap: contours && f.basemap,
        knoll_detection: contours && !f.skipknolldetection,
        contour_generation: contours,
        contour_geojson: contours && f.vectorvege,
        vegetation: !f.cliffsonly && !f.contoursonly,
        cliffs: !f.vegeonly && !f.contoursonly,
        buildings: !f.vegeonly && !f.contoursonly && !f.cliffsonly && f.detectbuildings,
        render,
    }
}

/// Worker threads and bound of the ready queue: no more workers than files, and a queue of
/// half as many slots as workers, at least one.
pub fn worker_counts(processes: u64, files: usize) -> (r: (usize, usize))
    ensures
        r.0 == if (processes as int) < (files as int) {
            processes as int
        } else {
            files as int
        },
        r.1 == if r.0 / 2 > 1 {
            r.0 / 2
        } else {
            1
        },
        r.0 <= files && r.0 <= processes,
        r.0 == files || r.0 == processes,
        1 <= r.1 && (r.0 >= 2 ==> r.1 <= r.0),
{
    let threads: usize = if processes < files as u64 {
        processes as usize
    } else {
        files
    };
    let queue = if threads / 2 > 1 {
        threads / 2
    } else {
        1
    };
    (threads, queue)
}

// ---------------------------------------------------------------------------------------
// The text point format: `x y z [classification [number_of_returns [return_number]]]`
// ---------------------------------------------------------------------------------------

/// The fields of a line separated by single spaces, empty fields included: `n` spaces make
/// `n + 1` fields.
pub open spec fn space_fields(line: Seq<u8>) -> Seq<Seq<u8>>
    decreases line.len(),
{
    if line.len() == 0 {
        seq![Seq::empty()]
    } else {
        let before = space_fields(line.drop_last());
        if line.last() == 32u8 {
            before.push(Seq::empty())
        } else {
            before.update(before.len() - 1, before.last().push(line.last()))
        }
    }
}

/// Whether every byte of `s` is an ASCII digit.
pub open spec fn all_digits(s: Seq<u8>) -> bool {
    forall|i: int| 0 <= i < s.len() ==> 48 <= #[trigger] s[i] <= 57
}

/// The decimal value of a string of ASCII digits.
pub open spec fn digits_value(s: Seq<u8>) -> int
    decreases s.len(),
{
    if s.len() == 0 {
        0
    } else {
        digits_value(s.drop_last()) * 10 + (s.last() - 48)
    }
}

/// A field read as a `u8` the way Rust's `str::parse::<u8>` reads it: an optional `+`,
/// then one or more digits, the value at most 255. `None` where the parse fails.
pub open spec fn u8_field_of(field: Seq<u8>) -> Option<u8> {
    let digits = if field.len() > 0 && field[0] == 43u8 {
        field.skip(1)
    } else {
        field
    };
    if digits.len() > 0 && all_digits(digits) && digits_value(digits) <= 255 {
        Some(digits_value(digits) as u8)
    } else {
        None
    }
}

/// Field `k` read as a `u8`, or `default` when the line has no field `k`.
pub open spec fn u8_column_of(fields: Seq<Seq<u8>>, k: int, default: u8) -> Option<u8> {
    if k < fields.len() {
        u8_field_of(fields[k])
    } else {
        Some(default)
    }
}

/// The classification, number of returns and return number of a text point line: fields
/// 3, 4 and 5, defaulting to 2 (ground), 0 and 0; fields past them are ignored. `None`
/// when the line has fewer than the three coordinate fields, or a present column is not a
/// `u8`. The coordinates themselves are read by the caller.
pub open spec fn xyz_columns_of(line: Seq<u8>) -> Option<(u8, u8, u8)> {
    let fields = space_fields(line);
    let c = u8_column_of(fields, 3, 2);
    let n = u8_column_of(fields, 4, 0);
    let r = u8_column_of(fields, 5, 0);
    if fields.len() >= 3 && c is Some && n is Some && r is Some {
        Some((c->0, n->0, r->0))
    } else {
        None
    }
}

/// Split a line at its spaces (see [`space_fields`]).
fn split_spaces(line: &[u8]) -> (r: Vec<Vec<u8>>)
    ensures
        r@.map_values(|f: Vec<u8>| f@) == space_fields(line@),
{
    let mut done: Vec<Vec<u8>> = Vec::new();
    let mut cur: Vec<u8> = Vec::new();
    let mut i: usize = 0;
    while i < line.len()
        invariant
            i <= line@.len(),
            done@.map_values(|f: Vec<u8>| f@).push(cur@) == space_fields(line@.take(i as int)),
        decreases line@.len() - i,
    {
        let b = line[i];
        proof {
            assert(line@.take(i + 1).drop_last() =~= line@.take(i as int));
        }
        if b == 32u8 {
            let ghost old_done = done@;
            let ghost old_cur = cur@;
            done.push(cur);
            cur = Vec::new();
            proof {
                assert(done@.map_values(|f: Vec<u8>| f@) =~= old_done.map_values(|f: Vec<u8>| f@).push(
                    old_cur,
                ));
                assert(done@.map_values(|f: Vec<u8>| f@).push(cur@) =~= space_fields(
                    line@.take(i + 1),
                ));
            }
        } else {
            cur.push(b);
            proof {
                let prev = done@.map_values(|f: Vec<u8>| f@);
                assert(prev.push(cur@) =~= space_fields(line@.take(i + 1)));
            }
        }
        i = i + 1;
    }
    assert(line@.take(line@.len() as int) =~= line@);
    let ghost pre = done@.map_values(|f: Vec<u8>| f@);
    done.push(cur);
    assert(done@.map_values(|f: Vec<u8>| f@) =~= pre.push(cur@));
    done
}

/// Read a field as a `u8` (see [`u8_field_of`]).
fn parse_u8_field(field: &Vec<u8>) -> (r: Option<u8>)
    ensures
        r == u8_field_of(field@),
{
    let start: usize = if field.len() > 0 && field[0] == 43u8 {
        1
    } else {
        0
    };
    let ghost digits = if field@.len() > 0 && field@[0] == 43u8 {
        field@.skip(1)
    } else {
        field@
    };
    assert(digits =~= field@.skip(start as int));
    if start >= field.len() {
        return None;
    }
    let mut capped: u32 = 0;
    let mut i: usize = start;
    while i < field.len()
        invariant
            start <= i <= field@.len(),
            digits == field@.skip(start as int),
            digits == if field@.len() > 0 && field@[0] == 43u8 {
                field@.skip(1)
            } else {
                field@
            },
            all_digits(field@.subrange(start as int, i as int)),
            capped as int == if digits_value(field@.subrange(start as int, i as int)) < 256 {
                digits_value(field@.subrange(start as int, i as int))
            } else {
                256
            },
        decreases field@.len() - i,
    {
        let b = field[i];
        proof {
            assert(field@.subrange(start as int, i + 1).drop_last() =~= field@.subrange(
                start as int,
                i as int,
            ));
        }
        if b < 48 || b > 57 {
            proof {
                let k = i - start;
                assert(digits[k] == field@[i as int]);
                assert(!(48 <= digits[k] <= 57));
                assert(!all_digits(digits));
            }
            return None;
        }
        let d = (b - 48) as u32;
        capped = if capped >= 256 {
            256
        } else if capped * 10 + d >= 256 {
            256
        } else {
            capped * 10 + d
        };
        proof {
            let s0 = field@.subrange(start as int, i as int);
            let s1 = field@.subrange(start as int, i + 1);
            assert(s1.last() == b);
            assert(digits_value(s1) == digits_value(s0) * 10 + (b - 48));
            assert(digits_value(s0) >= 0) by {
                lemma_digits_value_nonneg(s0);
            }
            assert forall|k: int| 0 <= k < s1.len() implies 48 <= #[trigger] s1[k] <= 57 by {
                if k < s0.len() {
                    assert(s1[k] == s0[k]);
                }
            }
        }
        i = i + 1;
    }
    assert(field@.subrange(start as int, field@.len() as int) =~= digits);
    if capped <= 255 {
        Some(capped as u8)
    } else {
        None
    }
}

/// The value of a digit string is not negative.
proof fn lemma_digits_value_nonneg(s: Seq<u8>)
    requires
        all_digits(s),
    ensures
        digits_value(s) >= 0,
    decreases s.len(),
{
    if s.len() > 0 {
        assert(all_digits(s.drop_last()));
        lemma_digits_value_nonneg(s.drop_last());
    }
}

/// Read column `k` of a split line as a `u8`, or `default` when the line is shorter.
fn u8_column(fields: &Vec<Vec<u8>>, k: usize, default: u8) -> (r: Option<u8>)
    ensures
        r == u8_column_of(fields@.map_values(|f: Vec<u8>| f@), k as int, default),
{
    if k < fields.len() {
        parse_u8_field(&fields[k])
    } else {
        Some(default)
    }
}

/// The classification, number of returns and return number of a text point line (see
/// [`xyz_columns_of`]).
pub fn xyz_columns(line: &[u8]) -> (r: Option<(u8, u8, u8)>)
    ensures
        r == xyz_columns_of(line@),
{
    let fields = split_spaces(line);
    if fields.len() < 3 {
        return None;
    }
    let c = u8_column(&fields, 3, 2);
    let n = u8_column(&fields, 4, 0);
    let r = u8_column(&fields, 5, 0);
    match (c, n, r) {
        (Some(c), Some(n), Some(r)) => Some((c, n, r)),
        _ => None,
    }
}

} // verus!
