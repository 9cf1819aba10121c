//! Classification of map features and the polyline container, plus the endpoint
//! joining of polylines.
use vstd::prelude::*;
use crate::fxmap::{EndKey, SlotTable, slot_table, slot_table_get, slot_table_insert, slot_table_new};

verus! {

/// Classification used for contour generation, and for the other line and point
/// features carried through the pipeline. It also names the DXF layer of a feature.
#[derive(Debug, Clone, Copy, PartialEq, Eq, Structural)]
pub enum Classification {
    /// Used in first contour generation step
    ContourSimple,
    /// Used in second contour generation step (smoothjoin)
    Contour,
    ContourIndex,
    ContourIntermed,
    ContourIndexIntermed,
    Depression,
    DepressionIndex,
    DepressionIntermed,
    DepressionIndexIntermed,
    /// Use for formlines (generated in render)
    Formline,
    FormlineDepression,
    /// Used in dotknoll detections
    Dotknoll,
    Udepression,
    UglyDotknoll,
    UglyUdepression,
    /// Comes from knolldetector
    Knoll1010,
    /// Used for cliff generations
    Cliff2,
    Cliff3,
    Cliff4,
    /// The tick drawn inside a depression contour so it reads as a depression rather
    /// than a knoll (part of ISOM 2017-2 symbol 101).
    SlopeLine,
    SmallDepression,
    /// Vegetation area outlines, by ISOM 2017-2 symbol.
    Veg403,
    Veg406,
    Veg407,
    Veg408,
    Veg410,
}

/// The layer name of each classification.
pub open spec fn layer_name(c: Classification) -> Seq<char> {
    match c {
        Classification::ContourSimple => "cont"@,
        Classification::Contour => "contour"@,
        Classification::ContourIndex => "contour_index"@,
        Classification::ContourIntermed => "contour_intermed"@,
        Classification::ContourIndexIntermed => "contour_index_intermed"@,
        Classification::Depression => "depression"@,
        Classification::DepressionIndex => "depression_index"@,
        Classification::DepressionIntermed => "depression_intermed"@,
        Classification::DepressionIndexIntermed => "depression_index_intermed"@,
        Classification::Formline => "formline"@,
        Classification::FormlineDepression => "formline_depression"@,
        Classification::Dotknoll => "dotknoll"@,
        Classification::Udepression => "udepression"@,
        Classification::UglyDotknoll => "uglydotknoll"@,
        Classification::UglyUdepression => "uglyudepression"@,
        Classification::Knoll1010 => "1010"@,
        Classification::Cliff2 => "cliff2"@,
        Classification::Cliff3 => "cliff3"@,
        Classification::Cliff4 => "cliff4"@,
        Classification::SlopeLine => "slope_line"@,
        Classification::SmallDepression => "small_depression"@,
        Classification::Veg403 => "403"@,
        Classification::Veg406 => "406"@,
        Classification::Veg407 => "407"@,
        Classification::Veg408 => "408"@,
        Classification::Veg410 => "410"@,
    }
}

/// A full contour (plain, index, intermediate or both).
pub open spec fn spec_is_contour(c: Classification) -> bool {
    c == Classification::Contour || c == Classification::ContourIndex
        || c == Classification::ContourIntermed || c == Classification::ContourIndexIntermed
}

/// A depression contour (plain, index, intermediate or both).
pub open spec fn spec_is_depression(c: Classification) -> bool {
    c == Classification::Depression || c == Classification::DepressionIndex
        || c == Classification::DepressionIntermed
        || c == Classification::DepressionIndexIntermed
}

/// An index contour or index depression, intermediate or not.
pub open spec fn spec_is_index(c: Classification) -> bool {
    c == Classification::ContourIndex || c == Classification::ContourIndexIntermed
        || c == Classification::DepressionIndex || c == Classification::DepressionIndexIntermed
}

/// An intermediate (half-interval) contour or depression, index or not.
pub open spec fn spec_is_intermed(c: Classification) -> bool {
    c == Classification::ContourIntermed || c == Classification::ContourIndexIntermed
        || c == Classification::DepressionIntermed
        || c == Classification::DepressionIndexIntermed
}

impl Classification {
    /// Get the layer name for this classification.
    pub fn to_layer(&self) -> (r: &'static str)
        ensures
            r@ == layer_name(*self),
    {
        match self {
            Classification::ContourSimple => "cont",
            Classification::Contour => "contour",
            Classification::ContourIndex => "contour_index",
            Classification::ContourIntermed => "contour_intermed",
            Classification::ContourIndexIntermed => "contour_index_intermed",
            Classification::Depression => "depression",
            Classification::DepressionIndex => "depression_index",
            Classification::DepressionIntermed => "depression_intermed",
            Classification::DepressionIndexIntermed => "depression_index_intermed",
            Classification::Formline => "formline",
            Classification::FormlineDepression => "formline_depression",
            Classification::Dotknoll => "dotknoll",
            Classification::Udepression => "udepression",
            Classification::UglyDotknoll => "uglydotknoll",
            Classification::UglyUdepression => "uglyudepression",
            Classification::Knoll1010 => "1010",
            Classification::Cliff2 => "cliff2",
            Classification::Cliff3 => "cliff3",
            Classification::Cliff4 => "cliff4",
            Classification::SlopeLine => "slope_line",
            Classification::SmallDepression => "small_depression",
            Classification::Veg403 => "403",
            Classification::Veg406 => "406",
            Classification::Veg407 => "407",
            Classification::Veg408 => "408",
            Classification::Veg410 => "410",
        }
    }

    pub fn is_contour(&self) -> (r: bool)
        ensures
            r == spec_is_contour(*self),
    {
        match self {
            Classification::Contour | Classification::ContourIndex
            | Classification::ContourIntermed | Classification::ContourIndexIntermed => true,
            _ => false,
        }
    }

    pub fn is_depression(&self) -> (r: bool)
        ensures
            r == spec_is_depression(*self),
    {
        match self {
            Classification::Depression | Classification::DepressionIndex
            | Classification::DepressionIntermed
            | Classification::DepressionIndexIntermed => true,
            _ => false,
        }
    }

    pub fn is_index(&self) -> (r: bool)
        ensures
            r == spec_is_index(*self),
    {
        match self {
            Classification::ContourIndex | Classification::ContourIndexIntermed
            | Classification::DepressionIndex
            | Classification::DepressionIndexIntermed => true,
            _ => false,
        }
    }

    pub fn is_intermed(&self) -> (r: bool)
        ensures
            r == spec_is_intermed(*self),
    {
        match self {
            Classification::ContourIntermed | Classification::ContourIndexIntermed
            | Classification::DepressionIntermed
            | Classification::DepressionIndexIntermed => true,
            _ => false,
        }
    }
}

/// Distinct classifications name distinct layers, so a feature's layer tells its
/// classification back.
pub proof fn lemma_layer_names_distinct(a: Classification, b: Classification)
    requires
        a != b,
    ensures
        layer_name(a) != layer_name(b),
{
    reveal_strlit("cont");
    reveal_strlit("contour");
    reveal_strlit("contour_index");
    reveal_strlit("contour_intermed");
    reveal_strlit("contour_index_intermed");
    reveal_strlit("depression");
    reveal_strlit("depression_index");
    reveal_strlit("depression_intermed");
    reveal_strlit("depression_index_intermed");
    reveal_strlit("formline");
    reveal_strlit("formline_depression");
    reveal_strlit("dotknoll");
    reveal_strlit("udepression");
    reveal_strlit("uglydotknoll");
    reveal_strlit("uglyudepression");
    reveal_strlit("1010");
    reveal_strlit("cliff2");
    reveal_strlit("cliff3");
    reveal_strlit("cliff4");
    reveal_strlit("slope_line");
    reveal_strlit("small_depression");
    reveal_strlit("403");
    reveal_strlit("406");
    reveal_strlit("407");
    reveal_strlit("408");
    reveal_strlit("410");
    let la = layer_name(a);
    let lb = layer_name(b);
    if la == lb {
        assert(la.len() == lb.len());
        assert(la[0] == lb[0]);
        assert(la[1] == lb[1]);
        assert(la[2] == lb[2]);
        if la.len() > 5 {
            assert(la[5] == lb[5]);
        }
    }
}

/// A collection of polylines, each with its own classification.
#[derive(Debug)]
pub struct Polylines<P, C> {
    entries: Vec<(Vec<P>, C)>,
}

impl<P, C> View for Polylines<P, C> {
    type V = Seq<(Vec<P>, C)>;

    closed spec fn view(&self) -> Seq<(Vec<P>, C)> {
        self.entries@
    }
}

impl<P, C> Polylines<P, C> {
    pub fn new() -> (r: Self)
        ensures
            r@ == Seq::<(Vec<P>, C)>::empty(),
    {
        Polylines { entries: Vec::new() }
    }

    /// An empty collection with room for `capacity` polylines.
    pub fn with_capacity(capacity: usize) -> (r: Self)
        ensures
            r@ == Seq::<(Vec<P>, C)>::empty(),
    {
        Polylines { entries: Vec::with_capacity(capacity) }
    }

    /// Add a polyline with its classification at the end.
    pub fn push(&mut self, polyline: Vec<P>, class: C)
        ensures
            final(self)@ == old(self)@.push((polyline, class)),
    {
        self.entries.push((polyline, class));
    }

    /// Remove the last polyline, if any.
    pub fn pop(&mut self)
        ensures
            old(self)@.len() > 0 ==> final(self)@ == old(self)@.drop_last(),
            old(self)@.len() == 0 ==> final(self)@ == old(self)@,
    {
        let _ = self.entries.pop();
    }

    /// The polylines in order, each with its classification.
    pub fn iter(&self) -> (r: Vec<(&Vec<P>, &C)>)
        ensures
            r@.len() == self@.len(),
            forall|i: int|
                0 <= i < r@.len() ==> *(#[trigger] r@[i]).0 == self@[i].0 && *r@[i].1 == self@[i].1,
    {
        let mut r: Vec<(&Vec<P>, &C)> = Vec::with_capacity(self.entries.len());
        let mut i: usize = 0;
        while i < self.entries.len()
            invariant
                i <= self.entries@.len(),
                r@.len() == i,
                forall|k: int|
                    0 <= k < i ==> *(#[trigger] r@[k]).0 == self.entries@[k].0 && *r@[k].1
                        == self.entries@[k].1,
            decreases self.entries@.len() - i,
        {
            let e = &self.entries[i];
            r.push((&e.0, &e.1));
            i = i + 1;
        }
        r
    }

}

/// Popping right after a push gives back the collection as it was.
pub proof fn lemma_pop_undoes_push<P, C>(lines: Polylines<P, C>, polyline: Vec<P>, class: C)
    ensures
        lines@.push((polyline, class)).len() > 0,
        lines@.push((polyline, class)).drop_last() == lines@,
{
    assert(lines@.push((polyline, class)).drop_last() =~= lines@);
}

impl<P, C> Polylines<P, C> {
    #[allow(clippy::len_without_is_empty)]
    pub fn len(&self) -> (r: usize)
        ensures
            r == self@.len(),
    {
        self.entries.len()
    }
}

} // verus!

verus! {

// ---------------------------------------------------------------------------------------
// Joining polylines end to end
// ---------------------------------------------------------------------------------------

/// One piece of a joined line: the input slot it comes from, and whether it runs backwards.
pub type Piece = (usize, bool);

/// The endpoint a piece starts at.
pub open spec fn piece_start(ends: Seq<(EndKey, EndKey)>, p: Piece) -> EndKey {
    if p.1 {
        ends[p.0 as int].1
    } else {
        ends[p.0 as int].0
    }
}

/// The endpoint a piece ends at.
pub open spec fn piece_end(ends: Seq<(EndKey, EndKey)>, p: Piece) -> EndKey {
    if p.1 {
        ends[p.0 as int].0
    } else {
        ends[p.0 as int].1
    }
}

/// Consecutive pieces meet: each one ends where the next one starts.
pub open spec fn is_chain(ends: Seq<(EndKey, EndKey)>, ps: Seq<Piece>) -> bool {
    forall|i: int|
        0 <= i < ps.len() - 1 ==> #[trigger] piece_end(ends, ps[i]) == piece_start(ends, ps[i + 1])
}

/// The same piece, run the other way.
pub open spec fn flip(p: Piece) -> Piece {
    (p.0, !p.1)
}

/// A chain of pieces run the other way: last piece first, each one flipped.
pub open spec fn reversed_pieces(ps: Seq<Piece>) -> Seq<Piece> {
    Seq::new(ps.len(), |i: int| flip(ps[ps.len() - 1 - i]))
}

/// Which input lines take part in joining: those shorter than `max_vertices`.
pub open spec fn kept_lines<P, C>(lines: Seq<(Vec<P>, C)>, max_vertices: usize) -> Seq<bool> {
    Seq::new(lines.len(), |j: int| lines[j].0@.len() < max_vertices)
}

/// A plan for joining: for each input slot, the pieces its joined line is made of.
///
/// Every piece is a kept input line; each piece is a chain, so consecutive lines meet at
/// equal endpoint keys; a slot that is not empty still holds its own line, forwards; every
/// kept input line is used exactly once over all slots; and slot 0 is never given away.
pub open spec fn valid_join_plan(
    ends: Seq<(EndKey, EndKey)>,
    kept: Seq<bool>,
    plan: Seq<Seq<Piece>>,
) -> bool {
    &&& plan.len() == kept.len()
    &&& ends.len() == kept.len()
    &&& forall|l: int, k: int|
        0 <= l < plan.len() && 0 <= k < plan[l].len() ==> (#[trigger] plan[l][k]).0 < plan.len()
            && kept[plan[l][k].0 as int]
    &&& forall|l: int| 0 <= l < plan.len() ==> is_chain(ends, #[trigger] plan[l])
    &&& forall|l: int|
        0 <= l < plan.len() && (#[trigger] plan[l]).len() > 0 ==> plan[l].contains(
            (l as usize, false),
        )
    &&& forall|l1: int, k1: int, l2: int, k2: int|
        0 <= l1 < plan.len() && 0 <= k1 < plan[l1].len() && 0 <= l2 < plan.len() && 0 <= k2
            < plan[l2].len() && (#[trigger] plan[l1][k1]).0 == (#[trigger] plan[l2][k2]).0 ==> l1
            == l2 && k1 == k2
    &&& forall|j: int|
        0 <= j < kept.len() && #[trigger] kept[j] ==> exists|l: int, k: int|
            0 <= l < plan.len() && 0 <= k < plan[l].len() && (#[trigger] plan[l][k]).0 == j
    &&& (kept.len() > 0 && kept[0] ==> plan[0].len() > 0)
}

/// The points of one piece, in the direction the piece runs.
pub open spec fn piece_points<P, C>(lines: Seq<(Vec<P>, C)>, p: Piece) -> Seq<P> {
    if p.1 {
        lines[p.0 as int].0@.reverse()
    } else {
        lines[p.0 as int].0@
    }
}

/// The points of a chain of pieces, one piece after the other.
pub open spec fn chain_points<P, C>(lines: Seq<(Vec<P>, C)>, ps: Seq<Piece>) -> Seq<P>
    decreases ps.len(),
{
    if ps.len() == 0 {
        Seq::empty()
    } else {
        chain_points(lines, ps.drop_last()) + piece_points(lines, ps.last())
    }
}

/// The pieces of every slot, as sequences.
pub open spec fn plan_seq(plan: Seq<Vec<Piece>>) -> Seq<Seq<Piece>> {
    Seq::new(plan.len(), |l: int| plan[l]@)
}

/// How many slots still hold a line.
pub open spec fn live_count(ps: Seq<Seq<Piece>>) -> nat
    decreases ps.len(),
{
    if ps.len() == 0 {
        0
    } else {
        live_count(ps.drop_last()) + if ps.last().len() > 0 {
            1nat
        } else {
            0nat
        }
    }
}

/// An endpoint table is consistent with the current lines: every registered slot is in
/// range, and a registered slot that still holds a line still ends at that endpoint.
pub open spec fn table_ok(
    t: Map<EndKey, usize>,
    heads: Seq<EndKey>,
    tails: Seq<EndKey>,
    ps: Seq<Seq<Piece>>,
) -> bool {
    forall|key: EndKey|
        #[trigger] t.contains_key(key) ==> t[key] < ps.len() && (t[key] != 0 && ps[t[key] as int].len()
            > 0 ==> key == heads[t[key] as int] || key == tails[t[key] as int])
}

/// The state of the joining loop.
#[verifier::opaque]
pub open spec fn join_state_ok(
    ends: Seq<(EndKey, EndKey)>,
    kept: Seq<bool>,
    heads: Seq<EndKey>,
    tails: Seq<EndKey>,
    ps: Seq<Seq<Piece>>,
    pos: Seq<(int, int)>,
    t1: Map<EndKey, usize>,
    t2: Map<EndKey, usize>,
) -> bool {
    let n = kept.len();
    &&& ends.len() == n && heads.len() == n && tails.len() == n && ps.len() == n && pos.len() == n
    &&& forall|l: int, k: int|
        0 <= l < n && 0 <= k < ps[l].len() ==> (#[trigger] ps[l][k]).0 < n && kept[ps[l][k].0 as int]
            && pos[ps[l][k].0 as int] == (l, k)
    &&& forall|j: int|
        0 <= j < n && #[trigger] kept[j] ==> 0 <= pos[j].0 < n && 0 <= pos[j].1 < ps[pos[j].0].len()
            && ps[pos[j].0][pos[j].1].0 == j
    &&& forall|l: int| 0 <= l < n ==> is_chain(ends, #[trigger] ps[l])
    &&& forall|l: int|
        0 <= l < n && (#[trigger] ps[l]).len() > 0 ==> ps[l].contains((l as usize, false))
            && heads[l] == piece_start(ends, ps[l][0]) && tails[l] == piece_end(ends, ps[l].last())
    &&& table_ok(t1, heads, tails, ps)
    &&& table_ok(t2, heads, tails, ps)
    &&& (n > 0 && kept[0] ==> ps[0].len() > 0)
}

proof fn lemma_chain_concat(ends: Seq<(EndKey, EndKey)>, a: Seq<Piece>, b: Seq<Piece>)
    requires
        is_chain(ends, a),
        is_chain(ends, b),
        a.len() > 0,
        b.len() > 0,
        piece_end(ends, a.last()) == piece_start(ends, b[0]),
    ensures
        is_chain(ends, a + b),
{
    let c = a + b;
    assert forall|i: int| 0 <= i < c.len() - 1 implies #[trigger] piece_end(ends, c[i])
        == piece_start(ends, c[i + 1]) by {
        if i < a.len() - 1 {
            assert(piece_end(ends, a[i]) == piece_start(ends, a[i + 1]));
        } else if i == a.len() - 1 {
        } else {
            assert(piece_end(ends, b[i - a.len()]) == piece_start(ends, b[i - a.len() + 1]));
        }
    }
}

proof fn lemma_chain_reversed(ends: Seq<(EndKey, EndKey)>, a: Seq<Piece>)
    requires
        is_chain(ends, a),
    ensures
        is_chain(ends, reversed_pieces(a)),
        a.len() > 0 ==> piece_start(ends, reversed_pieces(a)[0]) == piece_end(ends, a.last()),
        a.len() > 0 ==> piece_end(ends, reversed_pieces(a).last()) == piece_start(ends, a[0]),
{
    let r = reversed_pieces(a);
    let n = a.len();
    assert forall|i: int| 0 <= i < r.len() - 1 implies #[trigger] piece_end(ends, r[i])
        == piece_start(ends, r[i + 1]) by {
        assert(piece_end(ends, a[n - 2 - i]) == piece_start(ends, a[n - 2 - i + 1]));
    }
}

proof fn lemma_live_count_update(ps: Seq<Seq<Piece>>, s: int, v: Seq<Piece>)
    requires
        0 <= s < ps.len(),
    ensures
        live_count(ps.update(s, v)) + (if ps[s].len() > 0 {
            1int
        } else {
            0int
        }) == live_count(ps) + (if v.len() > 0 {
            1int
        } else {
            0int
        }),
    decreases ps.len(),
{
    let u = ps.update(s, v);
    if s == ps.len() - 1 {
        assert(u.drop_last() =~= ps.drop_last());
    } else {
        assert(u.drop_last() =~= ps.drop_last().update(s, v));
        lemma_live_count_update(ps.drop_last(), s, v);
    }
}

} // verus!

verus! {

/// The pieces a donor slot contributes, in the direction they are taken.
pub open spec fn donor_pieces(d: Seq<Piece>, rev: bool) -> Seq<Piece> {
    if rev {
        reversed_pieces(d)
    } else {
        d
    }
}

/// The new position of a kept line after slot `t` is absorbed into slot `l`.
pub open spec fn absorbed_pos(
    pos: Seq<(int, int)>,
    l: int,
    t: int,
    len_l: int,
    len_t: int,
    at_tail: bool,
    rev: bool,
) -> Seq<(int, int)> {
    Seq::new(
        pos.len(),
        |j: int|
            if pos[j].0 == t {
                (
                    l,
                    (if at_tail {
                        len_l
                    } else {
                        0
                    }) + (if rev {
                        len_t - 1 - pos[j].1
                    } else {
                        pos[j].1
                    }),
                )
            } else if pos[j].0 == l {
                (
                    l,
                    (if at_tail {
                        0
                    } else {
                        len_t
                    }) + pos[j].1,
                )
            } else {
                pos[j]
            },
    )
}

proof fn lemma_absorb(
    ends: Seq<(EndKey, EndKey)>,
    kept: Seq<bool>,
    heads: Seq<EndKey>,
    tails: Seq<EndKey>,
    ps: Seq<Seq<Piece>>,
    pos: Seq<(int, int)>,
    t1: Map<EndKey, usize>,
    t2: Map<EndKey, usize>,
    l: int,
    t: int,
    at_tail: bool,
    rev: bool,
)
    requires
        join_state_ok(ends, kept, heads, tails, ps, pos, t1, t2),
        0 <= l < kept.len(),
        0 <= t < kept.len(),
        l != t,
        t != 0,
        ps[l].len() > 0,
        ps[t].len() > 0,
        at_tail && !rev ==> tails[l] == heads[t],
        at_tail && rev ==> tails[l] == tails[t],
        !at_tail && !rev ==> heads[l] == tails[t],
        !at_tail && rev ==> heads[l] == heads[t],
    ensures
        ({
            let b = donor_pieces(ps[t], rev);
            let key = if at_tail {
                tails[l]
            } else {
                heads[l]
            };
            let newl = if at_tail {
                ps[l] + b
            } else {
                b + ps[l]
            };
            let heads2 = if at_tail {
                heads
            } else {
                heads.update(l, if rev { tails[t] } else { heads[t] })
            };
            let tails2 = if at_tail {
                tails.update(l, if rev { heads[t] } else { tails[t] })
            } else {
                tails
            };
            join_state_ok(
                ends,
                kept,
                heads2,
                tails2,
                ps.update(l, newl).update(t, Seq::empty()),
                absorbed_pos(pos, l, t, ps[l].len() as int, ps[t].len() as int, at_tail, rev),
                t1.insert(key, 0),
                t2.insert(key, 0),
            )
        }),
{
    reveal(join_state_ok);
    let n = kept.len();
    let a = ps[l];
    let d = ps[t];
    let b = donor_pieces(d, rev);
    lemma_chain_reversed(ends, d);
    assert(heads[t] == piece_start(ends, d[0]) && tails[t] == piece_end(ends, d.last()));
    assert(heads[l] == piece_start(ends, a[0]) && tails[l] == piece_end(ends, a.last()));
    let key = if at_tail {
        tails[l]
    } else {
        heads[l]
    };
    let newl = if at_tail {
        a + b
    } else {
        b + a
    };
    let heads2 = if at_tail {
        heads
    } else {
        heads.update(l, piece_start(ends, b[0]))
    };
    let tails2 = if at_tail {
        tails.update(l, piece_end(ends, b.last()))
    } else {
        tails
    };
    let ps2 = ps.update(l, newl).update(t, Seq::empty());
    let pos2 = absorbed_pos(pos, l, t, a.len() as int, d.len() as int, at_tail, rev);
    let t1b = t1.insert(key, 0);
    let t2b = t2.insert(key, 0);
    let off_a: int = if at_tail {
        0
    } else {
        d.len() as int
    };
    let off_b: int = if at_tail {
        a.len() as int
    } else {
        0
    };
    assert(b.len() == d.len());
    assert(is_chain(ends, a));
    assert(is_chain(ends, d));
    lemma_chain_reversed(ends, d);
    assert(is_chain(ends, b));
    // where the pieces of the two slots land
    assert forall|k: int| 0 <= k < a.len() implies newl[off_a + k] == a[k] by {}
    assert forall|i: int| 0 <= i < b.len() implies newl[off_b + i] == b[i] by {}
    assert forall|i: int|
        0 <= i < d.len() implies #[trigger] b[i] == (if rev {
            flip(d[d.len() - 1 - i])
        } else {
            d[i]
        }) by {}
    // pieces and positions
    assert forall|s: int, k: int| 0 <= s < n && 0 <= k < ps2[s].len() implies (
    #[trigger] ps2[s][k]).0 < n && kept[ps2[s][k].0 as int] && pos2[ps2[s][k].0 as int] == (s, k) by {
        if s == t {
        } else if s == l {
            if off_a <= k < off_a + a.len() {
                let kk = k - off_a;
                assert(newl[k] == a[kk]);
                assert(ps[l][kk].0 < n && kept[ps[l][kk].0 as int] && pos[ps[l][kk].0 as int] == (
                l, kk));
            } else {
                let i = k - off_b;
                assert(0 <= i < b.len());
                assert(newl[k] == b[i]);
                if rev {
                    let ii = d.len() - 1 - i;
                    assert(ps[t][ii].0 < n && kept[ps[t][ii].0 as int] && pos[ps[t][ii].0 as int]
                        == (t, ii));
                } else {
                    assert(ps[t][i].0 < n && kept[ps[t][i].0 as int] && pos[ps[t][i].0 as int] == (
                    t, i));
                }
            }
        } else {
            assert(ps2[s] == ps[s]);
            assert(ps[s][k].0 < n && kept[ps[s][k].0 as int] && pos[ps[s][k].0 as int] == (s, k));
        }
    }
    assert forall|j: int| 0 <= j < n && #[trigger] kept[j] implies 0 <= pos2[j].0 < n && 0
        <= pos2[j].1 < ps2[pos2[j].0].len() && ps2[pos2[j].0][pos2[j].1].0 == j by {
        let s = pos[j].0;
        let i = pos[j].1;
        assert(0 <= s < n && 0 <= i < ps[s].len() && ps[s][i].0 == j);
        if s == t {
            if rev {
                let ii = d.len() - 1 - i;
                assert(b[ii] == flip(d[d.len() - 1 - ii]));
                assert(newl[off_b + ii] == b[ii]);
            } else {
                assert(newl[off_b + i] == b[i]);
            }
        } else if s == l {
            assert(newl[off_a + i] == a[i]);
        } else {
        }
    }
    // chains and endpoints
    if at_tail {
        lemma_chain_concat(ends, a, b);
    } else {
        lemma_chain_concat(ends, b, a);
    }
    assert forall|s: int| 0 <= s < n implies is_chain(ends, #[trigger] ps2[s]) by {
        if s == t {
        } else if s == l {
        } else {
            assert(is_chain(ends, ps[s]));
        }
    }
    assert forall|s: int| 0 <= s < n && (#[trigger] ps2[s]).len() > 0 implies ps2[s].contains(
        (s as usize, false),
    ) && heads2[s] == piece_start(ends, ps2[s][0]) && tails2[s] == piece_end(ends, ps2[s].last()) by {
        if s == l {
            assert(a.contains((l as usize, false)));
            let w = choose|w: int| 0 <= w < a.len() && a[w] == (l as usize, false);
            assert(newl[off_a + w] == a[w]);
            if at_tail {
                assert(newl[0] == a[0]);
                assert(newl.last() == b[b.len() - 1]);
            } else {
                assert(newl[0] == b[0]);
                assert(newl.last() == a[a.len() - 1]);
            }
        } else {
            assert(ps2[s] == ps[s]);
            assert(ps[s].len() > 0);
        }
    }
    // the endpoint tables
    assert forall|k2: EndKey| #[trigger] t1b.contains_key(k2) implies t1b[k2] < ps2.len() && (
    t1b[k2] != 0 && ps2[t1b[k2] as int].len() > 0 ==> k2 == heads2[t1b[k2] as int] || k2
        == tails2[t1b[k2] as int]) by {
        if k2 != key {
            assert(t1.contains_key(k2));
            let v = t1[k2] as int;
            if v != 0 && ps2[v].len() > 0 {
                assert(v != t);
                assert(ps[v].len() > 0);
            }
        }
    }
    assert forall|k2: EndKey| #[trigger] t2b.contains_key(k2) implies t2b[k2] < ps2.len() && (
    t2b[k2] != 0 && ps2[t2b[k2] as int].len() > 0 ==> k2 == heads2[t2b[k2] as int] || k2
        == tails2[t2b[k2] as int]) by {
        if k2 != key {
            assert(t2.contains_key(k2));
            let v = t2[k2] as int;
            if v != 0 && ps2[v].len() > 0 {
                assert(v != t);
                assert(ps[v].len() > 0);
            }
        }
    }
    assert(n > 0 && kept[0] ==> ps2[0].len() > 0) by {
        if n > 0 && kept[0] {
            assert(ps[0].len() > 0);
            if 0 == l {
            } else {
                assert(ps2[0] == ps[0]);
            }
        }
    }
}

} // verus!

verus! {

proof fn lemma_state_gives_plan(
    ends: Seq<(EndKey, EndKey)>,
    kept: Seq<bool>,
    heads: Seq<EndKey>,
    tails: Seq<EndKey>,
    ps: Seq<Seq<Piece>>,
    pos: Seq<(int, int)>,
    t1: Map<EndKey, usize>,
    t2: Map<EndKey, usize>,
)
    requires
        join_state_ok(ends, kept, heads, tails, ps, pos, t1, t2),
    ensures
        valid_join_plan(ends, kept, ps),
{
    reveal(join_state_ok);
    let n = kept.len();
    assert forall|l1: int, k1: int, l2: int, k2: int|
        0 <= l1 < ps.len() && 0 <= k1 < ps[l1].len() && 0 <= l2 < ps.len() && 0 <= k2
            < ps[l2].len() && (#[trigger] ps[l1][k1]).0 == (#[trigger] ps[l2][k2]).0 implies l1
        == l2 && k1 == k2 by {
        assert(pos[ps[l1][k1].0 as int] == (l1, k1));
        assert(pos[ps[l2][k2].0 as int] == (l2, k2));
    }
    assert forall|j: int| 0 <= j < kept.len() && #[trigger] kept[j] implies exists|l: int, k: int|
        0 <= l < ps.len() && 0 <= k < ps[l].len() && (#[trigger] ps[l][k]).0 == j by {
        let l = pos[j].0;
        let k = pos[j].1;
        assert(0 <= l < ps.len() && 0 <= k < ps[l].len() && ps[l][k].0 == j);
    }
}

fn same_key(a: EndKey, b: EndKey) -> (r: bool)
    ensures
        r == (a == b),
{
    a.0 == b.0 && a.1 == b.1
}

/// The slot registered for an endpoint, or 0 (no line) when none is.
fn slot_or_zero(m: &SlotTable, k: &EndKey) -> (r: usize)
    ensures
        r == (if slot_table(*m).contains_key(*k) {
            slot_table(*m)[*k]
        } else {
            0
        }),
{
    match slot_table_get(m, k) {
        Some(v) => v,
        None => 0,
    }
}

fn pieces_concat(a: &Vec<Piece>, b: &Vec<Piece>) -> (r: Vec<Piece>)
    ensures
        r@ == a@ + b@,
{
    let mut r: Vec<Piece> = Vec::new();
    let mut i: usize = 0;
    while i < a.len()
        invariant
            i <= a@.len(),
            r@ == a@.take(i as int),
        decreases a@.len() - i,
    {
        r.push(a[i]);
        i = i + 1;
        assert(r@ =~= a@.take(i as int));
    }
    let mut k: usize = 0;
    while k < b.len()
        invariant
            k <= b@.len(),
            r@ == a@ + b@.take(k as int),
        decreases b@.len() - k,
    {
        r.push(b[k]);
        k = k + 1;
        assert(r@ =~= a@ + b@.take(k as int));
    }
    assert(b@.take(b@.len() as int) =~= b@);
    assert(a@.take(a@.len() as int) =~= a@);
    r
}

fn pieces_reversed(a: &Vec<Piece>) -> (r: Vec<Piece>)
    ensures
        r@ == reversed_pieces(a@),
{
    let mut r: Vec<Piece> = Vec::with_capacity(a.len());
    let n = a.len();
    let mut i: usize = 0;
    while i < n
        invariant
            n == a@.len(),
            i <= n,
            r@ == reversed_pieces(a@).take(i as int),
        decreases n - i,
    {
        let p = a[n - 1 - i];
        r.push((p.0, !p.1));
        i = i + 1;
        assert(r@ =~= reversed_pieces(a@).take(i as int));
    }
    assert(reversed_pieces(a@).take(n as int) =~= reversed_pieces(a@));
    r
}

} // verus!


verus! {

/// The slot a table registers at endpoint `k`, 0 when none is.
pub open spec fn slot_at(m: Map<EndKey, usize>, k: EndKey) -> usize {
    if m.contains_key(k) {
        m[k]
    } else {
        0
    }
}

/// Slot `t` can join slot `l`: it is a real slot (not 0), not `l` itself, and still holds a
/// line.
pub open spec fn live_partner(plan: Seq<Seq<Piece>>, t: usize, l: usize) -> bool {
    t != 0 && t != l && t < plan.len() && plan[t as int].len() > 0
}

/// The first live partner slot registered at one of `l`'s ends, in lookup order: the head
/// in the first table, the head in the second, the tail in the second, the tail in the
/// first; `None` when none of them is live.
pub open spec fn partner_of(
    heads1: Map<EndKey, usize>,
    heads2: Map<EndKey, usize>,
    plan: Seq<Seq<Piece>>,
    hl: EndKey,
    tl: EndKey,
    l: usize,
) -> Option<usize> {
    if live_partner(plan, slot_at(heads1, hl), l) {
        Some(slot_at(heads1, hl))
    } else if live_partner(plan, slot_at(heads2, hl), l) {
        Some(slot_at(heads2, hl))
    } else if live_partner(plan, slot_at(heads2, tl), l) {
        Some(slot_at(heads2, tl))
    } else if live_partner(plan, slot_at(heads1, tl), l) {
        Some(slot_at(heads1, tl))
    } else {
        None
    }
}

/// The state of joining: the two endpoint tables, the current first and last endpoint of
/// every slot, and the pieces every slot holds.
pub ghost struct JoinState {
    pub t1: Map<EndKey, usize>,
    pub t2: Map<EndKey, usize>,
    pub heads: Seq<EndKey>,
    pub tails: Seq<EndKey>,
    pub ps: Seq<Seq<Piece>>,
}

/// A joining state from its parts.
pub open spec fn join_state(
    t1: Map<EndKey, usize>,
    t2: Map<EndKey, usize>,
    heads: Seq<EndKey>,
    tails: Seq<EndKey>,
    ps: Seq<Seq<Piece>>,
) -> JoinState {
    JoinState { t1, t2, heads, tails, ps }
}

/// The key of an endpoint of a line that takes no part.
pub open spec fn no_key() -> EndKey {
    (i64::MAX, i64::MAX)
}

/// Register slot `j` at endpoint `key`: in the first table when that has no slot (or slot 0)
/// there, else in the second.
pub open spec fn register_key(
    t1: Map<EndKey, usize>,
    t2: Map<EndKey, usize>,
    key: EndKey,
    j: usize,
) -> (Map<EndKey, usize>, Map<EndKey, usize>) {
    if slot_at(t1, key) == 0 {
        (t1.insert(key, j), t2)
    } else {
        (t1, t2.insert(key, j))
    }
}

/// The endpoint tables after the first `j` lines registered their head and then their tail.
pub open spec fn registered(ends: Seq<(EndKey, EndKey)>, kept: Seq<bool>, j: int) -> (Map<EndKey, usize>, Map<EndKey, usize>)
    decreases j,
{
    if j <= 0 {
        (Map::empty(), Map::empty())
    } else {
        let prev = registered(ends, kept, j - 1);
        if kept[j - 1] {
            let a = register_key(prev.0, prev.1, ends[j - 1].0, (j - 1) as usize);
            register_key(a.0, a.1, ends[j - 1].1, (j - 1) as usize)
        } else {
            prev
        }
    }
}

/// The state before any joining: every kept line alone in its own slot.
pub open spec fn initial_join_state(ends: Seq<(EndKey, EndKey)>, kept: Seq<bool>) -> JoinState {
    let n = kept.len();
    let t = registered(ends, kept, n as int);
    JoinState {
        t1: t.0,
        t2: t.1,
        heads: Seq::new(n, |s: int| if kept[s] { ends[s].0 } else { no_key() }),
        tails: Seq::new(n, |s: int| if kept[s] { ends[s].1 } else { no_key() }),
        ps: Seq::new(n, |s: int| if kept[s] { seq![(s as usize, false)] } else { Seq::empty() }),
    }
}

/// Slot `l` takes over the line of slot `t`: at its tail when its tail meets the other's
/// head (as is) or tail (reversed), else at its head when its head meets the other's tail
/// (as is) or head (reversed). The shared endpoint is set to slot 0 in both tables and slot
/// `t` is left empty.
pub open spec fn absorb_state(st: JoinState, l: int, t: int) -> JoinState {
    let hl = st.heads[l];
    let tl = st.tails[l];
    let ht = st.heads[t];
    let tt = st.tails[t];
    let at_tail = tl == ht || tl == tt;
    let rev = if tl == ht {
        false
    } else if tl == tt {
        true
    } else if hl == tt {
        false
    } else {
        true
    };
    let key = if at_tail {
        tl
    } else {
        hl
    };
    let donor = donor_pieces(st.ps[t], rev);
    let merged = if at_tail {
        st.ps[l] + donor
    } else {
        donor + st.ps[l]
    };
    JoinState {
        t1: st.t1.insert(key, 0),
        t2: st.t2.insert(key, 0),
        heads: if at_tail {
            st.heads
        } else {
            st.heads.update(l, if rev { tt } else { ht })
        },
        tails: if at_tail {
            st.tails.update(l, if rev { ht } else { tt })
        } else {
            st.tails
        },
        ps: st.ps.update(l, merged).update(t, Seq::empty()),
    }
}

/// Slot `l` absorbs partners (see [`partner_of`]) until none is left, for at most `fuel`
/// joins.
pub open spec fn settle_slot(st: JoinState, l: int, fuel: nat) -> JoinState
    decreases fuel,
{
    if fuel == 0 {
        st
    } else {
        match partner_of(st.t1, st.t2, st.ps, st.heads[l], st.tails[l], l as usize) {
            Some(t) => settle_slot(absorb_state(st, l, t as int), l, (fuel - 1) as nat),
            None => st,
        }
    }
}

/// Slots `l` to `n - 1`, in order, each one still holding a line absorbing its partners.
pub open spec fn join_from(st: JoinState, l: int, n: int) -> JoinState
    decreases n - l,
{
    if l >= n {
        st
    } else {
        let next = if st.ps[l].len() > 0 {
            settle_slot(st, l, n as nat)
        } else {
            st
        };
        join_from(next, l + 1, n)
    }
}

/// The pieces of every slot after joining.
pub open spec fn joined_plan(ends: Seq<(EndKey, EndKey)>, kept: Seq<bool>) -> Seq<Seq<Piece>> {
    join_from(initial_join_state(ends, kept), 0, kept.len() as int).ps
}

/// Two slots that both hold a line make at least two live slots.
proof fn lemma_live_count_two(ps: Seq<Seq<Piece>>, a: int, b: int)
    requires
        0 <= a < ps.len(),
        0 <= b < ps.len(),
        a != b,
        ps[a].len() > 0,
        ps[b].len() > 0,
    ensures
        live_count(ps) >= 2,
    decreases ps.len(),
{
    let last = ps.len() - 1;
    if a == last {
        lemma_live_count_one(ps.drop_last(), b);
    } else if b == last {
        lemma_live_count_one(ps.drop_last(), a);
    } else {
        lemma_live_count_two(ps.drop_last(), a, b);
    }
}

/// A slot that holds a line makes at least one live slot.
proof fn lemma_live_count_one(ps: Seq<Seq<Piece>>, a: int)
    requires
        0 <= a < ps.len(),
        ps[a].len() > 0,
    ensures
        live_count(ps) >= 1,
    decreases ps.len(),
{
    if a < ps.len() - 1 {
        lemma_live_count_one(ps.drop_last(), a);
    }
}

/// There are no more live slots than slots.
proof fn lemma_live_count_le(ps: Seq<Seq<Piece>>)
    ensures
        live_count(ps) <= ps.len(),
    decreases ps.len(),
{
    if ps.len() > 0 {
        lemma_live_count_le(ps.drop_last());
    }
}

/// The first live partner slot registered at one of `l`'s ends, in lookup order:
/// the head in the first table, the head in the second, the tail in the second, the tail in
/// the first (see [`partner_of`]).
fn find_partner(
    heads1: &SlotTable,
    heads2: &SlotTable,
    plan: &Vec<Vec<Piece>>,
    hl: EndKey,
    tl: EndKey,
    l: usize,
) -> (r: Option<usize>)
    requires
        forall|k: EndKey| #[trigger] slot_table(*heads1).contains_key(k) ==> slot_table(*heads1)[k] < plan@.len(),
        forall|k: EndKey| #[trigger] slot_table(*heads2).contains_key(k) ==> slot_table(*heads2)[k] < plan@.len(),
    ensures
        match r {
            Some(t) => t != 0 && t != l && t < plan@.len() && plan@[t as int]@.len() > 0 && (
            (slot_table(*heads1).contains_key(hl) && slot_table(*heads1)[hl] == t) || (slot_table(
                *heads2,
            ).contains_key(hl) && slot_table(*heads2)[hl] == t) || (slot_table(*heads2).contains_key(
                tl,
            ) && slot_table(*heads2)[tl] == t) || (slot_table(*heads1).contains_key(tl) && slot_table(
                *heads1,
            )[tl] == t)),
            None => true,
        },
        r == partner_of(slot_table(*heads1), slot_table(*heads2), plan_seq(plan@), hl, tl, l),
{
    assert forall|t: usize| t < plan@.len() implies plan_seq(plan@)[t as int].len() == plan@[t as int]@.len() by {}
    let tmp = slot_or_zero(heads1, &hl);
    if tmp != 0 && tmp != l && plan[tmp].len() > 0 {
        return Some(tmp);
    }
    let tmp = slot_or_zero(heads2, &hl);
    if tmp != 0 && tmp != l && plan[tmp].len() > 0 {
        return Some(tmp);
    }
    let tmp = slot_or_zero(heads2, &tl);
    if tmp != 0 && tmp != l && plan[tmp].len() > 0 {
        return Some(tmp);
    }
    let tmp = slot_or_zero(heads1, &tl);
    if tmp != 0 && tmp != l && plan[tmp].len() > 0 {
        return Some(tmp);
    }
    None
}

/// Slot `l` takes over the line of slot `tj`, at whichever of its ends the two meet; the
/// shared endpoint is retired from both tables and slot `tj` is left empty.
fn absorb(
    heads1: &mut SlotTable,
    heads2: &mut SlotTable,
    heads: &mut Vec<EndKey>,
    tails: &mut Vec<EndKey>,
    plan: &mut Vec<Vec<Piece>>,
    ends: &Vec<(EndKey, EndKey)>,
    kept: &Vec<bool>,
    l: usize,
    tj: usize,
    Ghost(pos): Ghost<Seq<(int, int)>>,
) -> (new_pos: Ghost<Seq<(int, int)>>)
    requires
        join_state_ok(
            ends@,
            kept@,
            old(heads)@,
            old(tails)@,
            plan_seq(old(plan)@),
            pos,
            slot_table(*old(heads1)),
            slot_table(*old(heads2)),
        ),
        l < kept@.len(),
        tj < kept@.len(),
        old(plan)@.len() == kept@.len(),
        old(heads)@.len() == kept@.len(),
        old(tails)@.len() == kept@.len(),
        l != tj,
        tj != 0,
        old(plan)@[l as int]@.len() > 0,
        old(plan)@[tj as int]@.len() > 0,
        old(heads)@[l as int] == old(heads)@[tj as int] || old(heads)@[l as int] == old(tails)@[tj as int]
            || old(tails)@[l as int] == old(heads)@[tj as int] || old(tails)@[l as int] == old(
        tails)@[tj as int],
    ensures
        join_state_ok(
            ends@,
            kept@,
            final(heads)@,
            final(tails)@,
            plan_seq(final(plan)@),
            new_pos@,
            slot_table(*final(heads1)),
            slot_table(*final(heads2)),
        ),
        live_count(plan_seq(final(plan)@)) < live_count(plan_seq(old(plan)@)),
        final(plan)@.len() == old(plan)@.len(),
        final(heads)@.len() == old(heads)@.len(),
        final(tails)@.len() == old(tails)@.len(),
        final(plan)@[l as int]@.len() > 0,
        join_state(
            slot_table(*final(heads1)),
            slot_table(*final(heads2)),
            final(heads)@,
            final(tails)@,
            plan_seq(final(plan)@),
        ) == absorb_state(
            join_state(
                slot_table(*old(heads1)),
                slot_table(*old(heads2)),
                old(heads)@,
                old(tails)@,
                plan_seq(old(plan)@),
            ),
            l as int,
            tj as int,
        ),
{
    let ghost ps = plan_seq(plan@);
    let ghost t1 = slot_table(*heads1);
    let ghost t2 = slot_table(*heads2);
    let ghost oheads = heads@;
    let ghost otails = tails@;
    proof {
        assert(ps[tj as int] == plan@[tj as int]@);
        assert(ps[l as int] == plan@[l as int]@);
    }
    let hl = heads[l];
    let tl = tails[l];
    let htj = heads[tj];
    let ttj = tails[tj];
    let at_tail: bool;
    let rev: bool;
    if same_key(tl, htj) {
        at_tail = true;
        rev = false;
    } else if same_key(tl, ttj) {
        at_tail = true;
        rev = true;
    } else if same_key(hl, ttj) {
        at_tail = false;
        rev = false;
    } else {
        at_tail = false;
        rev = true;
    }
    let key = if at_tail {
        tl
    } else {
        hl
    };
    slot_table_insert(heads2, key, 0);
    slot_table_insert(heads1, key, 0);
    let donor = if rev {
        pieces_reversed(&plan[tj])
    } else {
        pieces_concat(&plan[tj], &Vec::new())
    };
    assert(donor@ =~= donor_pieces(ps[tj as int], rev));
    let merged = if at_tail {
        pieces_concat(&plan[l], &donor)
    } else {
        pieces_concat(&donor, &plan[l])
    };
    if at_tail {
        if rev {
            tails.set(l, htj);
        } else {
            tails.set(l, ttj);
        }
    } else {
        if rev {
            heads.set(l, ttj);
        } else {
            heads.set(l, htj);
        }
    }
    plan.set(l, merged);
    plan.set(tj, Vec::new());
    proof {
        lemma_absorb(
            ends@,
            kept@,
            oheads,
            otails,
            ps,
            pos,
            t1,
            t2,
            l as int,
            tj as int,
            at_tail,
            rev,
        );
        let newl = if at_tail {
            ps[l as int] + donor@
        } else {
            donor@ + ps[l as int]
        };
        let ps2 = ps.update(l as int, newl).update(tj as int, Seq::empty());
        assert(plan_seq(plan@) =~= ps2);
        if at_tail {
            assert(heads@ =~= oheads);
            assert(tails@ =~= otails.update(l as int, if rev { htj } else { ttj }));
        } else {
            assert(tails@ =~= otails);
            assert(heads@ =~= oheads.update(l as int, if rev { ttj } else { htj }));
        }
        lemma_live_count_update(ps, l as int, newl);
        lemma_live_count_update(ps.update(l as int, newl), tj as int, Seq::empty());
        assert(plan@[l as int]@ == newl);
    }
    Ghost(absorbed_pos(pos, l as int, tj as int, ps[l as int].len() as int, ps[tj as int].len() as int, at_tail, rev))
}

} // verus!

verus! {

/// Plan the joining of lines whose endpoint keys meet, end to end.
///
/// `ends[j]` holds the keys of the first and last point of line `j`; `kept[j]` says whether
/// line `j` takes part. Slot 0 is never chosen as a join partner: the lookup tables use
/// index 0 as "no line".
fn join_plan(ends: &Vec<(EndKey, EndKey)>, kept: &Vec<bool>) -> (plan: Vec<Vec<Piece>>)
    requires
        ends@.len() == kept@.len(),
    ensures
        valid_join_plan(ends@, kept@, plan_seq(plan@)),
        plan_seq(plan@) == joined_plan(ends@, kept@),
{
    let n = kept.len();
    let mut heads1 = slot_table_new();
    let mut heads2 = slot_table_new();
    let mut heads: Vec<EndKey> = Vec::with_capacity(n);
    let mut tails: Vec<EndKey> = Vec::with_capacity(n);
    let mut plan: Vec<Vec<Piece>> = Vec::with_capacity(n);
    let none: EndKey = (i64::MAX, i64::MAX);

    let mut j: usize = 0;
    while j < n
        invariant
            n == kept@.len(),
            n == ends@.len(),
            j <= n,
            heads@.len() == j,
            tails@.len() == j,
            plan@.len() == j,
            forall|s: int|
                0 <= s < j ==> (#[trigger] plan@[s])@ == (if kept@[s] {
                    seq![(s as usize, false)]
                } else {
                    Seq::<Piece>::empty()
                }),
            forall|s: int|
                0 <= s < j && #[trigger] kept@[s] ==> heads@[s] == ends@[s].0 && tails@[s]
                    == ends@[s].1,
            none == no_key(),
            forall|s: int|
                0 <= s < j && !(#[trigger] kept@[s]) ==> heads@[s] == no_key() && tails@[s] == no_key(),
            (slot_table(heads1), slot_table(heads2)) == registered(ends@, kept@, j as int),
            table_ok(slot_table(heads1), heads@, tails@, plan_seq(plan@)),
            table_ok(slot_table(heads2), heads@, tails@, plan_seq(plan@)),
        decreases n - j,
    {
        if kept[j] {
            let head = ends[j].0;
            let tail = ends[j].1;
            heads.push(head);
            tails.push(tail);
            plan.push(vec![(j, false)]);
            assert(plan_seq(plan@)[j as int] =~= seq![(j, false)]);
            if slot_or_zero(&heads1, &head) == 0 {
                slot_table_insert(&mut heads1, head, j);
            } else {
                slot_table_insert(&mut heads2, head, j);
            }
            if slot_or_zero(&heads1, &tail) == 0 {
                slot_table_insert(&mut heads1, tail, j);
            } else {
                slot_table_insert(&mut heads2, tail, j);
            }
        } else {
            heads.push(none);
            tails.push(none);
            plan.push(Vec::new());
        }
        proof {
            let ps = plan_seq(plan@);
            assert forall|k: EndKey| #[trigger] slot_table(heads1).contains_key(k) implies slot_table(
                heads1,
            )[k] < ps.len() && (slot_table(heads1)[k] != 0 && ps[slot_table(heads1)[k] as int].len()
                > 0 ==> k == heads@[slot_table(heads1)[k] as int] || k == tails@[slot_table(
                heads1,
            )[k] as int]) by {
                let v = slot_table(heads1)[k] as int;
                if v < j {
                    assert(ps[v] == plan@[v]@);
                }
            }
            assert forall|k: EndKey| #[trigger] slot_table(heads2).contains_key(k) implies slot_table(
                heads2,
            )[k] < ps.len() && (slot_table(heads2)[k] != 0 && ps[slot_table(heads2)[k] as int].len()
                > 0 ==> k == heads@[slot_table(heads2)[k] as int] || k == tails@[slot_table(
                heads2,
            )[k] as int]) by {
                let v = slot_table(heads2)[k] as int;
                if v < j {
                    assert(ps[v] == plan@[v]@);
                }
            }
        }
        j = j + 1;
    }
    let ghost target = join_from(initial_join_state(ends@, kept@), 0, n as int);
    proof {
        let init = initial_join_state(ends@, kept@);
        assert(heads@ =~= init.heads);
        assert(tails@ =~= init.tails);
        assert forall|s: int| 0 <= s < n implies plan_seq(plan@)[s] == init.ps[s] by {
            assert(plan_seq(plan@)[s] == plan@[s]@);
        }
        assert(plan_seq(plan@) =~= init.ps);
        assert(join_state(slot_table(heads1), slot_table(heads2), heads@, tails@, plan_seq(plan@))
            == init);
    }

    let ghost mut pos: Seq<(int, int)> = Seq::new(n as nat, |s: int| (s, 0int));
    proof {
        let ps = plan_seq(plan@);
        assert forall|l: int| 0 <= l < n implies is_chain(ends@, #[trigger] ps[l]) by {
            assert(ps[l] == plan@[l]@);
        }
        assert forall|l: int| 0 <= l < n && (#[trigger] ps[l]).len() > 0 implies ps[l].contains(
            (l as usize, false),
        ) && heads@[l] == piece_start(ends@, ps[l][0]) && tails@[l] == piece_end(
            ends@,
            ps[l].last(),
        ) by {
            assert(ps[l] == plan@[l]@);
            assert(kept@[l]);
            assert(ps[l][0] == (l as usize, false));
        }
        assert forall|l: int, k: int| 0 <= l < n && 0 <= k < ps[l].len() implies (
        #[trigger] ps[l][k]).0 < n && kept@[ps[l][k].0 as int] && pos[ps[l][k].0 as int] == (l, k) by {
            assert(ps[l] == plan@[l]@);
            assert(kept@[l]);
        }
        assert forall|s: int| 0 <= s < n && #[trigger] kept@[s] implies 0 <= pos[s].0 < n && 0
            <= pos[s].1 < ps[pos[s].0].len() && ps[pos[s].0][pos[s].1].0 == s by {
            assert(ps[s] == plan@[s]@);
        }
        if n > 0 && kept@[0] {
            assert(ps[0] == plan@[0]@);
        }
        reveal(join_state_ok);
    }

    let mut l: usize = 0;
    while l < n
        invariant
            n == kept@.len(),
            n == ends@.len(),
            plan@.len() == n,
            heads@.len() == n,
            tails@.len() == n,
            l <= n,
            join_state_ok(
                ends@,
                kept@,
                heads@,
                tails@,
                plan_seq(plan@),
                pos,
                slot_table(heads1),
                slot_table(heads2),
            ),
            target == join_from(
                join_state(slot_table(heads1), slot_table(heads2), heads@, tails@, plan_seq(plan@)),
                l as int,
                n as int,
            ),
        decreases n - l,
    {
        let ghost cur0 = join_state(slot_table(heads1), slot_table(heads2), heads@, tails@, plan_seq(plan@));
        proof {
            assert(cur0.ps[l as int] == plan@[l as int]@);
        }
        if plan[l].len() > 0 {
            let ghost mut fuel: nat = n as nat;
            proof {
                lemma_live_count_le(plan_seq(plan@));
            }
            loop
                invariant
                    n == kept@.len(),
                    n == ends@.len(),
                    l < n,
                    plan@.len() == n,
                    heads@.len() == n,
                    tails@.len() == n,
                    plan@[l as int]@.len() > 0,
                    join_state_ok(
                        ends@,
                        kept@,
                        heads@,
                        tails@,
                        plan_seq(plan@),
                        pos,
                        slot_table(heads1),
                        slot_table(heads2),
                    ),
                    target == join_from(
                        settle_slot(
                            join_state(slot_table(heads1), slot_table(heads2), heads@, tails@, plan_seq(plan@)),
                            l as int,
                            fuel,
                        ),
                        l + 1,
                        n as int,
                    ),
                    live_count(plan_seq(plan@)) <= fuel,
                ensures
                    target == join_from(
                        join_state(slot_table(heads1), slot_table(heads2), heads@, tails@, plan_seq(plan@)),
                        l + 1,
                        n as int,
                    ),
                    n == kept@.len(),
                    n == ends@.len(),
                    plan@.len() == n,
                    heads@.len() == n,
                    tails@.len() == n,
                    join_state_ok(
                        ends@,
                        kept@,
                        heads@,
                        tails@,
                        plan_seq(plan@),
                        pos,
                        slot_table(heads1),
                        slot_table(heads2),
                    ),
                decreases live_count(plan_seq(plan@)),
            {
                let ghost cur = join_state(slot_table(heads1), slot_table(heads2), heads@, tails@, plan_seq(plan@));
                let hl = heads[l];
                let tl = tails[l];
                proof {
                    reveal(join_state_ok);
                    assert(plan_seq(plan@).len() == plan@.len());
                }
                let found = find_partner(&heads1, &heads2, &plan, hl, tl, l);
                match found {
                    None => {
                        proof {
                            assert(settle_slot(cur, l as int, fuel) == cur);
                        }
                        break ;
                    },
                    Some(tj) => {
                        proof {
                            reveal(join_state_ok);
                            let ps = plan_seq(plan@);
                            assert(ps[tj as int] == plan@[tj as int]@);
                            assert(ps[l as int] == plan@[l as int]@);
                            assert(table_ok(slot_table(heads1), heads@, tails@, ps));
                            assert(table_ok(slot_table(heads2), heads@, tails@, ps));
                            if slot_table(heads1).contains_key(hl) && slot_table(heads1)[hl] == tj {
                                assert(hl == heads@[tj as int] || hl == tails@[tj as int]);
                            } else if slot_table(heads2).contains_key(hl) && slot_table(heads2)[hl] == tj {
                                assert(hl == heads@[tj as int] || hl == tails@[tj as int]);
                            } else if slot_table(heads2).contains_key(tl) && slot_table(heads2)[tl] == tj {
                                assert(tl == heads@[tj as int] || tl == tails@[tj as int]);
                            } else {
                                assert(tl == heads@[tj as int] || tl == tails@[tj as int]);
                            }
                        }
                        let ghost old_plan = plan@;
                        let Ghost(new_pos) = absorb(
                            &mut heads1,
                            &mut heads2,
                            &mut heads,
                            &mut tails,
                            &mut plan,
                            ends,
                            kept,
                            l,
                            tj,
                            Ghost(pos),
                        );
                        proof {
                            pos = new_pos;
                            let ps0 = cur.ps;
                            assert(ps0[tj as int] == old_plan[tj as int]@);
                            assert(ps0[l as int] == old_plan[l as int]@);
                            lemma_live_count_two(ps0, l as int, tj as int);
                            assert(settle_slot(cur, l as int, fuel) == settle_slot(
                                absorb_state(cur, l as int, tj as int),
                                l as int,
                                (fuel - 1) as nat,
                            ));
                            fuel = (fuel - 1) as nat;
                        }
                    },
                }
            }
        }
        l = l + 1;
    }
    proof {
        assert(plan_seq(plan@) == target.ps);
        lemma_state_gives_plan(
            ends@,
            kept@,
            heads@,
            tails@,
            plan_seq(plan@),
            pos,
            slot_table(heads1),
            slot_table(heads2),
        );
    }
    plan
}

} // verus!

verus! {

/// The points of a chain of pieces, copied out of the input lines.
fn assemble_chain<P: Copy, C>(entries: &Vec<(Vec<P>, C)>, ps: &Vec<Piece>) -> (r: Vec<P>)
    requires
        forall|k: int| 0 <= k < ps@.len() ==> (#[trigger] ps@[k]).0 < entries@.len(),
    ensures
        r@ == chain_points(entries@, ps@),
{
    let mut r: Vec<P> = Vec::new();
    let mut k: usize = 0;
    while k < ps.len()
        invariant
            k <= ps@.len(),
            forall|k2: int| 0 <= k2 < ps@.len() ==> (#[trigger] ps@[k2]).0 < entries@.len(),
            r@ == chain_points(entries@, ps@.take(k as int)),
        decreases ps@.len() - k,
    {
        let p = ps[k];
        let line = &entries[p.0].0;
        let ghost base = r@;
        let n = line.len();
        let mut i: usize = 0;
        if p.1 {
            while i < n
                invariant
                    n == line@.len(),
                    i <= n,
                    r@ == base + line@.reverse().take(i as int),
                decreases n - i,
            {
                r.push(line[n - 1 - i]);
                i = i + 1;
                assert(r@ =~= base + line@.reverse().take(i as int));
            }
            assert(line@.reverse().take(n as int) =~= line@.reverse());
        } else {
            while i < n
                invariant
                    n == line@.len(),
                    i <= n,
                    r@ == base + line@.take(i as int),
                decreases n - i,
            {
                r.push(line[i]);
                i = i + 1;
                assert(r@ =~= base + line@.take(i as int));
            }
            assert(line@.take(n as int) =~= line@);
        }
        assert(ps@.take(k + 1).drop_last() =~= ps@.take(k as int));
        assert(ps@.take(k + 1).last() == p);
        k = k + 1;
    }
    assert(ps@.take(ps@.len() as int) =~= ps@);
    r
}

/// Join polylines whose quantized endpoints meet, end to end.
///
/// `ends[j]` holds the quantized keys of the first and last point of line `j`. Lines with
/// `len() >= max_vertices` are emptied and never joined (`usize::MAX` = no limit). Returns one
/// line per input slot, same length and order: absorbed donors and dropped lines come back
/// empty so callers keep indexing by input position. Each returned line is a chain of whole
/// input lines, some run backwards, meeting at equal endpoint keys; every kept input line
/// ends up in exactly one returned line. Which lines are joined, and how, is the
/// [`joined_plan`]: slots in order absorb partners found through two endpoint tables until
/// none is left, and a shared endpoint is retired after each join.
///
/// Slot 0 is never chosen as a join partner: the lookup tables use index 0 as "no line".
pub fn join_polylines<P: Copy, C>(
    lines: &Polylines<P, C>,
    ends: &Vec<(EndKey, EndKey)>,
    max_vertices: usize,
) -> (out: Vec<Vec<P>>)
    requires
        ends@.len() == lines@.len(),
        forall|j: int|
            0 <= j < lines@.len() && (#[trigger] lines@[j]).0@.len() < max_vertices ==> lines@[j].0@.len()
                > 0,
    ensures
        out@.len() == lines@.len(),
        forall|j: int|
            0 <= j < lines@.len() && (#[trigger] lines@[j]).0@.len() >= max_vertices ==> out@[j]@.len()
                == 0,
        valid_join_plan(ends@, kept_lines(lines@, max_vertices), joined_plan(ends@, kept_lines(lines@, max_vertices))),
        forall|l: int|
            0 <= l < out@.len() ==> (#[trigger] out@[l])@ == chain_points(
                lines@,
                joined_plan(ends@, kept_lines(lines@, max_vertices))[l],
            ),
{
    let n = lines.entries.len();
    let mut kept: Vec<bool> = Vec::with_capacity(n);
    let mut j: usize = 0;
    while j < n
        invariant
            n == lines.entries@.len(),
            j <= n,
            kept@ =~= kept_lines(lines@, max_vertices).take(j as int),
        decreases n - j,
    {
        kept.push(lines.entries[j].0.len() < max_vertices);
        j = j + 1;
        assert(kept@ =~= kept_lines(lines@, max_vertices).take(j as int));
    }
    assert(kept@ =~= kept_lines(lines@, max_vertices));
    let plan = join_plan(ends, &kept);
    let ghost ps = plan_seq(plan@);
    let mut out: Vec<Vec<P>> = Vec::with_capacity(n);
    let mut l: usize = 0;
    while l < n
        invariant
            n == lines.entries@.len(),
            n == plan@.len(),
            ps == plan_seq(plan@),
            valid_join_plan(ends@, kept@, ps),
            l <= n,
            out@.len() == l,
            forall|l2: int| 0 <= l2 < l ==> (#[trigger] out@[l2])@ == chain_points(lines@, ps[l2]),
        decreases n - l,
    {
        proof {
            assert(ps[l as int] == plan@[l as int]@);
            assert forall|k: int| 0 <= k < plan@[l as int]@.len() implies (
            #[trigger] plan@[l as int]@[k]).0 < lines.entries@.len() by {
                assert(ps[l as int][k].0 < ps.len());
            }
        }
        let chain = assemble_chain(&lines.entries, &plan[l]);
        out.push(chain);
        l = l + 1;
    }
    proof {
        assert forall|j: int|
            0 <= j < lines@.len() && (#[trigger] lines@[j]).0@.len() >= max_vertices implies out@[j]@.len()
            == 0 by {
            assert(!kept@[j]);
            if ps[j].len() > 0 {
                assert(ps[j].contains((j as usize, false)));
                let w = choose|w: int| 0 <= w < ps[j].len() && ps[j][w] == (j as usize, false);
                assert(kept@[ps[j][w].0 as int]);
            }
            assert(ps[j].len() == 0);
            assert(out@[j]@ == chain_points(lines@, ps[j]));
        }
        assert(valid_join_plan(ends@, kept_lines(lines@, max_vertices), ps));
    }
    out
}

} // verus!


verus! {

// ---------------------------------------------------------------------------------------
// Point collections and the geometry of a binary DXF file
// ---------------------------------------------------------------------------------------

/// A collection of points, each with its classification.
#[derive(Debug)]
pub struct Points<P> {
    entries: Vec<(P, Classification)>,
}

impl<P> View for Points<P> {
    type V = Seq<(P, Classification)>;

    closed spec fn view(&self) -> Seq<(P, Classification)> {
        self.entries@
    }
}

impl<P> Points<P> {
    pub fn new() -> (r: Self)
        ensures
            r@ == Seq::<(P, Classification)>::empty(),
    {
        Points { entries: Vec::new() }
    }

    /// An empty collection with room for `capacity` points.
    pub fn with_capacity(capacity: usize) -> (r: Self)
        ensures
            r@ == Seq::<(P, Classification)>::empty(),
    {
        Points { entries: Vec::with_capacity(capacity) }
    }

    #[allow(clippy::len_without_is_empty)]
    pub fn len(&self) -> (r: usize)
        ensures
            r == self@.len(),
    {
        self.entries.len()
    }

    /// Add a point to this collection.
    pub fn push(&mut self, point: P, class: Classification)
        ensures
            final(self)@ == old(self)@.push((point, class)),
    {
        self.entries.push((point, class));
    }

    /// The points in order, each with its classification.
    pub fn iter(&self) -> (r: Vec<(&P, &Classification)>)
        ensures
            r@.len() == self@.len(),
            forall|i: int|
                0 <= i < r@.len() ==> *(#[trigger] r@[i]).0 == self@[i].0 && *r@[i].1 == self@[i].1,
    {
        let mut r: Vec<(&P, &Classification)> = Vec::with_capacity(self.entries.len());
        let mut i: usize = 0;
        while i < self.entries.len()
            invariant
                i <= self.entries@.len(),
                r@.len() == i,
                forall|k: int|
                    0 <= k < i ==> *(#[trigger] r@[k]).0 == self.entries@[k].0 && *r@[k].1
                        == self.entries@[k].1,
            decreases self.entries@.len() - i,
        {
            let e = &self.entries[i];
            r.push((&e.0, &e.1));
            i = i + 1;
        }
        r
    }
}

/// The polylines of a collection by their vertex sequences, each with its classification.
pub open spec fn lines_view<P, C>(lines: Polylines<P, C>) -> Seq<(Seq<P>, C)> {
    lines@.map_values(|e: (Vec<P>, C)| (e.0@, e.1))
}

/// One block of geometry of a binary DXF file: points, 2D polylines, or polylines with a
/// height.
#[derive(Debug)]
pub enum Geometry<P2, P3, H> {
    Points(Points<P2>),
    /// 2D polylines with a classification.
    Polylines2(Polylines<P2, Classification>),
    /// Polylines with a height: classification and height per line.
    Polylines3(Polylines<P3, (Classification, H)>),
}

/// What a block of geometry holds, polylines by their vertex sequences.
pub ghost enum GeometryView<P2, P3, H> {
    Points(Seq<(P2, Classification)>),
    Polylines2(Seq<(Seq<P2>, Classification)>),
    Polylines3(Seq<(Seq<P3>, (Classification, H))>),
}

impl<P2, P3, H> View for Geometry<P2, P3, H> {
    type V = GeometryView<P2, P3, H>;

    open spec fn view(&self) -> GeometryView<P2, P3, H> {
        match self {
            Geometry::Points(p) => GeometryView::Points(p@),
            Geometry::Polylines2(l) => GeometryView::Polylines2(lines_view(*l)),
            Geometry::Polylines3(l) => GeometryView::Polylines3(lines_view(*l)),
        }
    }
}

/// The same geometry without its intermediate contours.
pub open spec fn without_intermed_view<P2, P3, H>(g: GeometryView<P2, P3, H>) -> GeometryView<
    P2,
    P3,
    H,
> {
    match g {
        GeometryView::Points(s) => GeometryView::Points(
            s.filter(|e: (P2, Classification)| !spec_is_intermed(e.1)),
        ),
        GeometryView::Polylines2(s) => GeometryView::Polylines2(
            s.filter(|e: (Seq<P2>, Classification)| !spec_is_intermed(e.1)),
        ),
        GeometryView::Polylines3(s) => GeometryView::Polylines3(
            s.filter(|e: (Seq<P3>, (Classification, H))| !spec_is_intermed(e.1.0)),
        ),
    }
}

/// A copy of a vector of copyable values.
pub(crate) fn copy_vec<T: Copy>(v: &Vec<T>) -> (r: Vec<T>)
    ensures
        r@ == v@,
{
    let mut r: Vec<T> = Vec::with_capacity(v.len());
    let mut i: usize = 0;
    while i < v.len()
        invariant
            i <= v@.len(),
            r@ == v@.take(i as int),
        decreases v@.len() - i,
    {
        r.push(v[i]);
        i = i + 1;
        assert(r@ =~= v@.take(i as int));
    }
    assert(v@.take(v@.len() as int) =~= v@);
    r
}

impl<P: Copy> Points<P> {
    /// The points whose classification is not an intermediate contour, in order.
    pub fn without_intermed(&self) -> (r: Self)
        ensures
            r@ == self@.filter(|e: (P, Classification)| !spec_is_intermed(e.1)),
    {
        let ghost keep = |e: (P, Classification)| !spec_is_intermed(e.1);
        let mut r: Vec<(P, Classification)> = Vec::with_capacity(self.entries.len());
        let mut i: usize = 0;
        while i < self.entries.len()
            invariant
                i <= self.entries@.len(),
                keep == (|e: (P, Classification)| !spec_is_intermed(e.1)),
                r@ == self.entries@.take(i as int).filter(keep),
            decreases self.entries@.len() - i,
        {
            let (p, c) = self.entries[i];
            proof {
                self.entries@.take(i as int).lemma_filter_push(self.entries@[i as int], keep);
                assert(self.entries@.take(i + 1) =~= self.entries@.take(i as int).push(
                    self.entries@[i as int],
                ));
            }
            if !c.is_intermed() {
                r.push((p, c));
            }
            i = i + 1;
        }
        assert(self.entries@.take(self.entries@.len() as int) =~= self.entries@);
        Points { entries: r }
    }

    /// A copy of this collection.
    pub fn copied(&self) -> (r: Self)
        ensures
            r@ == self@,
    {
        Points { entries: copy_vec(&self.entries) }
    }
}

impl<P: Copy, C: Copy> Polylines<P, C> {
    /// A copy of this collection, every polyline copied.
    pub fn copied(&self) -> (r: Self)
        ensures
            lines_view(r) == lines_view(*self),
    {
        let mut r: Vec<(Vec<P>, C)> = Vec::with_capacity(self.entries.len());
        let mut i: usize = 0;
        while i < self.entries.len()
            invariant
                i <= self.entries@.len(),
                r@.len() == i,
                forall|k: int|
                    0 <= k < i ==> (#[trigger] r@[k]).0@ == self.entries@[k].0@ && r@[k].1
                        == self.entries@[k].1,
            decreases self.entries@.len() - i,
        {
            let e = &self.entries[i];
            r.push((copy_vec(&e.0), e.1));
            i = i + 1;
        }
        let out = Polylines { entries: r };
        assert(lines_view(out) =~= lines_view(*self));
        out
    }
}

impl<P: Copy> Polylines<P, Classification> {
    /// The polylines that are not intermediate contours, in order.
    pub fn without_intermed(&self) -> (r: Self)
        ensures
            lines_view(r) == lines_view(*self).filter(
                |e: (Seq<P>, Classification)| !spec_is_intermed(e.1),
            ),
    {
        let ghost keep = |e: (Seq<P>, Classification)| !spec_is_intermed(e.1);
        let ghost all = lines_view(*self);
        let mut r: Vec<(Vec<P>, Classification)> = Vec::with_capacity(self.entries.len());
        let mut i: usize = 0;
        while i < self.entries.len()
            invariant
                i <= self.entries@.len(),
                all == lines_view(*self),
                keep == (|e: (Seq<P>, Classification)| !spec_is_intermed(e.1)),
                r@.map_values(|e: (Vec<P>, Classification)| (e.0@, e.1)) == all.take(
                    i as int,
                ).filter(keep),
            decreases self.entries@.len() - i,
        {
            let e = &self.entries[i];
            proof {
                all.take(i as int).lemma_filter_push(all[i as int], keep);
                assert(all.take(i + 1) =~= all.take(i as int).push(all[i as int]));
            }
            if !e.1.is_intermed() {
                let ghost before = r@;
                r.push((copy_vec(&e.0), e.1));
                proof {
                    assert(r@.map_values(|e: (Vec<P>, Classification)| (e.0@, e.1)) =~= before.map_values(
                        |e: (Vec<P>, Classification)| (e.0@, e.1),
                    ).push(all[i as int]));
                }
            }
            i = i + 1;
        }
        assert(all.take(self.entries@.len() as int) =~= all);
        Polylines { entries: r }
    }
}

impl<P: Copy, H: Copy> Polylines<P, (Classification, H)> {
    /// The polylines with a height that are not intermediate contours, in order.
    pub fn without_intermed_heights(&self) -> (r: Self)
        ensures
            lines_view(r) == lines_view(*self).filter(
                |e: (Seq<P>, (Classification, H))| !spec_is_intermed(e.1.0),
            ),
    {
        let ghost keep = |e: (Seq<P>, (Classification, H))| !spec_is_intermed(e.1.0);
        let ghost all = lines_view(*self);
        let mut r: Vec<(Vec<P>, (Classification, H))> = Vec::with_capacity(self.entries.len());
        let mut i: usize = 0;
        while i < self.entries.len()
            invariant
                i <= self.entries@.len(),
                all == lines_view(*self),
                keep == (|e: (Seq<P>, (Classification, H))| !spec_is_intermed(e.1.0)),
                r@.map_values(|e: (Vec<P>, (Classification, H))| (e.0@, e.1)) == all.take(
                    i as int,
                ).filter(keep),
            decreases self.entries@.len() - i,
        {
            let e = &self.entries[i];
            proof {
                all.take(i as int).lemma_filter_push(all[i as int], keep);
                assert(all.take(i + 1) =~= all.take(i as int).push(all[i as int]));
            }
            if !e.1.0.is_intermed() {
                let ghost before = r@;
                r.push((copy_vec(&e.0), e.1));
                proof {
                    assert(r@.map_values(|e: (Vec<P>, (Classification, H))| (e.0@, e.1))
                        =~= before.map_values(|e: (Vec<P>, (Classification, H))| (e.0@, e.1)).push(
                        all[i as int],
                    ));
                }
            }
            i = i + 1;
        }
        assert(all.take(self.entries@.len() as int) =~= all);
        Polylines { entries: r }
    }
}

impl<P2: Copy, P3: Copy, H: Copy> Geometry<P2, P3, H> {
    /// The same geometry without its intermediate contours.
    pub fn without_intermed(&self) -> (r: Self)
        ensures
            r@ == without_intermed_view(self@),
    {
        match self {
            Geometry::Points(p) => Geometry::Points(p.without_intermed()),
            Geometry::Polylines2(l) => Geometry::Polylines2(l.without_intermed()),
            Geometry::Polylines3(l) => Geometry::Polylines3(l.without_intermed_heights()),
        }
    }

    /// A copy of this geometry.
    pub fn copied(&self) -> (r: Self)
        ensures
            r@ == self@,
    {
        match self {
            Geometry::Points(p) => Geometry::Points(p.copied()),
            Geometry::Polylines2(l) => Geometry::Polylines2(l.copied()),
            Geometry::Polylines3(l) => Geometry::Polylines3(l.copied()),
        }
    }
}

} // verus!
