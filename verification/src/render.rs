//! Form line dashing in the contour renderer: which vertices of an intermediate contour
//! are drawn as form line. The float inputs (steepness, height differences, ring size)
//! are decided by the caller; this module decides the mask from them.
use vstd::prelude::*;
use crate::geometry::{Classification, spec_is_contour, spec_is_index, spec_is_intermed};

verus! {

/// How many of `h[lo..hi]` are set.
pub open spec fn count_set(h: Seq<bool>, lo: int, hi: int) -> int
    decreases hi - lo,
{
    if hi <= lo {
        0
    } else {
        count_set(h, lo, hi - 1) + if h[hi - 1] {
            1int
        } else {
            0int
        }
    }
}

/// A vertex keeps its form line only if at least 5 of the 9 vertices from 5 before it to
/// 3 after it are gentle enough; the first 5 and last 6 vertices are not judged.
pub open spec fn window_mask(help: Seq<bool>) -> Seq<bool> {
    let n = help.len();
    Seq::new(n, |i: int| !(5 <= i && i + 6 < n && count_set(help, i - 5, i + 4) < 5))
}

/// The first six vertices copy vertex 6, then the last six copy vertex `n - 7`.
pub open spec fn ends_copied(h: Seq<bool>) -> Seq<bool> {
    let n = h.len();
    let a = Seq::new(n, |i: int| if i < 6 { h[6] } else { h[i] });
    Seq::new(n, |i: int| if i >= n - 6 { a[n - 7] } else { a[i] })
}

fn window_count(help: &Vec<bool>, lo: usize, hi: usize) -> (c: usize)
    requires
        lo <= hi <= help@.len(),
    ensures
        c == count_set(help@, lo as int, hi as int),
{
    let mut c: usize = 0;
    let mut j: usize = lo;
    while j < hi
        invariant
            lo <= j <= hi,
            hi <= help@.len(),
            c == count_set(help@, lo as int, j as int),
            c <= j - lo,
        decreases hi - j,
    {
        if help[j] {
            c = c + 1;
        }
        j = j + 1;
    }
    c
}

/// The window rule followed by the copying of the end vertices, on a fresh all-drawn mask.
fn windowed_mask(help: &Vec<bool>) -> (r: Vec<bool>)
    requires
        help@.len() >= 7,
    ensures
        r@ == ends_copied(window_mask(help@)),
{
    let n = help.len();
    let mut r: Vec<bool> = Vec::with_capacity(n);
    let mut i: usize = 0;
    while i < n
        invariant
            n == help@.len(),
            i <= n,
            r@.len() == i,
            forall|k: int| 0 <= k < i ==> r@[k],
        decreases n - i,
    {
        r.push(true);
        i = i + 1;
    }
    let mut i: usize = 5;
    while i < n - 6
        invariant
            n == help@.len(),
            n >= 7,
            5 <= i,
            r@.len() == n,
            forall|k: int|
                0 <= k < n ==> r@[k] == if k < i {
                    window_mask(help@)[k]
                } else {
                    true
                },
        decreases n - 6 - i,
    {
        let apu = window_count(help, i - 5, i + 4);
        if apu < 5 {
            r.set(i, false);
        }
        i = i + 1;
    }
    let ghost w = r@;
    assert(w =~= window_mask(help@));
    let mut i: usize = 0;
    while i < 6
        invariant
            n == r@.len(),
            n >= 7,
            i <= 6,
            w.len() == n,
            forall|k: int| 0 <= k < n ==> r@[k] == if k < i { w[6] } else { w[k] },
        decreases 6 - i,
    {
        let v = r[6];
        r.set(i, v);
        i = i + 1;
    }
    let ghost a = r@;
    let mut i: usize = n - 6;
    while i < n
        invariant
            n == r@.len(),
            n >= 7,
            n - 6 <= i <= n,
            a.len() == n,
            r@[n - 7] == a[n - 7],
            forall|k: int| 0 <= k < n ==> r@[k] == if n - 6 <= k < i { a[n - 7] } else { a[k] },
        decreases n - i,
    {
        let v = r[n - 7];
        r.set(i, v);
        i = i + 1;
    }
    assert(r@ =~= ends_copied(w));
    r
}

} // verus!

verus! {

/// Each drawn vertex also draws the `a - 1` vertices after it (the "form line addition");
/// on a closed ring the count carries on from the last vertex round to the first.
pub open spec fn spread_forward_of(h: Seq<bool>, a: int, closed: bool) -> Seq<bool> {
    let n = h.len();
    Seq::new(
        n,
        |i: int|
            h[i] || exists|j: int|
                0 <= j < n && #[trigger] h[j] && ((j <= i && i - j < a) || (closed && i + n - j < a)),
    )
}

/// Each drawn vertex also draws the `a - 1` vertices before it; on a closed ring the count
/// carries on from the first vertex round to the last.
pub open spec fn spread_backward_of(h: Seq<bool>, a: int, closed: bool) -> Seq<bool> {
    let n = h.len();
    Seq::new(
        n,
        |i: int|
            h[i] || exists|j: int|
                0 <= j < n && #[trigger] h[j] && ((i <= j && j - i < a) || (closed && j + n - i < a)),
    )
}

/// Some set vertex at or before `k` lies within `a` of it.
pub open spec fn reached_from_before(h: Seq<bool>, k: int, a: int) -> bool {
    exists|j: int| 0 <= j <= k && #[trigger] h[j] && k - j < a
}

fn spread_forward(h: &Vec<bool>, a: u64, closed: bool) -> (r: Vec<bool>)
    ensures
        r@ == spread_forward_of(h@, a as int, closed),
{
    let n = h.len();
    let mut r: Vec<bool> = Vec::with_capacity(n);
    let mut on: u64 = 0;
    let ghost mut last: int = -1;
    let mut i: usize = 0;
    while i < n
        invariant
            n == h@.len(),
            i <= n,
            r@.len() == i,
            -1 <= last < i,
            last >= 0 ==> h@[last],
            forall|m: int| last < m < i ==> !h@[m],
            on == if last < 0 {
                0
            } else if a > i - last {
                a - (i - last)
            } else {
                0
            },
            forall|k: int| 0 <= k < i ==> r@[k] == (h@[k] || reached_from_before(h@, k, a as int)),
        decreases n - i,
    {
        let mut v = h[i];
        if v {
            on = a;
            proof {
                last = i as int;
            }
        }
        if on > 0 {
            v = true;
            on = on - 1;
        }
        proof {
            let k = i as int;
            if !h@[k] {
                if last >= 0 && a > k - last {
                    assert(h@[last] && 0 <= last <= k && k - last < a);
                } else {
                    assert forall|j: int| 0 <= j <= k && #[trigger] h@[j] implies k - j >= a by {
                        if j > last {
                            assert(!h@[j]);
                        }
                    }
                }
            }
        }
        r.push(v);
        i = i + 1;
    }
    let ghost lin = r@;
    let ghost on_end: int = on as int;
    let mut c: usize = 0;
    if closed && on > 0 {
        while c < n && on > 0
            invariant
                n == r@.len(),
                c <= n,
                lin.len() == n,
                on_end > 0,
                on == on_end - c,
                forall|k: int| 0 <= k < n ==> #[trigger] r@[k] == (lin[k] || k < c as int),
            decreases n - c,
        {
            r.set(c, true);
            on = on - 1;
            c = c + 1;
        }
    }
    proof {
        assert(forall|k: int| 0 <= k < n ==> r@[k] == (lin[k] || (closed && on_end > 0 && k < on_end)));
        let s = spread_forward_of(h@, a as int, closed);
        assert forall|k: int| 0 <= k < n implies r@[k] == s[k] by {
            if closed && last >= 0 && k + n - last < a {
                assert(h@[last]);
            }
            if !r@[k] {
                assert(!lin[k]);
                assert(!reached_from_before(h@, k, a as int));
                assert forall|j: int| 0 <= j < n && #[trigger] h@[j] implies !((j <= k && k - j < a) || (
                closed && k + n - j < a)) by {
                    assert(j <= last) by {
                        if j > last {
                            assert(!h@[j]);
                        }
                    }
                }
            }
        }
        assert(r@ =~= s);
    }
    r
}

/// Some set vertex at or after `k` lies within `a` of it.
pub open spec fn reached_from_after(h: Seq<bool>, k: int, a: int) -> bool {
    exists|j: int| k <= j < h.len() && #[trigger] h[j] && j - k < a
}

fn spread_backward(h: &Vec<bool>, a: u64, closed: bool) -> (r: Vec<bool>)
    ensures
        r@ == spread_backward_of(h@, a as int, closed),
{
    let n = h.len();
    let mut r: Vec<bool> = Vec::with_capacity(n);
    let mut i: usize = 0;
    while i < n
        invariant
            n == h@.len(),
            i <= n,
            r@ == h@.take(i as int),
        decreases n - i,
    {
        r.push(h[i]);
        i = i + 1;
        assert(r@ =~= h@.take(i as int));
    }
    assert(r@ =~= h@);
    let mut on: u64 = 0;
    let ghost mut first: int = n as int;
    let mut i: usize = 0;
    while i < n
        invariant
            n == h@.len(),
            n == r@.len(),
            i <= n,
            n - i <= first <= n,
            first < n ==> h@[first],
            forall|m: int| n - i <= m < first ==> !h@[m],
            on == if first >= n {
                0
            } else if a > first - (n - 1 - i) {
                a - (first - (n - 1 - i))
            } else {
                0
            },
            forall|k: int| n - i <= k < n ==> r@[k] == (h@[k] || reached_from_after(h@, k, a as int)),
            forall|k: int| 0 <= k < n - i ==> r@[k] == h@[k],
        decreases n - i,
    {
        let ii = n - 1 - i;
        if h[ii] {
            on = a;
            proof {
                first = ii as int;
            }
        }
        if on > 0 {
            r.set(ii, true);
            on = on - 1;
        }
        proof {
            let k = ii as int;
            if !h@[k] {
                if first < n && a > first - k {
                    assert(h@[first] && k <= first < n && first - k < a);
                } else {
                    assert forall|j: int| k <= j < n && #[trigger] h@[j] implies j - k >= a by {
                        if j < first {
                            assert(!h@[j]);
                        }
                    }
                }
            }
        }
        i = i + 1;
    }
    let ghost lin = r@;
    let ghost on_end: int = on as int;
    let mut c: usize = 0;
    if closed && on > 0 {
        while c < n && on > 0
            invariant
                n == r@.len(),
                c <= n,
                lin.len() == n,
                on_end > 0,
                on == on_end - c,
                forall|k: int| 0 <= k < n ==> #[trigger] r@[k] == (lin[k] || n - 1 - k < c as int),
            decreases n - c,
        {
            r.set(n - 1 - c, true);
            on = on - 1;
            c = c + 1;
        }
    }
    proof {
        assert(forall|k: int| 0 <= k < n ==> r@[k] == (lin[k] || (closed && on_end > 0 && n - 1 - k < on_end)));
        let s = spread_backward_of(h@, a as int, closed);
        assert forall|k: int| 0 <= k < n implies r@[k] == s[k] by {
            if closed && first < n && first + n - k < a {
                assert(h@[first]);
            }
            if !r@[k] {
                assert(!lin[k]);
                assert(!reached_from_after(h@, k, a as int));
                assert forall|j: int| 0 <= j < n && #[trigger] h@[j] implies !((k <= j && j - k < a) || (
                closed && j + n - k < a)) by {
                    assert(j >= first) by {
                        if j < first {
                            assert(!h@[j]);
                        }
                    }
                }
            }
        }
        assert(r@ =~= s);
    }
    r
}

/// Some vertex is set.
pub open spec fn any_set(h: Seq<bool>) -> bool {
    exists|i: int| 0 <= i < h.len() && #[trigger] h[i]
}

/// A small closed form line ring is either filled in completely or, when it is below the
/// ISOM minimum size, dropped completely.
pub open spec fn ring_filled(h: Seq<bool>, closed: bool, below_minimum: bool) -> Seq<bool> {
    if closed && h.len() < 122 && any_set(h) {
        Seq::new(h.len(), |i: int| !below_minimum)
    } else {
        h
    }
}

/// Whether a line is treated as a small ring (drawn solid, with no gap closing).
pub open spec fn small_ring(h: Seq<bool>, closed: bool, below_minimum: bool) -> bool {
    closed && h.len() < 60 && any_set(h) && !below_minimum
}

fn any_set_exec(h: &Vec<bool>) -> (r: bool)
    ensures
        r == any_set(h@),
{
    let mut i: usize = 0;
    while i < h.len()
        invariant
            i <= h@.len(),
            forall|k: int| 0 <= k < i ==> !h@[k],
        decreases h@.len() - i,
    {
        if h[i] {
            return true;
        }
        i = i + 1;
    }
    false
}

fn filled(n: usize, v: bool) -> (r: Vec<bool>)
    ensures
        r@ == Seq::new(n as nat, |i: int| v),
{
    let mut r: Vec<bool> = Vec::with_capacity(n);
    let mut i: usize = 0;
    while i < n
        invariant
            i <= n,
            r@ == Seq::new(i as nat, |k: int| v),
        decreases n - i,
    {
        r.push(v);
        i = i + 1;
        assert(r@ =~= Seq::new(i as nat, |k: int| v));
    }
    r
}

/// One pass of the small ring rule for rings shorter than `max_length`.
fn small_ring_pass(h: Vec<bool>, closed: bool, below_minimum: bool, max_length: usize) -> (r: (
    Vec<bool>,
    bool,
))
    ensures
        closed && h@.len() < max_length && any_set(h@) ==> r.0@ == Seq::new(
            h@.len(),
            |i: int| !below_minimum,
        ) && r.1 == !below_minimum,
        !(closed && h@.len() < max_length && any_set(h@)) ==> r.0@ == h@ && !r.1,
{
    if closed && h.len() < max_length {
        let any = any_set_exec(&h);
        if any {
            if below_minimum {
                return (filled(h.len(), false), false);
            } else {
                return (filled(h.len(), true), true);
            }
        }
    }
    (h, false)
}

/// The small ring rule: rings under 122 vertices that are drawn at all are drawn whole, or
/// not at all when below the ISOM minimum size; the last pass, for rings under 60 vertices,
/// decides whether the line counts as a small ring.
fn small_ring_rule(h: Vec<bool>, closed: bool, below_minimum: bool) -> (r: (Vec<bool>, bool))
    ensures
        r.0@ == ring_filled(h@, closed, below_minimum),
        r.1 == small_ring(h@, closed, below_minimum),
{
    let ghost h0 = h@;
    let (h1, _) = small_ring_pass(h, closed, below_minimum, 122);
    let ghost h1v = h1@;
    let (h2, srt) = small_ring_pass(h1, closed, below_minimum, 60);
    proof {
        if closed && h0.len() < 122 && any_set(h0) {
            assert(h1v =~= Seq::new(h0.len(), |i: int| !below_minimum));
            if !below_minimum && h0.len() < 60 {
                assert(h1v[0]);
            }
            if below_minimum {
                assert(!any_set(h1v));
            }
        }
        if h0.len() < 60 && closed && any_set(h0) {
        } else if closed && h0.len() < 60 {
            assert(!any_set(h1v));
        }
    }
    (h2, srt)
}

/// No vertex strictly between `p` and `q` is set.
pub open spec fn none_set_between(h: Seq<bool>, p: int, q: int) -> bool {
    forall|m: int| p < m < q ==> !#[trigger] h[m]
}

/// A gap that is closed: from an anchor `p` (vertex 1, or a set vertex after it) to the next
/// set vertex `q`, fewer than `gap` vertices apart.
pub open spec fn bridged(h: Seq<bool>, p: int, q: int, gap: int) -> bool {
    &&& 1 <= p < q < h.len()
    &&& (p == 1 || h[p])
    &&& h[q]
    &&& q - p < gap
    &&& none_set_between(h, p, q)
}

/// Short gaps drawn together: every vertex of a bridged gap, ends included, is drawn.
pub open spec fn gaps_closed(h: Seq<bool>, gap: int) -> Seq<bool> {
    Seq::new(
        h.len(),
        |i: int| h[i] || exists|p: int, q: int| p <= i <= q && #[trigger] bridged(h, p, q, gap),
    )
}

proof fn lemma_unique_bridge(h: Seq<bool>, tester: int, i: int, k: int, p: int, q: int, gap: int)
    requires
        1 <= tester <= k < i < h.len(),
        tester == 1 || h[tester],
        none_set_between(h, tester, i),
        h[i],
        !h[k],
        p <= k <= q,
        bridged(h, p, q, gap),
    ensures
        p == tester,
        q == i,
{
    if q > i {
        assert(!h[i]);
    }
    if q < i {
        if q > tester {
            assert(!h[q]);
        } else {
            assert(q == k);
        }
    }
    if p < tester {
        assert(!h[tester]);
    }
    if p > tester {
        assert(!h[p]);
    }
}

/// Draw short gaps together (the rule applies from vertex 1 on).
fn close_gaps(h: &Vec<bool>, gap: u32) -> (r: Vec<bool>)
    ensures
        r@ == gaps_closed(h@, gap as int),
{
    let n = h.len();
    let mut r: Vec<bool> = Vec::with_capacity(n);
    let mut i: usize = 0;
    while i < n
        invariant
            n == h@.len(),
            i <= n,
            r@ == h@.take(i as int),
        decreases n - i,
    {
        r.push(h[i]);
        i = i + 1;
        assert(r@ =~= h@.take(i as int));
    }
    assert(r@ =~= h@);
    if n < 2 {
        proof {
            assert forall|k: int| 0 <= k < n implies r@[k] == gaps_closed(h@, gap as int)[k] by {
                assert forall|p: int, q: int| p <= k <= q implies !#[trigger] bridged(h@, p, q, gap as int) by {}
            }
            assert(r@ =~= gaps_closed(h@, gap as int));
        }
        return r;
    }
    let ghost spec = gaps_closed(h@, gap as int);
    let mut tester: usize = 1;
    let mut i: usize = 1;
    while i < n
        invariant
            n == h@.len(),
            n == r@.len(),
            n >= 2,
            spec == gaps_closed(h@, gap as int),
            1 <= tester <= i <= n,
            tester == 1 || h@[tester as int],
            none_set_between(h@, tester as int, i as int),
            forall|k: int| 0 <= k < tester ==> r@[k] == spec[k],
            forall|k: int| tester <= k < n ==> r@[k] == h@[k],
        decreases n - i,
    {
        if r[i] {
            assert(h@[i as int]);
            if tester < i && ((i - tester) as u64) < gap as u64 {
                let ghost before = r@;
                let mut j: usize = tester;
                while j <= i
                    invariant
                        n == r@.len(),
                        tester <= j <= i + 1,
                        i < n,
                        forall|k: int| 0 <= k < tester ==> r@[k] == before[k],
                        forall|k: int| tester <= k < j ==> r@[k],
                        forall|k: int| j <= k < n ==> r@[k] == before[k],
                    decreases i + 1 - j,
                {
                    r.set(j, true);
                    j = j + 1;
                }
                proof {
                    assert(bridged(h@, tester as int, i as int, gap as int));
                    assert forall|k: int| 0 <= k < i implies r@[k] == spec[k] by {
                        if k >= tester {
                            assert(tester <= k <= i && bridged(h@, tester as int, i as int, gap as int));
                        }
                    }
                }
            } else {
                proof {
                    assert forall|k: int| 0 <= k < i implies r@[k] == spec[k] by {
                        if k >= tester && !h@[k] {
                            assert forall|p: int, q: int| p <= k <= q implies !#[trigger] bridged(
                                h@,
                                p,
                                q,
                                gap as int,
                            ) by {
                                if bridged(h@, p, q, gap as int) {
                                    lemma_unique_bridge(h@, tester as int, i as int, k, p, q, gap as int);
                                }
                            }
                        }
                    }
                }
            }
            tester = i;
        } else {
            assert(!h@[i as int]);
        }
        i = i + 1;
    }
    proof {
        assert forall|k: int| 0 <= k < n implies r@[k] == spec[k] by {
            if k >= tester && !h@[k] {
                assert forall|p: int, q: int| p <= k <= q implies !#[trigger] bridged(h@, p, q, gap as int) by {
                    if bridged(h@, p, q, gap as int) {
                        if q > tester {
                            assert(!h@[q]);
                        }
                    }
                }
            }
        }
        assert(r@ =~= spec);
    }
    r
}

/// Vertex `i` lies within 4 vertices of one where the ground is too rough (`!smooth`).
pub open spec fn near_rough(smooth: Seq<bool>, i: int) -> bool {
    exists|t: int| 0 <= t < smooth.len() && !#[trigger] smooth[t] && i - 4 <= t <= i + 4
}

/// Form line cleared within 4 vertices of rough ground.
pub open spec fn rough_cleared(h: Seq<bool>, smooth: Seq<bool>) -> Seq<bool> {
    Seq::new(h.len(), |i: int| h[i] && !near_rough(smooth, i))
}

/// Vertex `i` is in a drawn run `[s, e)` shorter than 15 vertices that is followed by an
/// undrawn vertex.
pub open spec fn in_short_run(h: Seq<bool>, i: int) -> bool {
    exists|s: int, e: int|
        #![trigger h[s], h[e]]
        0 <= s <= i < e < h.len() && e - s < 15 && !h[e] && (s == 0 || !h[s - 1]) && forall|m: int|
            s <= m < e ==> #[trigger] h[m]
}

/// Drawn runs shorter than 15 vertices that end before the line does are cleared.
pub open spec fn short_runs_cleared(h: Seq<bool>) -> Seq<bool> {
    Seq::new(h.len(), |i: int| h[i] && !in_short_run(h, i))
}

/// Clear the form line around rough vertices; also says whether any vertex is rough.
fn clear_rough(h: &Vec<bool>, smooth: &Vec<bool>) -> (r: (Vec<bool>, bool))
    requires
        h@.len() == smooth@.len(),
    ensures
        r.0@ == rough_cleared(h@, smooth@),
        r.1 == exists|t: int| 0 <= t < smooth@.len() && !#[trigger] smooth@[t],
{
    let n = h.len();
    let mut out: Vec<bool> = Vec::with_capacity(n);
    let mut i: usize = 0;
    while i < n
        invariant
            n == h@.len(),
            n == smooth@.len(),
            i <= n,
            out@.len() == i,
            forall|k: int| 0 <= k < i ==> out@[k] == (h@[k] && !near_rough(smooth@, k)),
        decreases n - i,
    {
        let lo: usize = if i >= 4 {
            i - 4
        } else {
            0
        };
        let hi: usize = if n >= 4 && i < n - 4 {
            i + 4
        } else {
            n - 1
        };
        let mut rough = false;
        let mut t: usize = lo;
        while t <= hi
            invariant
                n == smooth@.len(),
                lo <= t <= hi + 1,
                hi < n,
                lo as int == if i >= 4 {
                    i - 4
                } else {
                    0
                },
                hi as int == if i + 4 < n {
                    i + 4
                } else {
                    n - 1
                },
                rough == exists|t2: int| lo <= t2 < t && !#[trigger] smooth@[t2],
            decreases hi + 1 - t,
        {
            if !smooth[t] {
                rough = true;
            }
            t = t + 1;
        }
        proof {
            if near_rough(smooth@, i as int) {
                let t2 = choose|t2: int|
                    0 <= t2 < smooth@.len() && !#[trigger] smooth@[t2] && i - 4 <= t2 <= i + 4;
                assert(lo <= t2 < t);
            }
            if rough {
                let t2 = choose|t2: int| lo <= t2 < t && !#[trigger] smooth@[t2];
                assert(0 <= t2 < smooth@.len() && !smooth@[t2] && i - 4 <= t2 <= i + 4);
            }
        }
        out.push(h[i] && !rough);
        i = i + 1;
    }
    let any_rough = !all_smooth(smooth);
    (out, any_rough)
}

fn all_smooth(smooth: &Vec<bool>) -> (r: bool)
    ensures
        r == forall|t: int| 0 <= t < smooth@.len() ==> #[trigger] smooth@[t],
{
    let mut t: usize = 0;
    while t < smooth.len()
        invariant
            t <= smooth@.len(),
            forall|k: int| 0 <= k < t ==> #[trigger] smooth@[k],
        decreases smooth@.len() - t,
    {
        if !smooth[t] {
            return false;
        }
        t = t + 1;
    }
    true
}

proof fn lemma_run_is_unique(h: Seq<bool>, i: int, k: int, m: int, s: int, e: int)
    requires
        0 <= k <= i < h.len(),
        !h[i],
        forall|j: int| i - k <= j < i ==> #[trigger] h[j],
        i - k == 0 || !h[i - k - 1],
        i - k <= m < i,
        0 <= s <= m < e < h.len(),
        !h[e],
        s == 0 || !h[s - 1],
        forall|j: int| s <= j < e ==> #[trigger] h[j],
    ensures
        s == i - k,
        e == i,
{
    if e < i {
        assert(h[e]);
    }
    if e > i {
        assert(h[i]);
    }
    if s < i - k {
        assert(h[i - k - 1]);
    }
    if s > i - k {
        assert(h[s - 1]);
    }
}

/// Clear drawn runs shorter than 15 vertices that are followed by an undrawn vertex.
fn clear_short_runs(h: &Vec<bool>) -> (r: Vec<bool>)
    ensures
        r@ == short_runs_cleared(h@),
{
    let n = h.len();
    let mut r: Vec<bool> = Vec::with_capacity(n);
    let mut i: usize = 0;
    while i < n
        invariant
            n == h@.len(),
            i <= n,
            r@ == h@.take(i as int),
        decreases n - i,
    {
        r.push(h[i]);
        i = i + 1;
        assert(r@ =~= h@.take(i as int));
    }
    assert(r@ =~= h@);
    let ghost spec = short_runs_cleared(h@);
    let mut k: usize = 0;
    let mut i: usize = 0;
    while i < n
        invariant
            n == h@.len(),
            n == r@.len(),
            spec == short_runs_cleared(h@),
            k <= i <= n,
            forall|j: int| i - k <= j < i ==> #[trigger] h@[j],
            i - k == 0 || !h@[i - k - 1],
            forall|m: int| 0 <= m < i - k ==> r@[m] == spec[m],
            forall|m: int| i - k <= m < n ==> r@[m] == h@[m],
        decreases n - i,
    {
        let hi = r[i];
        assert(hi == h@[i as int]);
        if hi {
            k = k + 1;
        }
        if k > 0 && !hi && k < 15 {
            let ghost before = r@;
            let mut l: usize = i - k;
            while l < i
                invariant
                    n == r@.len(),
                    n == before.len(),
                    k <= i,
                    i - k <= l <= i,
                    i < n,
                    forall|m: int| 0 <= m < i - k ==> r@[m] == before[m],
                    forall|m: int| i - k <= m < l ==> !#[trigger] r@[m],
                    forall|m: int| l <= m < n ==> r@[m] == before[m],
                decreases i - l,
            {
                r.set(l, false);
                l = l + 1;
            }
            proof {
                assert forall|m: int| 0 <= m < i + 1 implies r@[m] == spec[m] by {
                    if i - k <= m < i {
                        let s0 = (i - k) as int;
                        let e0 = i as int;
                        assert(forall|j: int| s0 <= j < e0 ==> #[trigger] h@[j]);
                        assert(h@[s0] && h@[e0] == false);
                        assert(in_short_run(h@, m));
                    } else if m == i {
                    }
                }
            }
        } else if !hi {
            proof {
                assert forall|m: int| 0 <= m < i + 1 implies r@[m] == spec[m] by {
                    if i - k <= m < i {
                        if in_short_run(h@, m) {
                            let (s0, e0) = choose|s0: int, e0: int|
                                #![trigger h@[s0], h@[e0]]
                                0 <= s0 <= m < e0 < h@.len() && e0 - s0 < 15 && !h@[e0] && (s0 == 0
                                    || !h@[s0 - 1]) && forall|j: int| s0 <= j < e0 ==> #[trigger] h@[j];
                            lemma_run_is_unique(h@, i as int, k as int, m, s0, e0);
                        }
                    }
                }
            }
        }
        if !hi {
            k = 0;
        }
        i = i + 1;
    }
    proof {
        assert forall|m: int| 0 <= m < n implies r@[m] == spec[m] by {
            if n - k <= m < n {
                if in_short_run(h@, m) {
                    let (s0, e0) = choose|s0: int, e0: int|
                        #![trigger h@[s0], h@[e0]]
                        0 <= s0 <= m < e0 < h@.len() && e0 - s0 < 15 && !h@[e0] && (s0 == 0
                            || !h@[s0 - 1]) && forall|j: int| s0 <= j < e0 ==> #[trigger] h@[j];
                    assert(h@[e0]);
                }
            }
        }
        assert(r@ =~= spec);
    }
    r
}

/// The vertices of the line before the small ring rule: window rule, copied ends, then the
/// form line addition spread forwards and backwards.
pub open spec fn spread_mask(help: Seq<bool>, closed: bool, addition: int) -> Seq<bool> {
    spread_backward_of(
        spread_forward_of(ends_copied(window_mask(help)), addition, closed),
        addition,
        closed,
    )
}

/// The form line mask of an intermediate contour.
pub open spec fn formline_mask_of(
    help: Seq<bool>,
    smooth: Seq<bool>,
    closed: bool,
    addition: int,
    below_minimum: bool,
    minimumgap: int,
    remove_touching_contours: bool,
) -> Seq<bool> {
    let m = spread_mask(help, closed, addition);
    let ringed = ring_filled(m, closed, below_minimum);
    let gapped = if small_ring(m, closed, below_minimum) {
        ringed
    } else {
        gaps_closed(ringed, minimumgap)
    };
    if remove_touching_contours {
        let cleared = rough_cleared(gapped, smooth);
        if exists|t: int| 0 <= t < smooth.len() && !#[trigger] smooth[t] {
            short_runs_cleared(cleared)
        } else {
            cleared
        }
    } else {
        gapped
    }
}

/// A closed form line ring under 122 vertices that is below the ISOM minimum size is
/// never drawn: none of its vertices is in the mask, whatever the terrain.
pub proof fn lemma_ring_below_minimum_not_drawn(
    help: Seq<bool>,
    smooth: Seq<bool>,
    addition: int,
    minimumgap: int,
    remove_touching_contours: bool,
)
    requires
        help.len() >= 7,
        help.len() < 122,
        smooth.len() == help.len(),
    ensures
        formline_mask_of(help, smooth, true, addition, true, minimumgap, remove_touching_contours)
            =~= Seq::new(help.len(), |i: int| false),
{
    let m = spread_mask(help, true, addition);
    let none = Seq::new(help.len(), |i: int| false);
    assert(m.len() == help.len());
    assert(ring_filled(m, true, true) =~= none) by {
        if !any_set(m) {
            assert forall|i: int| 0 <= i < m.len() implies !m[i] by {
                if m[i] {
                    assert(any_set(m));
                }
            }
        }
    }
    assert(!small_ring(m, true, true));
    assert(gaps_closed(none, minimumgap) =~= none);
    assert(rough_cleared(none, smooth) =~= none);
    assert(short_runs_cleared(none) =~= none);
}

/// A closed ring under 60 vertices with any form line on it, and not below the ISOM
/// minimum size, is drawn whole when touching contours are not removed.
pub proof fn lemma_small_ring_drawn_whole(
    help: Seq<bool>,
    smooth: Seq<bool>,
    addition: int,
    minimumgap: int,
)
    requires
        help.len() >= 7,
        help.len() < 60,
        smooth.len() == help.len(),
        any_set(spread_mask(help, true, addition)),
    ensures
        formline_mask_of(help, smooth, true, addition, false, minimumgap, false)
            =~= Seq::new(help.len(), |i: int| true),
{
    let m = spread_mask(help, true, addition);
    assert(m.len() == help.len());
    assert(small_ring(m, true, false));
}

/// Which vertices of an intermediate contour are drawn as form line, and whether the line
/// counts as a small ring.
///
/// `help[i]`: the terrain around vertex `i` is gentle enough for a form line there.
/// `smooth[i]`: the terrain at vertex `i` is not so steep that contours would touch.
/// `closed`: the line is a ring (first and last vertex coincide).
/// `addition`: how many vertices a drawn vertex carries the form line on to, itself
/// included (the whole steps of the configured form line addition).
/// `below_minimum`: the ring is smaller than ISOM allows a closed form line to be drawn.
pub fn formline_mask(
    help: &Vec<bool>,
    smooth: &Vec<bool>,
    closed: bool,
    addition: u64,
    below_minimum: bool,
    minimumgap: u32,
    remove_touching_contours: bool,
) -> (r: (Vec<bool>, bool))
    requires
        help@.len() >= 7,
        smooth@.len() == help@.len(),
    ensures
        r.0@ == formline_mask_of(
            help@,
            smooth@,
            closed,
            addition as int,
            below_minimum,
            minimumgap as int,
            remove_touching_contours,
        ),
        r.1 == small_ring(spread_mask(help@, closed, addition as int), closed, below_minimum),
{
    let w = windowed_mask(help);
    let f = spread_forward(&w, addition, closed);
    let b = spread_backward(&f, addition, closed);
    let (ringed, smallringtest) = small_ring_rule(b, closed, below_minimum);
    let gapped = if !smallringtest {
        close_gaps(&ringed, minimumgap)
    } else {
        ringed
    };
    if remove_touching_contours {
        let (cleared, touched) = clear_rough(&gapped, smooth);
        if touched {
            (clear_short_runs(&cleared), smallringtest)
        } else {
            (cleared, smallringtest)
        }
    } else {
        (gapped, smallringtest)
    }
}

/// Whether vertex `k` is drawn: the first vertex only ever starts a drawn segment.
pub open spec fn drawn_after_first(mask: Seq<bool>) -> spec_fn(usize) -> bool {
    |k: usize| k >= 1 && mask[k as int]
}

/// The drawn vertices from the second on, in order.
pub open spec fn drawn_vertices(mask: Seq<bool>, n: int) -> Seq<usize> {
    Seq::new(n as nat, |k: int| k as usize).filter(drawn_after_first(mask))
}

/// A run: consecutive vertex numbers.
pub open spec fn is_run(r: Seq<usize>) -> bool {
    forall|j: int| 0 <= j < r.len() - 1 ==> #[trigger] r[j + 1] == r[j] + 1
}

/// Runs that are non-empty, consecutive, and separated by at least one vertex.
pub open spec fn separated_runs(rs: Seq<Seq<usize>>) -> bool {
    &&& forall|q: int| 0 <= q < rs.len() ==> (#[trigger] rs[q]).len() > 0 && is_run(rs[q])
    &&& forall|q: int| 0 <= q < rs.len() - 1 ==> #[trigger] rs[q].last() + 1 < rs[q + 1][0]
}

/// The form line segments of a line: the drawn vertices (from the second on, `mask`
/// telling which are drawn) split into maximal runs of consecutive vertices.
pub fn formline_runs(mask: &Vec<bool>) -> (r: Vec<Vec<usize>>)
    ensures
        r@.map_values(|v: Vec<usize>| v@).flatten() == drawn_vertices(mask@, mask@.len() as int),
        separated_runs(r@.map_values(|v: Vec<usize>| v@)),
{
    let n = mask.len();
    let ghost p = drawn_after_first(mask@);
    let mut done: Vec<Vec<usize>> = Vec::new();
    let mut cur: Vec<usize> = Vec::new();
    if n == 0 {
        return done;
    }
    let mut i: usize = 1;
    proof {
        let e = Seq::<usize>::empty();
        assert(Seq::new(1, |k: int| k as usize) =~= e.push(0));
        e.lemma_filter_push(0, p);
        assert(e.filter(p) =~= e) by {
            reveal(Seq::filter);
        }
    }
    while i < n
        invariant
            n == mask@.len(),
            1 <= i <= n,
            p == drawn_after_first(mask@),
            done@.map_values(|v: Vec<usize>| v@).flatten() + cur@ == drawn_vertices(mask@, i as int),
            separated_runs(done@.map_values(|v: Vec<usize>| v@)),
            is_run(cur@),
            cur@.len() > 0 ==> cur@.last() == i - 1,
            cur@.len() > 0 && done@.len() > 0 ==> done@.last()@.last() + 1 < cur@[0],
            cur@.len() == 0 && done@.len() > 0 ==> done@.last()@.last() + 1 < i,
            forall|q: int| 0 <= q < cur@.len() ==> #[trigger] cur@[q] < i,
            forall|q: int| 0 <= q < done@.len() ==> (#[trigger] done@[q])@.last() < i,
        decreases n - i,
    {
        let ghost done0 = done@.map_values(|v: Vec<usize>| v@);
        let ghost cur0 = cur@;
        proof {
            let s0 = Seq::new(i as nat, |k: int| k as usize);
            assert(Seq::new((i + 1) as nat, |k: int| k as usize) =~= s0.push(i));
            s0.lemma_filter_push(i, p);
        }
        if mask[i] {
            cur.push(i);
            proof {
                assert(done0.flatten() + cur@ =~= (done0.flatten() + cur0).push(i));
            }
        } else if cur.len() > 0 {
            let c = cur;
            cur = Vec::new();
            done.push(c);
            proof {
                let d = done@.map_values(|v: Vec<usize>| v@);
                assert(d =~= done0.push(cur0));
                done0.lemma_flatten_push(cur0);
                assert(d.flatten() + cur@ =~= done0.flatten() + cur0);
            }
        }
        i = i + 1;
    }
    if cur.len() > 0 {
        let ghost done0 = done@.map_values(|v: Vec<usize>| v@);
        let ghost cur0 = cur@;
        done.push(cur);
        proof {
            let d = done@.map_values(|v: Vec<usize>| v@);
            assert(d =~= done0.push(cur0));
            done0.lemma_flatten_push(cur0);
        }
    }
    done
}

/// The width class of a contour line, in tenths of a pixel, that decides whether it is a
/// form line candidate: 2 (3 for index contours), or with form lines on: 2.5 in form line
/// mode 1, 1.5 for intermediate lines and 3.5 for index lines. (The renderer then draws a
/// small depression at 3 whatever this gives.)
pub open spec fn curve_width_tenths_of(class: Classification, formline_on: bool, formline_one: bool) -> u32 {
    if formline_on {
        if spec_is_index(class) {
            35
        } else if spec_is_intermed(class) {
            15
        } else if formline_one {
            25
        } else {
            20
        }
    } else if spec_is_index(class) {
        30
    } else {
        20
    }
}

/// The width class of a contour line, in tenths of a pixel (see [`curve_width_tenths_of`]).
/// A line is a form line candidate exactly when it is 15.
pub fn curve_width_tenths(class: Classification, formline_on: bool, formline_one: bool) -> (r: u32)
    ensures
        r == curve_width_tenths_of(class, formline_on, formline_one),
{
    let mut w: u32 = 20;
    if class.is_index() {
        w = 30;
    }
    if formline_on {
        if formline_one {
            w = 25;
        }
        if class.is_intermed() {
            w = 15;
        }
        if class.is_index() {
            w = 35;
        }
    }
    w
}

/// Whether a line is drawn at all: with depressions left out only contours are.
pub fn is_drawn(class: Classification, nodepressions: bool) -> (r: bool)
    ensures
        r == (!nodepressions || spec_is_contour(class)),
{
    !nodepressions || class.is_contour()
}

/// Whether a slope line is left out: when the line before it was not drawn, or the
/// depression it belongs to already shows a gap where the slope line would start.
pub fn skips_slope_line(class: Classification, last_curve_drawn: bool, draw_next_slope_line: bool) -> (r:
    bool)
    ensures
        r == (class == Classification::SlopeLine && (!last_curve_drawn || !draw_next_slope_line)),
{
    class == Classification::SlopeLine && (!last_curve_drawn || !draw_next_slope_line)
}

/// Whether pixel `p` of an RGBA buffer (4 bytes per pixel) is pure white.
pub open spec fn is_white_pixel(px: Seq<u8>, p: int) -> bool {
    px[4 * p] == 255 && px[4 * p + 1] == 255 && px[4 * p + 2] == 255
}

/// Make the white pixels of an overlay transparent, so that only its marks cover the map:
/// a pure white pixel gets alpha 0, every other byte is kept.
pub fn clear_white(px: &mut Vec<u8>)
    requires
        old(px)@.len() % 4 == 0,
    ensures
        final(px)@.len() == old(px)@.len(),
        forall|p: int|
            0 <= p < old(px)@.len() / 4 ==> {
                &&& #[trigger] final(px)@[4 * p] == old(px)@[4 * p]
                &&& final(px)@[4 * p + 1] == old(px)@[4 * p + 1]
                &&& final(px)@[4 * p + 2] == old(px)@[4 * p + 2]
                &&& final(px)@[4 * p + 3] == if is_white_pixel(old(px)@, p) {
                    0
                } else {
                    old(px)@[4 * p + 3]
                }
            },
{
    let n = px.len();
    let m = n / 4;
    let mut q: usize = 0;
    while q < m
        invariant
            px@.len() == n,
            n == old(px)@.len(),
            n == 4 * m,
            q <= m,
            forall|k: int| 4 * q <= k < n ==> #[trigger] px@[k] == old(px)@[k],
            forall|p: int|
                0 <= p < q ==> {
                    &&& #[trigger] px@[4 * p] == old(px)@[4 * p]
                    &&& px@[4 * p + 1] == old(px)@[4 * p + 1]
                    &&& px@[4 * p + 2] == old(px)@[4 * p + 2]
                    &&& px@[4 * p + 3] == if is_white_pixel(old(px)@, p) {
                        0
                    } else {
                        old(px)@[4 * p + 3]
                    }
                },
        decreases m - q,
    {
        let i = 4 * q;
        assert(px@[i as int] == old(px)@[i as int]);
        assert(px@[i + 1] == old(px)@[i + 1]);
        assert(px@[i + 2] == old(px)@[i + 2]);
        assert(px@[i + 3] == old(px)@[i + 3]);
        let ghost before = px@;
        if px[i] == 255 && px[i + 1] == 255 && px[i + 2] == 255 {
            px.set(i + 3, 0);
        }
        proof {
            assert forall|p: int| 0 <= p < q + 1 implies {
                &&& #[trigger] px@[4 * p] == old(px)@[4 * p]
                &&& px@[4 * p + 1] == old(px)@[4 * p + 1]
                &&& px@[4 * p + 2] == old(px)@[4 * p + 2]
                &&& px@[4 * p + 3] == if is_white_pixel(old(px)@, p) {
                    0
                } else {
                    old(px)@[4 * p + 3]
                }
            } by {
                if p < q {
                    assert(before[4 * p] == old(px)@[4 * p]);
                    assert(4 * p + 3 < i);
                }
            }
        }
        q = q + 1;
    }
}


/// A line is a form line candidate exactly when form lines are on and it is an
/// intermediate line that is not an index line; index lines are always the widest.
pub proof fn lemma_formline_candidates(class: Classification, formline_on: bool, formline_one: bool)
    ensures
        (curve_width_tenths_of(class, formline_on, formline_one) == 15) == (formline_on
            && spec_is_intermed(class) && !spec_is_index(class)),
        spec_is_index(class) ==> curve_width_tenths_of(class, formline_on, formline_one)
            > curve_width_tenths_of(Classification::ContourSimple, formline_on, formline_one),
{
}

} // verus!
