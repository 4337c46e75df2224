//! Mathematical model of the region scanner and the recursive partitioner.
//!
//! The executable code in [`crate::splitter`] is proved to return exactly
//! these functions' values, and the properties in [`crate::laws`] are proved
//! of the model.

use vstd::prelude::*;

use crate::buffer::PixelBuffer;
use crate::rect::Rect;

verus! {

/// The shear slopes the scanner tries, in order, in tenths of a pixel of
/// vertical offset per pixel of horizontal travel: no shear first, then small
/// corrections, then large ones. The first slope that yields a split wins and
/// later slopes are never tried.
pub open spec fn slopes() -> Seq<int> {
    seq![0, -1, 1, -6, -5, -4, -3, -2, 2, 3, 4, 5, 6]
}

/// Number of consecutive single-color rows a run must reach before a cut is
/// considered when a contrasting row closes the run off.
pub open spec fn min_gutter_rows() -> int {
    5
}

/// Row index hit when sampling row `y` at column `x` under a slope of `a`
/// tenths: the floor of `y + (a/10)·x`.
pub open spec fn sheared_y(y: int, x: int, a: int) -> int {
    (10 * y + a * x) / 10
}

/// The sheared line for row `y` is defined when every sampled column of `sec`
/// lands inside `sec`'s rows.
pub open spec fn line_defined(buf: PixelBuffer, sec: Rect, y: int, a: int) -> bool {
    forall|x: int|
        sec.x <= x < sec.end_x() ==> sec.y <= #[trigger] sheared_y(y, x, a) < sec.end_y()
}

/// The intensities sampled along the sheared line for row `y`, one per column
/// of `sec`.
pub open spec fn line_samples(buf: PixelBuffer, sec: Rect, y: int, a: int) -> Seq<u8> {
    Seq::new(sec.width as nat, |i: int| buf.pixel(sec.x + i, sheared_y(y, sec.x + i, a)))
}

/// Sum of the intensities in `s`.
pub open spec fn intensity_sum(s: Seq<u8>) -> int
    decreases s.len(),
{
    if s.len() == 0 {
        0
    } else {
        intensity_sum(s.drop_last()) + s.last()
    }
}

/// Distance between an intensity value and the target intensity.
pub open spec fn abs_diff(v: int, goal: int) -> int {
    if v < goal {
        goal - v
    } else {
        v - goal
    }
}

/// Block-averaging uniformity test: a non-empty line is single-color when at
/// every tenth sample the running average of the samples so far stays within
/// `margin` of `goal`. An empty line is never single-color. Sparse noise
/// barely moves a running average, so this tolerates isolated off-color
/// pixels while rejecting sustained deviation.
pub open spec fn single_color(s: Seq<u8>, goal: int, margin: int) -> bool {
    &&& s.len() > 0
    &&& forall|k: int|
        1 <= k <= s.len() && k % 10 == 0 ==> abs_diff(
            intensity_sum(#[trigger] s.take(k)) / k,
            goal,
        ) <= margin
}

/// A gutter row: its sampled line is defined and single-color.
pub open spec fn row_empty(
    buf: PixelBuffer,
    sec: Rect,
    goal: int,
    margin: int,
    a: int,
    y: int,
) -> bool {
    &&& line_defined(buf, sec, y, a)
    &&& single_color(line_samples(buf, sec, y, a), goal, margin)
}

/// Cut position derived from a run of `run` single-color rows ending just
/// before row `y`: the middle row of the run, re-projected through the shear
/// at the horizontal midpoint of `sec`.
pub open spec fn cut_pos(sec: Rect, a: int, y: int, run: int) -> int {
    sheared_y(y - run / 2, sec.mid_x(), a)
}

/// Cut positions emitted while scanning rows `y .. sec.end_y()` of `sec`
/// under slope `a`, given `run` consecutive single-color rows immediately
/// above `y` and `top` as the top of the slice being accumulated. A run of at
/// least [`min_gutter_rows`] closed off by a contrasting row yields a cut,
/// kept only when the slice above it would be taller than `sec.height / 5`;
/// a kept cut becomes the new slice top.
pub open spec fn cuts_from(
    buf: PixelBuffer,
    sec: Rect,
    goal: int,
    margin: int,
    a: int,
    y: int,
    run: int,
    top: int,
) -> Seq<int>
    decreases sec.end_y() - y,
{
    if y >= sec.end_y() {
        Seq::empty()
    } else if row_empty(buf, sec, goal, margin, a, y) {
        cuts_from(buf, sec, goal, margin, a, y + 1, run + 1, top)
    } else if run >= min_gutter_rows() && cut_pos(sec, a, y, run) - top > sec.height as int / 5 {
        seq![cut_pos(sec, a, y, run)] + cuts_from(
            buf,
            sec,
            goal,
            margin,
            a,
            y + 1,
            0,
            cut_pos(sec, a, y, run),
        )
    } else {
        cuts_from(buf, sec, goal, margin, a, y + 1, 0, top)
    }
}

/// The vertical tiling of `sec` determined by the increasing cut positions
/// `cs`: slices `[sec.y, cs[0])`, `[cs[i], cs[i+1])`, ..., and the trailing
/// slice `[cs[last], sec.end_y())`.
pub open spec fn tiling_of(sec: Rect, cs: Seq<int>) -> Seq<Rect> {
    Seq::new(
        (cs.len() + 1) as nat,
        |i: int|
            {
                let lo = if i == 0 {
                    sec.y as int
                } else {
                    cs[i - 1]
                };
                let hi = if i == cs.len() {
                    sec.end_y()
                } else {
                    cs[i]
                };
                Rect { x: sec.x, y: lo as usize, width: sec.width, height: (hi - lo) as usize }
            },
    )
}

/// Scan of `sec` under a single slope: the tiling at the emitted cuts, closed
/// off by the trailing slice, or the empty sequence when no cut was emitted.
pub open spec fn scan_at_slope(
    buf: PixelBuffer,
    sec: Rect,
    goal: int,
    margin: int,
    a: int,
) -> Seq<Rect> {
    let cs = cuts_from(buf, sec, goal, margin, a, sec.y as int, 0, sec.y as int);
    if cs.len() == 0 {
        Seq::empty()
    } else {
        tiling_of(sec, cs)
    }
}

/// The region scanner, trying the slopes from position `i` of [`slopes`] on:
/// the first slope that yields a split wins; when none does, the section
/// itself, unchanged, is the whole tiling.
pub open spec fn scan_from(
    buf: PixelBuffer,
    sec: Rect,
    goal: int,
    margin: int,
    i: int,
) -> Seq<Rect>
    decreases slopes().len() - i,
{
    if i >= slopes().len() {
        seq![sec]
    } else if scan_at_slope(buf, sec, goal, margin, slopes()[i]).len() > 0 {
        scan_at_slope(buf, sec, goal, margin, slopes()[i])
    } else {
        scan_from(buf, sec, goal, margin, i + 1)
    }
}

/// The region scanner over the whole slope list.
pub open spec fn scan(buf: PixelBuffer, sec: Rect, goal: int, margin: int) -> Seq<Rect> {
    scan_from(buf, sec, goal, margin, 0)
}

/// No slope finds a gutter in `sec`: every scan pass emits no cut.
pub open spec fn no_gutter(buf: PixelBuffer, sec: Rect, goal: int, margin: int) -> bool {
    forall|i: int|
        0 <= i < slopes().len() ==> cuts_from(
            buf,
            sec,
            goal,
            margin,
            #[trigger] slopes()[i],
            sec.y as int,
            0,
            sec.y as int,
        ).len() == 0
}

/// The recursive partitioner: scan `sec`; a section the scanner returns
/// unchanged is a leaf; otherwise partition every piece of the split and
/// concatenate the results in order.
///
/// Every piece of a real split is strictly shorter than its section (proved
/// in [`lemma_scan_props`]), so the height test inside [`partition_pieces`]
/// always holds for the pieces actually scanned; it is written out to make
/// termination evident from the definitions alone.
pub open spec fn partition(buf: PixelBuffer, sec: Rect, goal: int, margin: int) -> Seq<Rect>
    decreases sec.height, 1int,
{
    let parts = scan(buf, sec, goal, margin);
    if parts.len() <= 1 {
        seq![sec]
    } else {
        partition_pieces(buf, parts, goal, margin, sec.height as int).flatten()
    }
}

/// The partition of each piece of a split, in order. `cap` is the height of
/// the parent section; the pieces actually produced by a split are strictly
/// shorter than it.
pub open spec fn partition_pieces(
    buf: PixelBuffer,
    parts: Seq<Rect>,
    goal: int,
    margin: int,
    cap: int,
) -> Seq<Seq<Rect>>
    decreases cap, 0int,
{
    Seq::new(
        parts.len(),
        |i: int|
            if 0 <= i < parts.len() && parts[i].height < cap {
                partition(buf, parts[i], goal, margin)
            } else {
                Seq::empty()
            },
    )
}

/// The whole extent of a buffer as a rectangle.
pub open spec fn whole_rect(buf: PixelBuffer) -> Rect {
    Rect { x: 0, y: 0, width: buf.width, height: buf.height }
}

/// Cut positions recorded as machine integers, read back as mathematical
/// ones.
pub open spec fn cut_ints(cs: Seq<usize>) -> Seq<int> {
    cs.map_values(|c: usize| c as int)
}

/// Sums of intensities are non-negative and at most `255` per sample.
pub proof fn lemma_intensity_sum_bound(s: Seq<u8>)
    ensures
        0 <= intensity_sum(s) <= 255 * s.len(),
    decreases s.len(),
{
    if s.len() > 0 {
        lemma_intensity_sum_bound(s.drop_last());
    }
}

/// Appending one sample adds its intensity to the sum.
pub proof fn lemma_intensity_sum_push(s: Seq<u8>, v: u8)
    ensures
        intensity_sum(s.push(v)) == intensity_sum(s) + v,
{
    assert(s.push(v).drop_last() =~= s);
}

/// The cut positions `cs` against a slice top `top` and a section bottom
/// `end`: each cut lies strictly between `top` and `end`, and each slice
/// between consecutive cuts (the first measured from `top`) is taller than
/// `min_h`.
pub open spec fn cut_chain(cs: Seq<int>, top: int, end: int, min_h: int) -> bool {
    forall|j: int|
        0 <= j < cs.len() ==> {
            let prev = if j == 0 {
                top
            } else {
                cs[j - 1]
            };
            &&& top < #[trigger] cs[j] < end
            &&& cs[j] - prev > min_h
        }
}

/// The scan of rows `y..` emits a cut chain, provided the `run` rows just
/// above `y` are single-color (which is how [`cuts_from`] is ever entered):
/// a cut is re-projected from the middle row of a single-color run, whose
/// line is defined, so the cut lands inside the section's rows; and a cut is
/// only kept when it clears both the previous top and the minimum height.
pub proof fn lemma_cuts_from_chain(
    buf: PixelBuffer,
    sec: Rect,
    goal: int,
    margin: int,
    a: int,
    y: int,
    run: int,
    top: int,
)
    requires
        sec.width >= 1,
        sec.y <= y <= sec.end_y(),
        sec.y <= top,
        0 <= run <= y - sec.y,
        forall|j: int| y - run <= j < y ==> row_empty(buf, sec, goal, margin, a, j),
    ensures
        cut_chain(
            cuts_from(buf, sec, goal, margin, a, y, run, top),
            top,
            sec.end_y(),
            sec.height as int / 5,
        ),
    decreases sec.end_y() - y,
{
    let end = sec.end_y();
    let min_h = sec.height as int / 5;
    if y >= end {
    } else if row_empty(buf, sec, goal, margin, a, y) {
        lemma_cuts_from_chain(buf, sec, goal, margin, a, y + 1, run + 1, top);
    } else if run >= min_gutter_rows() && cut_pos(sec, a, y, run) - top > min_h {
        let c = cut_pos(sec, a, y, run);
        let temp = y - run / 2;
        assert(y - run <= temp < y);
        assert(row_empty(buf, sec, goal, margin, a, temp));
        assert(sec.x <= sec.mid_x() < sec.end_x());
        assert(sec.y <= sheared_y(temp, sec.mid_x(), a) < end);
        lemma_cuts_from_chain(buf, sec, goal, margin, a, y + 1, 0, c);
        let rest = cuts_from(buf, sec, goal, margin, a, y + 1, 0, c);
        let cs = cuts_from(buf, sec, goal, margin, a, y, run, top);
        assert(cs == seq![c] + rest);
        assert forall|j: int| 0 <= j < cs.len() implies {
            let prev = if j == 0 {
                top
            } else {
                cs[j - 1]
            };
            &&& top < #[trigger] cs[j] < end
            &&& cs[j] - prev > min_h
        } by {
            if j == 0 {
                assert(cs[0] == c);
            } else {
                assert(cs[j] == rest[j - 1]);
                if j >= 2 {
                    assert(cs[j - 1] == rest[j - 2]);
                }
            }
        }
    } else {
        lemma_cuts_from_chain(buf, sec, goal, margin, a, y + 1, 0, top);
    }
}

/// What the scanner guarantees of its result: either the section unchanged,
/// or a real split — at least two pieces that tile the section, every piece
/// well formed and strictly shorter than the section, and every piece except
/// the trailing one taller than a fifth of the section.
pub open spec fn scan_result_ok(buf: PixelBuffer, sec: Rect, r: Seq<Rect>) -> bool {
    ||| r =~= seq![sec]
    ||| {
        &&& r.len() >= 2
        &&& crate::rect::tiles(sec, r)
        &&& forall|i: int|
            0 <= i < r.len() ==> (#[trigger] r[i]).wf(buf.width as int, buf.height as int)
        &&& forall|i: int| 0 <= i < r.len() ==> (#[trigger] r[i]).height < sec.height
        &&& forall|i: int|
            0 <= i < r.len() - 1 ==> (#[trigger] r[i]).height > sec.height as int / 5
    }
}

/// A single-slope scan that found a split yields a tiling with the split
/// guarantees.
pub proof fn lemma_scan_at_slope_props(buf: PixelBuffer, sec: Rect, goal: int, margin: int, a: int)
    requires
        buf.wf(),
        sec.wf(buf.width as int, buf.height as int),
    ensures
        scan_at_slope(buf, sec, goal, margin, a).len() != 0 ==> scan_at_slope(
            buf,
            sec,
            goal,
            margin,
            a,
        ).len() >= 2 && scan_result_ok(buf, sec, scan_at_slope(buf, sec, goal, margin, a)),
{
    let end = sec.end_y();
    let min_h = sec.height as int / 5;
    let cs = cuts_from(buf, sec, goal, margin, a, sec.y as int, 0, sec.y as int);
    lemma_cuts_from_chain(buf, sec, goal, margin, a, sec.y as int, 0, sec.y as int);
    if cs.len() != 0 {
        let r = tiling_of(sec, cs);
        assert(r.len() == cs.len() + 1);
        assert forall|i: int| 0 <= i < r.len() implies {
            &&& (#[trigger] r[i]).x == sec.x
            &&& r[i].width == sec.width
            &&& r[i].y == (if i == 0 { sec.y as int } else { cs[i - 1] })
            &&& r[i].end_y() == (if i == cs.len() { end } else { cs[i] })
            &&& 1 <= r[i].height < sec.height
            &&& r[i].wf(buf.width as int, buf.height as int)
            &&& (i < r.len() - 1 ==> r[i].height > min_h)
        } by {
            let lo = if i == 0 {
                sec.y as int
            } else {
                cs[i - 1]
            };
            let hi = if i == cs.len() {
                end
            } else {
                cs[i]
            };
            if i > 0 {
                assert(cut_chain_at(cs, sec.y as int, end, min_h, i - 1));
            }
            if i < cs.len() {
                assert(cut_chain_at(cs, sec.y as int, end, min_h, i));
            }
            assert(sec.y <= lo < hi <= end);
            assert(hi - lo < sec.height || (lo == sec.y && hi == end));
            if cs.len() >= 1 && lo == sec.y && i == 0 {
                assert(hi == cs[0] < end);
            }
        }
        assert(crate::rect::tiles(sec, r)) by {
            assert forall|i: int| 0 < i < r.len() implies (#[trigger] r[i]).y == r[i - 1].end_y()
            by {}
        }
    }
}

/// The scanner's guarantees hold of the slope search from position `i` on.
pub proof fn lemma_scan_from_props(buf: PixelBuffer, sec: Rect, goal: int, margin: int, i: int)
    requires
        buf.wf(),
        sec.wf(buf.width as int, buf.height as int),
        0 <= i <= slopes().len(),
    ensures
        scan_result_ok(buf, sec, scan_from(buf, sec, goal, margin, i)),
        scan_from(buf, sec, goal, margin, i).len() >= 1,
    decreases slopes().len() - i,
{
    if i < slopes().len() {
        lemma_scan_at_slope_props(buf, sec, goal, margin, slopes()[i]);
        if scan_at_slope(buf, sec, goal, margin, slopes()[i]).len() == 0 {
            lemma_scan_from_props(buf, sec, goal, margin, i + 1);
        }
    }
}

/// The scanner's guarantees: its result is the section unchanged, or a real
/// split with the properties of [`scan_result_ok`].
pub proof fn lemma_scan_props(buf: PixelBuffer, sec: Rect, goal: int, margin: int)
    requires
        buf.wf(),
        sec.wf(buf.width as int, buf.height as int),
    ensures
        scan_result_ok(buf, sec, scan(buf, sec, goal, margin)),
        scan(buf, sec, goal, margin).len() >= 1,
{
    lemma_scan_from_props(buf, sec, goal, margin, 0);
}

/// When no slope finds a gutter, the slope search from any position returns
/// the section unchanged.
pub proof fn lemma_no_gutter_scan_from(buf: PixelBuffer, sec: Rect, goal: int, margin: int, i: int)
    requires
        no_gutter(buf, sec, goal, margin),
        0 <= i <= slopes().len(),
    ensures
        scan_from(buf, sec, goal, margin, i) =~= seq![sec],
    decreases slopes().len() - i,
{
    if i < slopes().len() {
        assert(cuts_from(
            buf,
            sec,
            goal,
            margin,
            slopes()[i],
            sec.y as int,
            0,
            sec.y as int,
        ).len() == 0);
        lemma_no_gutter_scan_from(buf, sec, goal, margin, i + 1);
    }
}

/// A scan pass emits a cut only when a contrasting row closes a run off, so
/// from any state, a stretch of rows that are all single-color contributes no
/// cut.
pub proof fn lemma_all_rows_empty_no_cut(
    buf: PixelBuffer,
    sec: Rect,
    goal: int,
    margin: int,
    a: int,
    y: int,
    run: int,
    top: int,
)
    requires
        forall|j: int| y <= j < sec.end_y() ==> row_empty(buf, sec, goal, margin, a, j),
    ensures
        cuts_from(buf, sec, goal, margin, a, y, run, top).len() == 0,
    decreases sec.end_y() - y,
{
    if y < sec.end_y() {
        lemma_all_rows_empty_no_cut(buf, sec, goal, margin, a, y + 1, run + 1, top);
    }
}

/// Helper naming the `cut_chain` instance at one index, so that quantified
/// proofs can point at it.
pub open spec fn cut_chain_at(cs: Seq<int>, top: int, end: int, min_h: int, j: int) -> bool {
    let prev = if j == 0 {
        top
    } else {
        cs[j - 1]
    };
    &&& top < cs[j] < end
    &&& cs[j] - prev > min_h
}

} // verus!
