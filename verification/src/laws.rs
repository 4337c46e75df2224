//! The guarantees the scanner and partitioner give, stated and proved over
//! the model in [`crate::scan`]. The executable functions in
//! [`crate::splitter`] return exactly the model's values, so these laws carry
//! over to every run of the library.

use vstd::prelude::*;

use crate::buffer::PixelBuffer;
use crate::rect::{lemma_tiles_flatten, lemma_tiles_wf, tiles, Rect};
use crate::scan::{
    cuts_from, lemma_all_rows_empty_no_cut, lemma_no_gutter_scan_from, lemma_scan_at_slope_props,
    lemma_scan_props, no_gutter, partition, partition_pieces, row_empty, scan, scan_at_slope,
};

verus! {

/// The scanner's result always tiles the section exactly: no gaps, no
/// overlaps, union equal to the section.
pub proof fn lemma_scanner_tiles(buf: PixelBuffer, sec: Rect, goal: int, margin: int)
    requires
        buf.wf(),
        sec.wf(buf.width as int, buf.height as int),
    ensures
        tiles(sec, scan(buf, sec, goal, margin)),
{
    lemma_scan_props(buf, sec, goal, margin);
}

/// The same holds of each single slope that yields a split, so the tiling
/// invariant is independent of which slope the search settles on.
pub proof fn lemma_slope_scan_tiles(buf: PixelBuffer, sec: Rect, goal: int, margin: int, a: int)
    requires
        buf.wf(),
        sec.wf(buf.width as int, buf.height as int),
        scan_at_slope(buf, sec, goal, margin, a).len() != 0,
    ensures
        tiles(sec, scan_at_slope(buf, sec, goal, margin, a)),
{
    lemma_scan_at_slope_props(buf, sec, goal, margin, a);
}

/// When no slope finds a gutter, the scanner returns the section unchanged as
/// a single-element tiling.
pub proof fn lemma_no_split_identity(buf: PixelBuffer, sec: Rect, goal: int, margin: int)
    requires
        no_gutter(buf, sec, goal, margin),
    ensures
        scan(buf, sec, goal, margin) == seq![sec],
{
    lemma_no_gutter_scan_from(buf, sec, goal, margin, 0);
}

/// A gutter never surrounds non-existent content: a cut is emitted only when
/// a contrasting row closes a run of single-color rows off, so a pass of the
/// scanner over a section whose every row reads as gutter emits no cut at
/// all.
pub proof fn lemma_all_gutter_pass_yields_no_cut(
    buf: PixelBuffer,
    sec: Rect,
    goal: int,
    margin: int,
    a: int,
)
    requires
        forall|y: int| sec.y <= y < sec.end_y() ==> row_empty(buf, sec, goal, margin, a, y),
    ensures
        cuts_from(buf, sec, goal, margin, a, sec.y as int, 0, sec.y as int).len() == 0,
{
    lemma_all_rows_empty_no_cut(buf, sec, goal, margin, a, sec.y as int, 0, sec.y as int);
}

/// The partitioner is a function of the buffer, the section and the
/// configuration alone: any two results of it on the same arguments are the
/// same sequence of leaves, in the same order. The executable partitioner
/// ensures its result equals `partition(..)`, so repeated invocations agree.
pub proof fn lemma_partition_deterministic(
    buf: PixelBuffer,
    sec: Rect,
    goal: int,
    margin: int,
    r1: Seq<Rect>,
    r2: Seq<Rect>,
)
    requires
        r1 == partition(buf, sec, goal, margin),
        r2 == partition(buf, sec, goal, margin),
    ensures
        r1 == r2,
{
}

/// Every rectangle of a real split is strictly shorter than the section it
/// was cut from.
pub proof fn lemma_split_shrinks(buf: PixelBuffer, sec: Rect, goal: int, margin: int)
    requires
        buf.wf(),
        sec.wf(buf.width as int, buf.height as int),
    ensures
        scan(buf, sec, goal, margin).len() >= 2 ==> forall|i: int|
            0 <= i < scan(buf, sec, goal, margin).len() ==> (#[trigger] scan(
                buf,
                sec,
                goal,
                margin,
            )[i]).height < sec.height,
{
    lemma_scan_props(buf, sec, goal, margin);
}

/// No rectangle of a real split, other than the trailing one that closes the
/// tiling off, is as short as a fifth of its section.
pub proof fn lemma_min_height_guard(buf: PixelBuffer, sec: Rect, goal: int, margin: int)
    requires
        buf.wf(),
        sec.wf(buf.width as int, buf.height as int),
    ensures
        scan(buf, sec, goal, margin).len() >= 2 ==> forall|i: int|
            0 <= i < scan(buf, sec, goal, margin).len() - 1 ==> (#[trigger] scan(
                buf,
                sec,
                goal,
                margin,
            )[i]).height > sec.height as int / 5,
{
    lemma_scan_props(buf, sec, goal, margin);
}

/// The partitioner's leaves tile the section exactly — the scanner's tiling
/// invariant is preserved transitively through the recursion — and every
/// leaf is well formed against the buffer.
pub proof fn lemma_partition_tiles(buf: PixelBuffer, sec: Rect, goal: int, margin: int)
    requires
        buf.wf(),
        sec.wf(buf.width as int, buf.height as int),
    ensures
        tiles(sec, partition(buf, sec, goal, margin)),
        forall|i: int|
            0 <= i < partition(buf, sec, goal, margin).len() ==> (#[trigger] partition(
                buf,
                sec,
                goal,
                margin,
            )[i]).wf(buf.width as int, buf.height as int),
    decreases sec.height,
{
    let parts = scan(buf, sec, goal, margin);
    lemma_scan_props(buf, sec, goal, margin);
    if parts.len() <= 1 {
        assert(parts =~= seq![sec]);
        assert(tiles(sec, partition(buf, sec, goal, margin)));
    } else {
        let subs = partition_pieces(buf, parts, goal, margin, sec.height as int);
        assert forall|i: int| 0 <= i < parts.len() implies tiles(parts[i], #[trigger] subs[i]) by {
            assert(parts[i].height < sec.height);
            assert(parts[i].wf(buf.width as int, buf.height as int));
            lemma_partition_tiles(buf, parts[i], goal, margin);
            assert(subs[i] == partition(buf, parts[i], goal, margin));
        }
        lemma_tiles_flatten(sec, parts, subs);
        assert(partition(buf, sec, goal, margin) == subs.flatten());
    }
    lemma_tiles_wf(sec, partition(buf, sec, goal, margin), buf.width as int, buf.height as int);
}

} // verus!
