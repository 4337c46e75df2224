use vstd::prelude::*;

verus! {

/// A rectangle in pixel coordinates. A well-formed rectangle has positive
/// area and lies wholly inside the buffer extent it is measured against.
#[derive(Clone, Copy, Debug, PartialEq, Eq, Structural)]
pub struct Rect {
    pub x: usize,
    pub y: usize,
    pub width: usize,
    pub height: usize,
}

impl Rect {
    /// The rectangle has positive area and fits in a `bw` by `bh` pixel grid.
    pub open spec fn wf(self, bw: int, bh: int) -> bool {
        &&& self.width >= 1
        &&& self.height >= 1
        &&& self.x + self.width <= bw
        &&& self.y + self.height <= bh
    }

    /// First row index past the bottom edge.
    pub open spec fn end_y(self) -> int {
        self.y + self.height
    }

    /// First column index past the right edge.
    pub open spec fn end_x(self) -> int {
        self.x + self.width
    }

    /// The column at which a cut row found under a shear slope is re-projected
    /// to an absolute row index: the horizontal midpoint of the rectangle.
    pub open spec fn mid_x(self) -> int {
        self.x + self.width / 2
    }

    /// A zero-area rectangle is a contract violation, refused here at
    /// construction; the scanner and partitioner never produce one.
    pub fn new(x: usize, y: usize, width: usize, height: usize) -> (r: Rect)
        requires
            width >= 1,
            height >= 1,
        ensures
            r == (Rect { x, y, width, height }),
    {
        Rect { x, y, width, height }
    }
}

/// `rs` tiles `sec` vertically: every piece spans the full horizontal extent
/// of `sec`, the first piece starts at the top of `sec`, each later piece
/// starts exactly where its predecessor ends, and the last piece ends at the
/// bottom of `sec`. This rules out gaps and overlaps, and makes the union of
/// the pieces exactly `sec`.
pub open spec fn tiles(sec: Rect, rs: Seq<Rect>) -> bool {
    &&& rs.len() >= 1
    &&& forall|i: int| 0 <= i < rs.len() ==> (#[trigger] rs[i]).x == sec.x
    &&& forall|i: int| 0 <= i < rs.len() ==> (#[trigger] rs[i]).width == sec.width
    &&& forall|i: int| 0 <= i < rs.len() ==> (#[trigger] rs[i]).height >= 1
    &&& rs[0].y == sec.y
    &&& forall|i: int| 0 < i < rs.len() ==> (#[trigger] rs[i]).y == rs[i - 1].end_y()
    &&& rs[rs.len() - 1].end_y() == sec.end_y()
}

/// Every piece of a tiling starts no higher than the section does.
pub proof fn lemma_tiles_piece_starts_below(sec: Rect, rs: Seq<Rect>, i: int)
    requires
        tiles(sec, rs),
        0 <= i < rs.len(),
    ensures
        sec.y <= rs[i].y,
    decreases i,
{
    if i > 0 {
        lemma_tiles_piece_starts_below(sec, rs, i - 1);
    }
}

/// Every piece of a tiling ends no lower than the section does.
pub proof fn lemma_tiles_piece_ends_above(sec: Rect, rs: Seq<Rect>, i: int)
    requires
        tiles(sec, rs),
        0 <= i < rs.len(),
    ensures
        rs[i].end_y() <= sec.end_y(),
    decreases rs.len() - i,
{
    if i < rs.len() - 1 {
        lemma_tiles_piece_ends_above(sec, rs, i + 1);
    }
}

/// The pieces of a tiling of a well-formed section are themselves well
/// formed.
pub proof fn lemma_tiles_wf(sec: Rect, rs: Seq<Rect>, bw: int, bh: int)
    requires
        tiles(sec, rs),
        sec.wf(bw, bh),
    ensures
        forall|i: int| 0 <= i < rs.len() ==> (#[trigger] rs[i]).wf(bw, bh),
{
    assert forall|i: int| 0 <= i < rs.len() implies (#[trigger] rs[i]).wf(bw, bh) by {
        lemma_tiles_piece_starts_below(sec, rs, i);
        lemma_tiles_piece_ends_above(sec, rs, i);
    }
}

/// Tiling composes: when `parts` tiles `sec` and each `subs[i]` tiles
/// `parts[i]`, the concatenation of all the `subs` tiles `sec`.
pub proof fn lemma_tiles_flatten(sec: Rect, parts: Seq<Rect>, subs: Seq<Seq<Rect>>)
    requires
        tiles(sec, parts),
        subs.len() == parts.len(),
        forall|i: int| 0 <= i < parts.len() ==> tiles(parts[i], #[trigger] subs[i]),
    ensures
        tiles(sec, subs.flatten()),
    decreases parts.len(),
{
    if parts.len() == 1 {
        assert(parts[0].height == sec.height);
        assert(parts[0] == sec);
        subs.lemma_flatten_one_element();
        assert(subs.flatten() == subs[0]);
    } else {
        lemma_tiles_piece_ends_above(sec, parts, 1);
        let head = parts[0];
        let sec2 = Rect {
            x: sec.x,
            y: parts[1].y,
            width: sec.width,
            height: (sec.end_y() - parts[1].y) as usize,
        };
        assert(tiles(sec2, parts.drop_first())) by {
            assert forall|i: int| 0 <= i < parts.drop_first().len() implies {
                &&& (#[trigger] parts.drop_first()[i]).x == sec2.x
                &&& parts.drop_first()[i].width == sec2.width
                &&& parts.drop_first()[i].height >= 1
            } by {
                assert(parts.drop_first()[i] == parts[i + 1]);
            }
            assert forall|i: int|
                0 < i < parts.drop_first().len() implies (#[trigger] parts.drop_first()[i]).y
                == parts.drop_first()[i - 1].end_y() by {
                assert(parts.drop_first()[i] == parts[i + 1]);
                assert(parts.drop_first()[i - 1] == parts[i]);
            }
            assert(parts.drop_first()[parts.drop_first().len() - 1] == parts[parts.len() - 1]);
        }
        lemma_tiles_flatten(sec2, parts.drop_first(), subs.drop_first());
        let head_tiling = subs[0];
        let rest = subs.drop_first().flatten();
        assert(subs.flatten() == head_tiling + rest);
        let all = head_tiling + rest;
        assert(tiles(sec, all)) by {
            assert(head_tiling.len() >= 1 && rest.len() >= 1);
            assert forall|i: int| 0 <= i < all.len() implies {
                &&& (#[trigger] all[i]).x == sec.x
                &&& all[i].width == sec.width
                &&& all[i].height >= 1
            } by {
                if i < head_tiling.len() {
                    assert(all[i] == head_tiling[i]);
                } else {
                    assert(all[i] == rest[i - head_tiling.len()]);
                }
            }
            assert(all[0] == head_tiling[0]);
            assert forall|i: int| 0 < i < all.len() implies (#[trigger] all[i]).y == all[i
                - 1].end_y() by {
                if i < head_tiling.len() {
                    assert(all[i] == head_tiling[i] && all[i - 1] == head_tiling[i - 1]);
                } else if i == head_tiling.len() {
                    assert(all[i] == rest[0]);
                    assert(all[i - 1] == head_tiling[head_tiling.len() - 1]);
                    assert(rest[0].y == sec2.y);
                    assert(head_tiling[head_tiling.len() - 1].end_y() == head.end_y());
                    assert(head.end_y() == parts[1].y);
                } else {
                    assert(all[i] == rest[i - head_tiling.len()]);
                    assert(all[i - 1] == rest[i - head_tiling.len() - 1]);
                }
            }
            assert(all[all.len() - 1] == rest[rest.len() - 1]);
            assert(rest[rest.len() - 1].end_y() == sec2.end_y());
        }
    }
}

} // verus!
