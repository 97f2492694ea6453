//! Enumeration of the tiles under an axis-aligned rectangle.

use vstd::prelude::*;
use crate::pos::TilePosition;

verus! {

/// Walks the tiles of the half-open rectangle `[x_start, x_end) x [y, y_end)`
/// row by row, from the lowest row up and inside a row from the lowest
/// column up.
#[derive(Copy, Clone, Debug)]
pub struct AABBTileIterator {
    pub x_start: i32,
    pub x: i32,
    pub y: i32,
    pub x_end: i32,
    pub y_end: i32,
}

impl AABBTileIterator {
    /// Nothing is left to visit.
    pub open spec fn done(self) -> bool {
        self.y >= self.y_end
    }

    /// The cursor stands on a tile of the rectangle, or nothing is left.
    pub open spec fn wf(self) -> bool {
        self.done() || self.x_start <= self.x < self.x_end
    }

    /// The state after the tile under the cursor has been visited.
    pub open spec fn advanced(self) -> AABBTileIterator {
        if self.x + 1 >= self.x_end {
            AABBTileIterator { x: self.x_start, y: (self.y + 1) as i32, ..self }
        } else {
            AABBTileIterator { x: (self.x + 1) as i32, ..self }
        }
    }

    /// The tiles still to be visited, in the order of the visit.
    pub open spec fn remaining(self) -> Seq<TilePosition>
        decreases self.y_end - self.y, self.x_end - self.x,
    {
        if self.done() || !self.wf() {
            Seq::empty()
        } else {
            seq![TilePosition { x: self.x, y: self.y }] + self.advanced().remaining()
        }
    }

    /// `t` lies in the part of the rectangle that is still to be visited.
    pub open spec fn ahead(self, t: TilePosition) -> bool {
        &&& self.x_start <= t.x < self.x_end
        &&& self.y <= t.y < self.y_end
        &&& (t.y == self.y ==> self.x <= t.x)
    }

    /// The walk over the tiles with `x_start <= x < x_end` and
    /// `y_start <= y < y_end`.
    pub fn new(x_start: i32, y_start: i32, x_end: i32, y_end: i32) -> (it: AABBTileIterator)
        ensures
            it.wf(),
            it.x_start == x_start,
            it.x_end == x_end,
            it.y_end == y_end,
            it.x == x_start,
            x_start < x_end ==> it.y == y_start,
            x_start >= x_end ==> it.done(),
            forall|t: TilePosition|
                it.remaining().contains(t) <==> x_start <= t.x < x_end && y_start <= t.y < y_end,
    {
        let it = if x_start < x_end {
            AABBTileIterator { x_start, x: x_start, y: y_start, x_end, y_end }
        } else {
            AABBTileIterator { x_start, x: x_start, y: y_end, x_end, y_end }
        };
        proof {
            assert forall|t: TilePosition|
                it.remaining().contains(t) <==> x_start <= t.x < x_end && y_start <= t.y
                    < y_end by {
                lemma_remaining_is_ahead(it, t);
            }
        }
        it
    }

    /// The next tile of the walk, or `None` when every tile was visited.
    pub fn next(&mut self) -> (r: Option<TilePosition>)
        requires
            old(self).wf(),
        ensures
            final(self).wf(),
            match r {
                Some(t) => {
                    &&& !old(self).done()
                    &&& t == (TilePosition { x: old(self).x, y: old(self).y })
                    &&& *final(self) == old(self).advanced()
                    &&& old(self).remaining() == seq![t] + final(self).remaining()
                },
                None => old(self).done() && *final(self) == *old(self) && old(self).remaining()
                    == Seq::<TilePosition>::empty(),
            },
    {
        if self.y >= self.y_end {
            return None;
        }
        let tile = TilePosition { x: self.x, y: self.y };
        if self.x + 1 >= self.x_end {
            self.y = self.y + 1;
            self.x = self.x_start;
        } else {
            self.x = self.x + 1;
        }
        Some(tile)
    }
}

/// The walk visits exactly the tiles of the rectangle that lie ahead of the
/// cursor.
pub proof fn lemma_remaining_is_ahead(it: AABBTileIterator, t: TilePosition)
    requires
        it.wf(),
    ensures
        it.remaining().contains(t) <==> it.ahead(t),
    decreases it.y_end - it.y, it.x_end - it.x,
{
    if it.done() {
    } else {
        let head = TilePosition { x: it.x, y: it.y };
        let rest = it.advanced().remaining();
        lemma_remaining_is_ahead(it.advanced(), t);
        assert(it.remaining() == seq![head] + rest);
        if it.remaining().contains(t) {
            let i = choose|i: int| 0 <= i < it.remaining().len() && it.remaining()[i] == t;
            if i > 0 {
                assert(rest[i - 1] == t);
            }
        }
        if it.ahead(t) {
            if t == head {
                assert(it.remaining()[0] == t);
            } else {
                assert(it.advanced().ahead(t));
                let j = choose|j: int| 0 <= j < rest.len() && rest[j] == t;
                assert(it.remaining()[j + 1] == t);
            }
        }
    }
}

/// The walk is row-major: of two tiles that are visited, the one in the lower
/// row comes first, and inside a row the one in the lower column.
pub proof fn lemma_remaining_row_major(it: AABBTileIterator, i: int, j: int)
    requires
        it.wf(),
        0 <= i < j < it.remaining().len(),
    ensures
        it.remaining()[i].y < it.remaining()[j].y || (it.remaining()[i].y == it.remaining()[j].y
            && it.remaining()[i].x < it.remaining()[j].x),
    decreases it.y_end - it.y, it.x_end - it.x,
{
    let rest = it.advanced().remaining();
    assert(it.remaining() == seq![TilePosition { x: it.x, y: it.y }] + rest);
    if i == 0 {
        assert(rest[j - 1] == it.remaining()[j]);
        assert(rest.contains(rest[j - 1]));
        lemma_remaining_is_ahead(it.advanced(), rest[j - 1]);
    } else {
        lemma_remaining_row_major(it.advanced(), i - 1, j - 1);
    }
}

} // verus!
