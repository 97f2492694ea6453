//! The window of chunks around a camera: the square of the chunks that are
//! at most four chunks away from the camera's chunk along both axes. Chunk
//! coordinates are 16-bit, so the window around a camera near the edge of the
//! coordinate range is cut off at the edge.

use vstd::prelude::*;
use crate::pos::{wrap_i16, ChunkPosition};
use crate::session::WINDOW_AREA;
use crate::world::ChunkRef;

verus! {

/// Along one axis, `coord` is at most four chunks away from `centre`.
pub open spec fn near(centre: int, coord: int) -> bool {
    -4 <= coord - centre <= 4
}

/// The chunk `r` lies in the window around `loaded`: in the same world and,
/// along both axes, at most four chunks away.
pub open spec fn in_view(loaded: Option<ChunkRef>, r: ChunkRef) -> bool {
    &&& loaded is Some
    &&& loaded->0.world == r.world
    &&& near(loaded->0.position.x as int, r.position.x as int)
    &&& near(loaded->0.position.y as int, r.position.y as int)
}

/// The coordinate `d` chunks from `centre`; beyond the edge of the
/// coordinate range, a coordinate that is not near the centre.
pub open spec fn shifted(centre: i16, d: int) -> i16 {
    wrap_i16(centre + d) as i16
}

/// The `j`-th place of the walk of the square around `centre`: the square is
/// walked column by column, from the lowest coordinates up. The place is a
/// chunk of the window if it lies in view of the centre; a place beyond the
/// edge of the coordinate range does not.
pub open spec fn window_at(centre: ChunkRef, j: int) -> ChunkRef {
    ChunkRef {
        world: centre.world,
        position: ChunkPosition {
            x: shifted(centre.position.x, j / 9 - 4),
            y: shifted(centre.position.y, j % 9 - 4),
        },
    }
}

/// How far `coord` is from `centre` along one axis.
pub open spec fn distance(centre: int, coord: int) -> int {
    coord - centre
}

/// The place in the walk of the window around `centre` at which `r` comes.
pub open spec fn window_index(centre: ChunkRef, r: ChunkRef) -> int {
    (distance(centre.position.x as int, r.position.x as int) + 4) * 9 + distance(
        centre.position.y as int,
        r.position.y as int,
    ) + 4
}

fn shift(centre: i16, d: i16) -> (r: Option<i16>)
    requires
        -4 <= d <= 4,
    ensures
        match r {
            Some(coord) => coord == shifted(centre, d as int) && coord == centre + d,
            None => !near(centre as int, shifted(centre, d as int) as int),
        },
{
    let v: i32 = centre as i32 + d as i32;
    if v > 32767 || v < -32768 {
        None
    } else {
        Some(v as i16)
    }
}

fn is_near(centre: i16, coord: i16) -> (r: bool)
    ensures
        r == near(centre as int, coord as int),
{
    let d: i32 = coord as i32 - centre as i32;
    -4 <= d && d <= 4
}

/// The chunk at the `j`-th place of the walk of the square around `centre`,
/// if the place is a chunk of the window.
pub fn window_chunk(centre: ChunkRef, j: usize) -> (r: Option<ChunkRef>)
    requires
        j < WINDOW_AREA,
    ensures
        match r {
            Some(q) => q == window_at(centre, j as int) && in_view(Some(centre), q)
                && window_index(centre, q) == j,
            None => !in_view(Some(centre), window_at(centre, j as int)),
        },
{
    let dx: i16 = (j / 9) as i16 - 4;
    let dy: i16 = (j % 9) as i16 - 4;
    match (shift(centre.position.x, dx), shift(centre.position.y, dy)) {
        (Some(x), Some(y)) => Some(
            ChunkRef { world: centre.world, position: ChunkPosition { x, y } },
        ),
        _ => None,
    }
}

/// Whether the chunk `r` lies in the window around `loaded`.
pub fn sees(loaded: Option<ChunkRef>, r: ChunkRef) -> (b: bool)
    ensures
        b == in_view(loaded, r),
{
    match loaded {
        Some(centre) => centre.world == r.world && is_near(centre.position.x, r.position.x)
            && is_near(centre.position.y, r.position.y),
        None => false,
    }
}

/// The walk of the window reaches every chunk in view, each at its place.
pub proof fn lemma_window_covers(centre: ChunkRef, r: ChunkRef)
    requires
        in_view(Some(centre), r),
    ensures
        0 <= window_index(centre, r) < WINDOW_AREA,
        window_at(centre, window_index(centre, r)) == r,
{
    let dx = distance(centre.position.x as int, r.position.x as int);
    let dy = distance(centre.position.y as int, r.position.y as int);
    let j = window_index(centre, r);
    assert(j == (dx + 4) * 9 + (dy + 4));
    assert(j / 9 == dx + 4 && j % 9 == dy + 4);
}

/// The walk reaches no chunk of the window twice: a place of the walk that
/// lies in view is the place of its chunk.
pub proof fn lemma_window_at(centre: ChunkRef, j: int)
    requires
        0 <= j < WINDOW_AREA,
        in_view(Some(centre), window_at(centre, j)),
    ensures
        window_index(centre, window_at(centre, j)) == j,
{
    let dx = j / 9 - 4;
    let dy = j % 9 - 4;
    lemma_shifted(centre.position.x, dx);
    lemma_shifted(centre.position.y, dy);
    assert((dx + 4) * 9 + dy + 4 == j);
}

proof fn lemma_shifted(centre: i16, d: int)
    requires
        -4 <= d <= 4,
    ensures
        near(centre as int, shifted(centre, d) as int) <==> -32768 <= centre + d <= 32767,
        near(centre as int, shifted(centre, d) as int) ==> shifted(centre, d) == centre + d,
{
    let v = centre + d;
    if v > 32767 {
        assert(wrap_i16(v) == v - 65536);
    } else if v < -32768 {
        assert(wrap_i16(v) == v + 65536);
    } else {
        assert(wrap_i16(v) == v);
    }
}

/// The chunks in view are the chunks of the walk.
pub proof fn lemma_in_view_is_window(centre: ChunkRef, r: ChunkRef)
    ensures
        in_view(Some(centre), r) <==> exists|j: int|
            0 <= j < WINDOW_AREA && window_at(centre, j) == r && in_view(
                Some(centre),
                window_at(centre, j),
            ),
{
    if in_view(Some(centre), r) {
        lemma_window_covers(centre, r);
    }
}

/// The positions of the chunks of the window around `centre` among the first
/// `n` places of the walk, in the order of the walk.
pub open spec fn window_positions(centre: ChunkRef, n: nat) -> Seq<ChunkPosition>
    decreases n,
{
    if n == 0 {
        Seq::empty()
    } else {
        let rest = window_positions(centre, (n - 1) as nat);
        let q = window_at(centre, n - 1);
        if in_view(Some(centre), q) {
            rest.push(q.position)
        } else {
            rest
        }
    }
}

} // verus!
