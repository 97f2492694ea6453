//! Tile, chunk and world coordinates.

use vstd::prelude::*;
use vstd::arithmetic::power2::pow2;
use crate::names::WorldId;

verus! {

/// Edge length of a chunk, in tiles.
pub const CHUNK_SIZE: i32 = 32;

/// Number of tiles in one chunk layer.
pub const CHUNK_AREA: usize = 1024;

/// Coordinates of a chunk inside a world.
#[derive(Copy, Clone, Debug, Hash, PartialEq, Eq, Structural)]
pub struct ChunkPosition {
    pub x: i16,
    pub y: i16,
}

/// Coordinates of a tile inside its chunk.
#[derive(Copy, Clone, Debug, Hash, PartialEq, Eq, Structural)]
pub struct ChunkOffset {
    pub x: u8,
    pub y: u8,
}

/// Coordinates of a tile inside a world.
#[derive(Copy, Clone, Debug, PartialEq, Eq, Structural)]
pub struct TilePosition {
    pub x: i32,
    pub y: i32,
}

/// The value of `v` reduced into the range of a signed 16-bit integer.
pub open spec fn wrap_i16(v: int) -> int {
    (v + 32768) % 65536 - 32768
}

/// Chunk coordinate of the tile coordinate `t` along one axis: the floor of
/// `t / 32`, reduced into 16 bits.
pub open spec fn chunk_coord(t: int) -> int {
    wrap_i16(t / 32)
}

/// Offset of the tile coordinate `t` inside its chunk along one axis.
pub open spec fn chunk_offset(t: int) -> int {
    t % 32
}

/// Tile coordinates whose chunk coordinate is not affected by the reduction
/// to 16 bits.
pub open spec fn tile_in_range(t: int) -> bool {
    -1048576 <= t < 1048576
}

impl ChunkOffset {
    /// Both coordinates lie inside a chunk.
    pub open spec fn wf(self) -> bool {
        self.x < 32 && self.y < 32
    }

    pub open spec fn spec_index(self) -> int {
        self.x + 32 * self.y
    }

    /// Row-major index of the offset in a chunk layer.
    pub fn index(&self) -> (r: usize)
        ensures
            r == self.spec_index(),
            self.wf() ==> r < CHUNK_AREA,
    {
        self.x as usize + (self.y as usize * 32)
    }
}

fn split_axis(t: i32) -> (r: (i16, u8))
    ensures
        r.0 == chunk_coord(t as int),
        r.1 == chunk_offset(t as int),
{
    let biased: u32 = (t as i64 + 2147483648) as u32;
    let quotient: u32 = biased / 32;
    let low: u32 = quotient % 65536;
    assert(t as int / 32 == quotient as int - 67108864);
    assert(t as int % 32 == biased as int % 32);
    let coord: i16 = if low >= 32768 {
        (low as i32 - 65536) as i16
    } else {
        low as i16
    };
    (coord, (biased % 32) as u8)
}

impl TilePosition {
    pub open spec fn spec_chunk(self) -> ChunkPosition {
        ChunkPosition { x: chunk_coord(self.x as int) as i16, y: chunk_coord(self.y as int) as i16 }
    }

    pub open spec fn spec_offset(self) -> ChunkOffset {
        ChunkOffset { x: chunk_offset(self.x as int) as u8, y: chunk_offset(self.y as int) as u8 }
    }

    /// Splits the tile position into the chunk that holds it and the offset
    /// inside that chunk.
    pub fn to_chunk_position(self) -> (r: (ChunkPosition, ChunkOffset))
        ensures
            r.0 == self.spec_chunk(),
            r.1 == self.spec_offset(),
            r.1.wf(),
            r.0.x == chunk_coord(self.x as int),
            r.0.y == chunk_coord(self.y as int),
            r.1.x == chunk_offset(self.x as int),
            r.1.y == chunk_offset(self.y as int),
    {
        let (cx, ox) = split_axis(self.x);
        let (cy, oy) = split_axis(self.y);
        (ChunkPosition { x: cx, y: cy }, ChunkOffset { x: ox, y: oy })
    }
}

/// Edge length, in tiles, of the blocks in which a map file stores an
/// unbounded layer.
pub const MAP_BLOCK: i32 = 16;

impl TilePosition {
    /// The tile at the place (`x`, `y`) of the block of a map that starts at
    /// the tile (`block_x`, `block_y`), if the world has a tile there.
    pub fn in_block(block_x: i32, block_y: i32, x: u32, y: u32) -> (r: Option<TilePosition>)
        ensures
            r is Some <==> i32::MIN <= block_x + x <= i32::MAX && i32::MIN <= block_y + y
                <= i32::MAX,
            r is Some ==> r->0.x == block_x + x && r->0.y == block_y + y,
    {
        let tx: i64 = block_x as i64 + x as i64;
        let ty: i64 = block_y as i64 + y as i64;
        if -2147483648 <= tx && tx <= 2147483647 && -2147483648 <= ty && ty <= 2147483647 {
            Some(TilePosition { x: tx as i32, y: ty as i32 })
        } else {
            None
        }
    }
}

/// A tile coordinate is recovered from its chunk coordinate and offset:
/// `t == chunk_coord(t) * 32 + chunk_offset(t)` for every tile coordinate
/// whose chunk fits in 16 bits.
pub proof fn lemma_chunk_round_trip(t: int)
    requires
        tile_in_range(t),
    ensures
        t == chunk_coord(t) * 32 + chunk_offset(t),
        -32768 <= chunk_coord(t) < 32768,
        0 <= chunk_offset(t) < 32,
{
}

/// Two tile coordinates in range share a chunk coordinate exactly when they
/// share the floor of their division by the chunk size.
pub proof fn lemma_chunk_coord_is_floor(t: int)
    requires
        tile_in_range(t),
    ensures
        chunk_coord(t) == t / 32,
{
}

/// A pair of coordinates, each held as the bit pattern of an IEEE 754
/// binary64 number.
#[derive(Copy, Clone, Debug, PartialEq, Eq, Structural)]
pub struct Vec2 {
    pub x: u64,
    pub y: u64,
}

/// A point in a world. The coordinates are held as the bit patterns of IEEE
/// 754 binary64 numbers.
#[derive(Copy, Clone, Debug, PartialEq, Eq, Structural)]
pub struct Position {
    pub x: u64,
    pub y: u64,
    pub world: WorldId,
}

/// The floor of the binary64 number with bit pattern `bits`: the greatest
/// integer that is not above the number. It is zero for a number that is not
/// a number, and the nearest bound for a number outside the 32-bit signed
/// range.
pub open spec fn floored(bits: u64) -> int {
    let exponent = (bits >> 52) & 0x7ff;
    let fraction = bits & 0xf_ffff_ffff_ffff;
    let negative = (bits >> 63) == 1;
    if exponent == 0x7ff && fraction != 0 {
        0
    } else if exponent < 1023 {
        if negative && (exponent != 0 || fraction != 0) {
            -1
        } else {
            0
        }
    } else if exponent >= 1054 {
        if negative {
            -2147483648
        } else {
            2147483647
        }
    } else {
        let shift = (1075 - exponent) as u64;
        let significand = fraction | 0x10_0000_0000_0000;
        let whole = significand >> shift;
        if !negative {
            whole as int
        } else if (whole << shift) == significand {
            -(whole as int)
        } else {
            -(whole as int) - 1
        }
    }
}

/// The floor of a number fits in 32 bits.
pub proof fn lemma_floored_range(bits: u64)
    ensures
        -2147483648 <= floored(bits) <= 2147483647,
{
    let exponent = (bits >> 52) & 0x7ff;
    let fraction = bits & 0xf_ffff_ffff_ffff;
    if 1023 <= exponent < 1054 {
        let shift = (1075 - exponent) as u64;
        let whole = (fraction | 0x10_0000_0000_0000) >> shift;
        assert(whole < 0x8000_0000) by (bit_vector)
            requires
                22 <= shift <= 52,
                fraction == bits & 0xf_ffff_ffff_ffff,
                whole == (fraction | 0x10_0000_0000_0000) >> shift,
        ;
    }
}

/// The significand of the binary64 number with bit pattern `bits`: its
/// fraction, with the hidden bit in front unless the number is subnormal.
pub open spec fn significand(bits: u64) -> int {
    if (bits >> 52) & 0x7ff == 0 {
        (bits & 0xf_ffff_ffff_ffff) as int
    } else {
        ((bits & 0xf_ffff_ffff_ffff) | 0x10_0000_0000_0000) as int
    }
}

/// The power of two by which the significand of the binary64 number with
/// bit pattern `bits` is divided to give the magnitude of the number, for a
/// number of a magnitude below 2^53.
pub open spec fn divisor(bits: u64) -> int {
    let exponent = (bits >> 52) & 0x7ff;
    if exponent == 0 {
        pow2(1074) as int
    } else {
        pow2((1075 - exponent) as nat) as int
    }
}

/// The floor is the greatest integer that is not above the number: for every
/// number of a magnitude below 2^31, which is its significand divided by a
/// power of two and taken with its sign, the floor times that power is not
/// above the signed significand, and the next integer times that power is.
pub proof fn lemma_floored_is_greatest_below(bits: u64)
    requires
        (bits >> 52) & 0x7ff < 1054,
    ensures
        ({
            let number = if (bits >> 63) == 1 {
                -significand(bits)
            } else {
                significand(bits)
            };
            floored(bits) * divisor(bits) <= number < (floored(bits) + 1) * divisor(bits)
        }),
{
    let exponent = (bits >> 52) & 0x7ff;
    let fraction = bits & 0xf_ffff_ffff_ffff;
    let scale = divisor(bits);
    if exponent >= 1023 {
        let shift = (1075 - exponent) as u64;
        let hidden = fraction | 0x10_0000_0000_0000;
        let whole = hidden >> shift;
        vstd::arithmetic::power2::lemma_pow2_pos(shift as nat);
        vstd::bits::lemma_u64_shr_is_div(hidden, shift);
        vstd::arithmetic::div_mod::lemma_fundamental_div_mod(hidden as int, scale);
        vstd::arithmetic::div_mod::lemma_mod_pos_bound(hidden as int, scale);
        let rest = (hidden as int) % scale;
        assert(scale * whole == whole * scale) by (nonlinear_arith);
        assert(hidden == whole * scale + rest);
        vstd::bits::lemma_u64_shl_is_mul(whole, shift);
        assert((whole << shift) == whole * scale);
        assert((whole + 1) * scale == whole * scale + scale) by (nonlinear_arith);
        assert((-(whole as int)) * scale == -(whole * scale)) by (nonlinear_arith);
        assert((-(whole as int) - 1) * scale == -(whole * scale) - scale) by (nonlinear_arith);
        assert((-(whole as int) + 1) * scale == -(whole * scale) + scale) by (nonlinear_arith);
    } else {
        let shift: nat = if exponent == 0 {
            1074
        } else {
            (1075 - exponent) as nat
        };
        vstd::arithmetic::power2::lemma2_to64_rest();
        if shift > 53 {
            vstd::arithmetic::power2::lemma_pow2_strictly_increases(53, shift);
        }
        assert(fraction < 0x10_0000_0000_0000 && (fraction | 0x10_0000_0000_0000)
            < 0x20_0000_0000_0000 && (fraction | 0x10_0000_0000_0000) > 0) by (bit_vector)
            requires
                fraction == bits & 0xf_ffff_ffff_ffff,
        ;
        assert(0 <= significand(bits) < scale);
        assert(0 * scale == 0 && 1 * scale == scale && (-1) * scale == -scale
            && (-1 + 1) * scale == 0) by (nonlinear_arith);
    }
}

/// The floor of the binary64 number with bit pattern `bits`.
pub fn floor(bits: u64) -> (r: i32)
    ensures
        r == floored(bits),
{
    let exponent: u64 = (bits >> 52) & 0x7ff;
    let fraction: u64 = bits & 0xf_ffff_ffff_ffff;
    let negative: bool = (bits >> 63) == 1;
    if exponent == 0x7ff && fraction != 0 {
        0
    } else if exponent < 1023 {
        if negative && (exponent != 0 || fraction != 0) {
            -1
        } else {
            0
        }
    } else if exponent >= 1054 {
        if negative {
            -2147483648
        } else {
            2147483647
        }
    } else {
        let shift: u64 = 1075 - exponent;
        let significand: u64 = fraction | 0x10_0000_0000_0000;
        let whole: u64 = significand >> shift;
        assert(whole < 0x8000_0000) by (bit_vector)
            requires
                22 <= shift <= 52,
                fraction == bits & 0xf_ffff_ffff_ffff,
                whole == (fraction | 0x10_0000_0000_0000) >> shift,
        ;
        assert(whole << shift <= 0xffff_ffff_ffff_ffff) by (bit_vector);
        if !negative {
            whole as i32
        } else if (whole << shift) == significand {
            -(whole as i32)
        } else {
            -(whole as i32) - 1
        }
    }
}

impl Position {
    pub open spec fn spec_tile(self) -> TilePosition {
        TilePosition { x: floored(self.x) as i32, y: floored(self.y) as i32 }
    }

    /// The chunk that holds the point.
    pub open spec fn spec_chunk(self) -> ChunkPosition {
        self.spec_tile().spec_chunk()
    }

    /// The tile under the point.
    pub fn align_to_tile(&self) -> (r: TilePosition)
        ensures
            r == self.spec_tile(),
            r.x == floored(self.x),
            r.y == floored(self.y),
    {
        TilePosition { x: floor(self.x), y: floor(self.y) }
    }

    /// The chunk that holds the point.
    pub fn chunk(&self) -> (r: ChunkPosition)
        ensures
            r == self.spec_chunk(),
    {
        self.align_to_tile().to_chunk_position().0
    }

    /// The coordinates without the world.
    pub fn coordinates(&self) -> (r: Vec2)
        ensures
            r == (Vec2 { x: self.x, y: self.y }),
    {
        Vec2 { x: self.x, y: self.y }
    }
}

} // verus!
