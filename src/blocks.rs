//! Block IDs, the block/texture table and the solidity predicates.
use vstd::prelude::*;

verus! {

/// Side length of a chunk, in voxels.
pub const CHUNK_SIZE: u32 = 32;

/// Number of entries of the block/texture table.
pub const BLOCK_TYPES: u32 = 9;

/// The empty block: the all-zero word.
pub const BLOCK_EMPTY: u32 = 0;

/// The water block (non-solid, type 6); its texture is also the water texture.
pub const BLOCK_WATER: u32 = 6;

/// The texture ID that routes a face into the water stream.
pub const WATER_TEXTURE: u32 = 6;

/// True iff the solidity flag (the high bit) of a block ID is set.
pub open spec fn spec_is_solid(block: u32) -> bool {
    block >= 0x8000_0000
}

/// The solidity flag as a number, 1 for a solid block and 0 otherwise.
pub open spec fn solid_bit(block: u32) -> u32 {
    if spec_is_solid(block) { 1 } else { 0 }
}

/// The numeric block type: the low 31 bits of a block ID.
pub open spec fn block_type(id: u32) -> u32 {
    (id % 0x8000_0000) as u32
}

/// The texture table, indexed by block type, in the face order
/// `UP, FRONT, LEFT, BACK, RIGHT, DOWN`.
pub open spec fn texture_of(block_type: u32, slot: u32) -> u32 {
    if block_type == 2 {
        if slot == 0 { 3 } else if slot == 5 { 1 } else { 2 }
    } else if block_type == 8 {
        if slot == 0 || slot == 5 { 0 } else { 8 }
    } else if block_type < 8 {
        block_type
    } else {
        0
    }
}

/// Whether a block is an opaque occluder.
pub fn is_solid(block: u32) -> (r: bool)
    ensures
        r == spec_is_solid(block),
{
    let r = (block >> 31 & 1) != 0;
    assert(((block >> 31 & 1) != 0) == (block >= 0x8000_0000)) by (bit_vector);
    r
}

/// The solidity flag of a block as 0 or 1, for summing neighbours.
pub fn is_solid_int(block: u32) -> (r: u32)
    ensures
        r == solid_bit(block),
{
    let r = block >> 31 & 1;
    assert((block >> 31 & 1) == (if block >= 0x8000_0000 { 1u32 } else { 0u32 })) by (bit_vector);
    r
}

/// The block type of a block ID, without its solidity flag.
pub fn decode_block_id(id: u32) -> (r: u32)
    ensures
        r == block_type(id),
{
    let r = id & 0x7FFF_FFFF;
    assert((id & 0x7FFF_FFFF) == id % 0x8000_0000) by (bit_vector);
    r
}

/// The six face textures of a block type, in the order `UP, FRONT, LEFT, BACK, RIGHT, DOWN`.
pub fn block_textures(block_type: u32) -> (r: [u32; 6])
    requires
        block_type < BLOCK_TYPES,
    ensures
        forall|s: int| 0 <= s < 6 ==> #[trigger] r[s] == texture_of(block_type, s as u32),
{
    if block_type == 2 {
        [3, 2, 2, 2, 2, 1]
    } else if block_type == 8 {
        [0, 8, 8, 8, 8, 0]
    } else {
        [block_type, block_type, block_type, block_type, block_type, block_type]
    }
}

} // verus!
