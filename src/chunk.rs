//! The chunk model, face visibility and the ambient-occlusion sampler.
use vstd::prelude::*;
use crate::array3d::Array3D;
use crate::blocks::{
    BLOCK_EMPTY, BLOCK_WATER, BLOCK_TYPES, CHUNK_SIZE, block_textures, block_type, decode_block_id,
    is_solid, is_solid_int, solid_bit, spec_is_solid, texture_of,
};
use crate::direction::{DIRECTION_UP, DirXY, rot_ccw};
use crate::encoder::{corner_ao, texture};
use vstd::arithmetic::div_mod::lemma_fundamental_div_mod_converse;

verus! {

/// Number of cells in one haloed plane.
pub const PLANE_SIZE_E: u32 = 1156;

/// Number of cells in a haloed chunk.
pub const CHUNK_CELLS_E: u32 = 39304;

/// The block at haloed coordinates `(h, x, y)`; the interior is `1..=S` on each axis.
pub open spec fn block(c: Seq<u32>, h: int, x: int, y: int) -> u32 {
    c[h * 1156 + y * 34 + x]
}

/// A haloed chunk: `(S + 2)^3` cells, planes of `S + 2` rows of `S + 2` cells.
pub open spec fn is_chunk(a: &Array3D) -> bool {
    &&& a.wf()
    &&& a.plane_size == PLANE_SIZE_E
    &&& a.sy == 34
    &&& a@.len() == CHUNK_CELLS_E
}

/// An interior coordinate.
pub open spec fn interior(v: int) -> bool {
    1 <= v <= CHUNK_SIZE
}

/// Every interior block has a type of the texture table.
pub open spec fn known_blocks(c: Seq<u32>) -> bool {
    forall|h: int, x: int, y: int|
        interior(h) && interior(x) && interior(y) ==> block_type(#[trigger] block(c, h, x, y)) < BLOCK_TYPES
}

/// The cell that an in-plane vector `d` reaches from `(h, x, y)` in the layer
/// adjacent to the face of direction `dir`, as `(h, x, y)`.
pub open spec fn sample_pos(dir: u32, h: int, x: int, y: int, d: (int, int)) -> (int, int, int) {
    if dir == 0 {
        (h + 1, x + d.0, y + d.1)
    } else if dir == 5 {
        (h - 1, x + d.0, y - d.1)
    } else if dir == 1 {
        (h + d.1, x + d.0, y - 1)
    } else if dir == 2 {
        (h + d.1, x - 1, y - d.0)
    } else if dir == 3 {
        (h + d.1, x - d.0, y + 1)
    } else {
        (h + d.1, x + 1, y + d.0)
    }
}

/// 1 if the sampled cell is solid, else 0.
pub open spec fn solid_sample(c: Seq<u32>, dir: u32, h: int, x: int, y: int, d: (int, int)) -> int {
    let p = sample_pos(dir, h, x, y, d);
    solid_bit(block(c, p.0, p.1, p.2)) as int
}

/// A vector turned `n` times by 90 degrees counter-clockwise.
pub open spec fn rot_n(p: (int, int), n: nat) -> (int, int)
    decreases n,
{
    if n == 0 {
        p
    } else {
        rot_ccw(rot_n(p, (n - 1) as nat))
    }
}

/// The AO value of a corner from its two edge neighbours and its diagonal.
pub open spec fn corner_value(s0: int, s1: int, diag: int) -> int {
    if s0 + s1 == 2 { 3 } else { s0 + s1 + diag }
}

/// The AO value of corner `v` of the face of direction `dir` of voxel `(h, x, y)`.
pub open spec fn ao_corner(c: Seq<u32>, dir: u32, h: int, x: int, y: int, v: nat) -> int {
    corner_value(
        solid_sample(c, dir, h, x, y, rot_n((-1, 0), v)),
        solid_sample(c, dir, h, x, y, rot_n((0, -1), v)),
        solid_sample(c, dir, h, x, y, rot_n((-1, -1), v)),
    )
}

pub open spec fn pow4(v: nat) -> int {
    if v == 0 { 1 } else if v == 1 { 4 } else if v == 2 { 16 } else { 64 }
}

/// The AO values of corners `0 .. n`, two bits each, lowest corner first.
pub open spec fn shadows_upto(c: Seq<u32>, dir: u32, h: int, x: int, y: int, n: nat) -> int
    decreases n,
{
    if n == 0 {
        0
    } else {
        shadows_upto(c, dir, h, x, y, (n - 1) as nat) + ao_corner(c, dir, h, x, y, (n - 1) as nat) * pow4(
            (n - 1) as nat,
        )
    }
}

/// The packed AO byte of a face.
pub open spec fn shadows(c: Seq<u32>, dir: u32, h: int, x: int, y: int) -> int {
    shadows_upto(c, dir, h, x, y, 4)
}

/// The neighbour of voxel `(h, x, y)` in direction `dir`.
pub open spec fn neighbor(c: Seq<u32>, dir: u32, h: int, x: int, y: int) -> u32 {
    if dir == 0 {
        block(c, h + 1, x, y)
    } else if dir == 5 {
        block(c, h - 1, x, y)
    } else if dir == 1 {
        block(c, h, x, y - 1)
    } else if dir == 2 {
        block(c, h, x - 1, y)
    } else if dir == 3 {
        block(c, h, x, y + 1)
    } else {
        block(c, h, x + 1, y)
    }
}

/// A face of direction `dir` is drawn for voxel `(h, x, y)` iff the voxel is not
/// empty, its neighbour there is not solid, and: for `UP`, not water under
/// water; for the other directions, the voxel is not water.
pub open spec fn face_visible(c: Seq<u32>, dir: u32, h: int, x: int, y: int) -> bool {
    let b = block(c, h, x, y);
    let n = neighbor(c, dir, h, x, y);
    &&& b != BLOCK_EMPTY
    &&& !spec_is_solid(n)
    &&& if dir == DIRECTION_UP {
        !(b == BLOCK_WATER && n == BLOCK_WATER)
    } else {
        b != BLOCK_WATER
    }
}

/// The payload of that face: its texture over the AO byte; water tops have no AO.
pub open spec fn face_payload(c: Seq<u32>, dir: u32, h: int, x: int, y: int) -> u32 {
    let b = block(c, h, x, y);
    let ao = if dir == DIRECTION_UP && b == BLOCK_WATER { 0 } else { shadows(c, dir, h, x, y) };
    (texture_of(block_type(b), dir) * 256 + ao) as u32
}

/// An interior voxel, a direction and a chunk on which it can be meshed.
pub open spec fn voxel_ok(chunk: &Array3D, dir: u32, h: u32, x: u32, y: u32) -> bool {
    &&& is_chunk(chunk)
    &&& known_blocks(chunk@)
    &&& dir < 6
    &&& interior(h as int)
    &&& interior(x as int)
    &&& interior(y as int)
}

proof fn lemma_or_shift(acc: u32, val: u32, v: u32)
    by (bit_vector)
    requires
        v < 4,
        val <= 3,
        acc < (1u32 << (v * 2)),
    ensures
        acc | (val << (v * 2)) == acc + val * (1u32 << (v * 2)),
        acc + val * (1u32 << (v * 2)) < (1u32 << ((v + 1) * 2)),
{
}

proof fn lemma_pow4(v: u32)
    requires
        v < 4,
    ensures
        (1u32 << (v * 2)) == pow4(v as nat),
        (1u32 << ((v + 1) * 2)) == 4 * pow4(v as nat),
{
    if v == 0 {
        assert((1u32 << (0u32 * 2)) == 1 && (1u32 << (1u32 * 2)) == 4) by (bit_vector);
    } else if v == 1 {
        assert((1u32 << (1u32 * 2)) == 4 && (1u32 << (2u32 * 2)) == 16) by (bit_vector);
    } else if v == 2 {
        assert((1u32 << (2u32 * 2)) == 16 && (1u32 << (3u32 * 2)) == 64) by (bit_vector);
    } else {
        assert((1u32 << (3u32 * 2)) == 64 && (1u32 << (4u32 * 2)) == 256) by (bit_vector);
    }
}

/// 1 if the cell that `d` reaches in the layer adjacent to the face is solid, else 0.
fn sample_solid(chunk: &Array3D, dir: u32, h: u32, x: u32, y: u32, d: &DirXY) -> (r: u32)
    requires
        voxel_ok(chunk, dir, h, x, y),
        -1 <= d.x <= 1,
        -1 <= d.y <= 1,
    ensures
        r == solid_sample(chunk@, dir, h as int, x as int, y as int, d@),
{
    let hi = h as i32;
    let xi = x as i32;
    let yi = y as i32;
    let (ph, px, py): (i32, i32, i32) = if dir == 0 {
        (hi + 1, xi + d.x, yi + d.y)
    } else if dir == 5 {
        (hi - 1, xi + d.x, yi - d.y)
    } else if dir == 1 {
        (hi + d.y, xi + d.x, yi - 1)
    } else if dir == 2 {
        (hi + d.y, xi - 1, yi - d.x)
    } else if dir == 3 {
        (hi + d.y, xi - d.x, yi + 1)
    } else {
        (hi + d.y, xi + 1, yi + d.x)
    };
    is_solid_int(chunk.get_hxy(ph as u32, px as u32, py as u32))
}

/// The packed AO byte of the face of direction `dir` of voxel `(h, x, y)`: for
/// each corner, the two edge neighbours and the diagonal in the adjacent layer,
/// with the sampling vectors turned a quarter for each next corner.
pub fn face_shadows(chunk: &Array3D, dir: u32, h: u32, x: u32, y: u32) -> (r: u32)
    requires
        voxel_ok(chunk, dir, h, x, y),
    ensures
        r == shadows(chunk@, dir, h as int, x as int, y as int),
        r < 256,
{
    let mut side_dir0 = DirXY { x: 0, y: 0 };
    let mut side_dir1 = DirXY { x: 0, y: 0 };
    let mut corner_dir = DirXY { x: 0, y: 0 };
    side_dir0.set(-1, 0);
    side_dir1.set(0, -1);
    corner_dir.set(-1, -1);
    let mut shadows: u32 = 0;
    let mut v: u32 = 0;
    while v < 4
        invariant
            voxel_ok(chunk, dir, h, x, y),
            v <= 4,
            side_dir0@ == rot_n((-1, 0), v as nat),
            side_dir1@ == rot_n((0, -1), v as nat),
            corner_dir@ == rot_n((-1, -1), v as nat),
            -1 <= side_dir0.x <= 1 && -1 <= side_dir0.y <= 1,
            -1 <= side_dir1.x <= 1 && -1 <= side_dir1.y <= 1,
            -1 <= corner_dir.x <= 1 && -1 <= corner_dir.y <= 1,
            shadows == shadows_upto(chunk@, dir, h as int, x as int, y as int, v as nat),
            v < 4 ==> shadows < pow4(v as nat),
            v == 4 ==> shadows < 256,
        decreases 4 - v,
    {
        let s0 = sample_solid(chunk, dir, h, x, y, &side_dir0);
        let s1 = sample_solid(chunk, dir, h, x, y, &side_dir1);
        let c = sample_solid(chunk, dir, h, x, y, &corner_dir);
        let value: u32 = if s0 + s1 == 2 { 3 } else { s0 + s1 + c };
        proof {
            lemma_pow4(v);
            lemma_or_shift(shadows, value, v);
        }
        shadows |= value << (v * 2);
        side_dir0.rotate_ccw();
        side_dir1.rotate_ccw();
        corner_dir.rotate_ccw();
        v += 1;
    }
    shadows
}

proof fn lemma_payload_pack(t: u32, ao: u32)
    by (bit_vector)
    requires
        t < 9,
        ao < 256,
    ensures
        (t << 8) | ao == t * 256 + ao,
{
}

/// The payload of the face of direction `dir` of voxel `(h, x, y)`, if that face is drawn.
pub fn visible_face(chunk: &Array3D, dir: u32, h: u32, x: u32, y: u32) -> (r: Option<u32>)
    requires
        voxel_ok(chunk, dir, h, x, y),
    ensures
        r == if face_visible(chunk@, dir, h as int, x as int, y as int) {
            Some(face_payload(chunk@, dir, h as int, x as int, y as int))
        } else {
            None::<u32>
        },
        r matches Some(p) ==> p < 0x2_0000,
{
    let block_id = chunk.get_hxy(h, x, y);
    if block_id == BLOCK_EMPTY {
        return None;
    }
    let is_water = block_id == BLOCK_WATER;
    let n = if dir == 0 {
        chunk.get_hxy(h + 1, x, y)
    } else if dir == 5 {
        chunk.get_hxy(h - 1, x, y)
    } else if dir == 1 {
        chunk.get_hxy(h, x, y - 1)
    } else if dir == 2 {
        chunk.get_hxy(h, x - 1, y)
    } else if dir == 3 {
        chunk.get_hxy(h, x, y + 1)
    } else {
        chunk.get_hxy(h, x + 1, y)
    };
    if is_solid(n) {
        return None;
    }
    if dir == DIRECTION_UP {
        if is_water && n == BLOCK_WATER {
            return None;
        }
    } else if is_water {
        return None;
    }
    assert(block_id == block(chunk@, h as int, x as int, y as int));
    let textures = block_textures(decode_block_id(block_id));
    let shadows = if dir == DIRECTION_UP && is_water { 0 } else { face_shadows(chunk, dir, h, x, y) };
    proof {
        assert(textures[dir as int] < 9);
        lemma_payload_pack(textures[dir as int], shadows);
    }
    Some((textures[dir as usize] << 8) | shadows)
}

/// Every AO value lies in `0..=3`, and a corner whose two edge neighbours are
/// both solid gets `3` whatever its diagonal.
pub proof fn lemma_ao_corner_range(c: Seq<u32>, dir: u32, h: int, x: int, y: int, v: nat)
    ensures
        0 <= ao_corner(c, dir, h, x, y, v) <= 3,
        solid_sample(c, dir, h, x, y, rot_n((-1, 0), v)) == 1 && solid_sample(c, dir, h, x, y, rot_n((0, -1), v))
            == 1 ==> ao_corner(c, dir, h, x, y, v) == 3,
{
}

/// The payload of a drawn face carries the AO value of each of its four
/// corners in two bits, corner 0 lowest; the top of water carries none.
pub proof fn lemma_payload_corners(c: Seq<u32>, dir: u32, h: int, x: int, y: int, m: int)
    requires
        0 <= m < 4,
    ensures
        ({
            let data = face_payload(c, dir, h, x, y);
            let b = block(c, h, x, y);
            &&& texture(data) == texture_of(block_type(b), dir)
            &&& dir == DIRECTION_UP && b == BLOCK_WATER ==> corner_ao(data, m) == 0
            &&& !(dir == DIRECTION_UP && b == BLOCK_WATER) ==> corner_ao(data, m) == ao_corner(c, dir, h, x, y, m as nat)
        }),
{
    let a0 = ao_corner(c, dir, h, x, y, 0);
    let a1 = ao_corner(c, dir, h, x, y, 1);
    let a2 = ao_corner(c, dir, h, x, y, 2);
    let a3 = ao_corner(c, dir, h, x, y, 3);
    lemma_ao_corner_range(c, dir, h, x, y, 0);
    lemma_ao_corner_range(c, dir, h, x, y, 1);
    lemma_ao_corner_range(c, dir, h, x, y, 2);
    lemma_ao_corner_range(c, dir, h, x, y, 3);
    assert(shadows(c, dir, h, x, y) == a0 + 4 * a1 + 16 * a2 + 64 * a3) by {
        reveal_with_fuel(shadows_upto, 5);
    }
    let b = block(c, h, x, y);
    let t = texture_of(block_type(b), dir) as int;
    assert(t <= 8);
    let sh = if dir == DIRECTION_UP && b == BLOCK_WATER { 0 } else { a0 + 4 * a1 + 16 * a2 + 64 * a3 };
    let data = face_payload(c, dir, h, x, y);
    assert(data as int == t * 256 + sh);
    lemma_fundamental_div_mod_converse(data as int, 256, t, sh);
    if !(dir == DIRECTION_UP && b == BLOCK_WATER) {
        lemma_fundamental_div_mod_converse(sh, 4, a1 + 4 * a2 + 16 * a3, a0);
        lemma_fundamental_div_mod_converse(a1 + 4 * a2 + 16 * a3, 4, a2 + 4 * a3, a1);
        lemma_fundamental_div_mod_converse(sh, 16, a2 + 4 * a3, a1 * 4 + a0);
        lemma_fundamental_div_mod_converse(a2 + 4 * a3, 4, a3, a2);
        lemma_fundamental_div_mod_converse(sh, 64, a3, a2 * 16 + a1 * 4 + a0);
    }
}

/// A face payload fits in 17 bits.
pub proof fn lemma_payload_bound(c: Seq<u32>, dir: u32, h: int, x: int, y: int)
    ensures
        face_payload(c, dir, h, x, y) < 0x2_0000,
{
    lemma_ao_corner_range(c, dir, h, x, y, 0);
    lemma_ao_corner_range(c, dir, h, x, y, 1);
    lemma_ao_corner_range(c, dir, h, x, y, 2);
    lemma_ao_corner_range(c, dir, h, x, y, 3);
    reveal_with_fuel(shadows_upto, 5);
}

} // verus!
