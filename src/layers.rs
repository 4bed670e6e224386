//! The layer planes of the greedy pass: how slab faces are laid out in them,
//! how a row's equal payloads merge into runs, and the packed pending cells.
use vstd::prelude::*;
use crate::array3d::Array3D;
use crate::blocks::CHUNK_SIZE;
use crate::chunk::{
    face_payload, face_visible, interior, is_chunk, known_blocks, lemma_payload_bound, visible_face,
    voxel_ok,
};
use crate::direction::{DIRECTION_DOWN, DIRECTION_UP};

verus! {

/// A layer-plane cell: payload `(texture << 8) | ao` in bits 0..17, the width
/// of its run in bits 17..25 and its accumulated height in bits 25.., or zero.
pub open spec fn cell_payload(v: u32) -> int {
    v as int % 0x2_0000
}

pub open spec fn cell_width(v: u32) -> int {
    (v as int / 0x2_0000) % 256
}

pub open spec fn cell_height(v: u32) -> int {
    v as int / 0x200_0000
}

/// A pending rectangle starting at column `col` whose height is at most `max_h`.
pub open spec fn pending_ok(v: u32, col: int, max_h: int) -> bool {
    v == 0 || {
        &&& 1 <= cell_width(v)
        &&& col + cell_width(v) <= CHUNK_SIZE
        &&& 1 <= cell_height(v) <= max_h
        &&& cell_height(v) <= CHUNK_SIZE
    }
}

/// The length of the run of cells equal to `row[i]` that starts at `i`.
pub open spec fn run_len(row: Seq<u32>, i: int) -> int
    decreases row.len() - i,
{
    if i + 1 < row.len() && row[i + 1] == row[i] {
        1 + run_len(row, i + 1)
    } else {
        1
    }
}

/// Cell `i` starts a run of equal non-zero payloads.
pub open spec fn run_start(row: Seq<u32>, i: int) -> bool {
    row[i] != 0 && (i == 0 || row[i - 1] != row[i])
}

/// Cell `i` of a row after merging: a run start carries the run's width and a
/// height of one; every other cell is cleared.
pub open spec fn merged_cell(row: Seq<u32>, i: int) -> u32 {
    if run_start(row, i) {
        (row[i] + 0x200_0000 + run_len(row, i) * 0x2_0000) as u32
    } else {
        0
    }
}

pub(crate) proof fn lemma_start_bits(p: u32, w: u32)
    by (bit_vector)
    requires
        p < 0x2_0000,
        1 <= w <= 32,
    ensures
        p | (1u32 << 25) | (w << 17) == p + 0x200_0000 + w * 0x2_0000,
{
}

pub(crate) proof fn lemma_start_fields(p: int, w: int)
    requires
        0 <= p < 0x2_0000,
        1 <= w <= 32,
    ensures
        cell_payload((p + 0x200_0000 + w * 0x2_0000) as u32) == p,
        cell_width((p + 0x200_0000 + w * 0x2_0000) as u32) == w,
        cell_height((p + 0x200_0000 + w * 0x2_0000) as u32) == 1,
{
    let v = p + 0x200_0000 + w * 0x2_0000;
    vstd::arithmetic::div_mod::lemma_fundamental_div_mod_converse(v, 0x2_0000, 0x100 + w, p);
    vstd::arithmetic::div_mod::lemma_fundamental_div_mod_converse(0x100 + w, 256, 1, w);
    vstd::arithmetic::div_mod::lemma_fundamental_div_mod_converse(v, 0x200_0000, 1, w * 0x2_0000 + p);
}

pub(crate) proof fn lemma_run_len(row: Seq<u32>, i: int, j: int)
    requires
        0 <= i < j <= row.len(),
        forall|k: int| i <= k < j ==> row[k] == row[i],
        j == row.len() || row[j] != row[i],
    ensures
        run_len(row, i) == j - i,
    decreases j - i,
{
    if i + 1 < j {
        lemma_run_len(row, i + 1, j);
    }
}

/// Merges the runs of equal non-zero payloads in the 32 cells from `start`.
pub(crate) fn merge_row(cells: &mut Vec<u32>, start: usize)
    requires
        start + 32 <= old(cells)@.len(),
        forall|k: int| start <= k < start + 32 ==> #[trigger] old(cells)@[k] < 0x2_0000,
    ensures
        final(cells)@.len() == old(cells)@.len(),
        forall|k: int|
            0 <= k < final(cells)@.len() && !(start <= k < start + 32) ==> #[trigger] final(cells)@[k]
                == old(cells)@[k],
        forall|i: int|
            0 <= i < 32 ==> #[trigger] final(cells)@[start + i] == merged_cell(
                old(cells)@.subrange(start as int, start + 32),
                i,
            ),
        forall|i: int| 0 <= i < 32 ==> pending_ok(#[trigger] final(cells)@[start + i], i, 1),
{
    let ghost row = old(cells)@.subrange(start as int, start + 32);
    let n = cells.len();
    let mut i: usize = 0;
    while i < 32
        invariant
            start + 32 <= cells@.len(),
            row == old(cells)@.subrange(start as int, start + 32),
            row.len() == 32,
            forall|k: int| 0 <= k < 32 ==> #[trigger] row[k] < 0x2_0000,
            cells@.len() == old(cells)@.len(),
            n == cells@.len(),
            i <= 32,
            forall|k: int|
                0 <= k < cells@.len() && !(start <= k < start + 32) ==> #[trigger] cells@[k] == old(cells)@[k],
            forall|k: int| 0 <= k < i ==> #[trigger] cells@[start + k] == merged_cell(row, k),
            forall|k: int| i <= k < 32 ==> #[trigger] cells@[start + k] == row[k],
            i < 32 && row[i as int] != 0 ==> run_start(row, i as int),
        decreases 32 - i,
    {
        let v = cells[start + i];
        if v == 0 {
            i += 1;
        } else {
            let mut j: usize = i + 1;
            while j < 32 && cells[start + j] == v
                invariant
                    start + 32 <= cells@.len(),
                    cells@.len() == old(cells)@.len(),
                    n == cells@.len(),
                    row.len() == 32,
                    i < j <= 32,
                    v == row[i as int],
                    forall|k: int|
                        0 <= k < cells@.len() && !(start <= k < start + 32) ==> #[trigger] cells@[k]
                            == old(cells)@[k],
                    forall|k: int| 0 <= k < i ==> #[trigger] cells@[start + k] == merged_cell(row, k),
                    forall|k: int| i + 1 <= k < j ==> #[trigger] cells@[start + k] == 0,
                    forall|k: int| i <= k < j ==> #[trigger] row[k] == v,
                    forall|k: int| j <= k < 32 ==> #[trigger] cells@[start + k] == row[k],
                    cells@[start + i] == v,
                decreases 32 - j,
            {
                cells[start + j] = 0;
                j += 1;
            }
            proof {
                lemma_run_len(row, i as int, j as int);
                lemma_start_bits(v, (j - i) as u32);
                lemma_start_fields(v as int, (j - i) as int);
                assert forall|k: int| i < k < j implies merged_cell(row, k) == 0 by {
                    assert(row[k - 1] == row[k]);
                }
            }
            cells[start + i] = v | (1u32 << 25) | (((j - i) as u32) << 17);
            i = j;
        }
    }
    proof {
        assert(row.len() == 32);
        assert forall|k: int| 0 <= k < 32 implies pending_ok(#[trigger] cells@[start + k], k, 1) by {
            assert(cells@[start + k] == merged_cell(row, k));
            if run_start(row, k) {
                lemma_run_len_bound(row, k);
                assert(row[k] < 0x2_0000);
                lemma_start_fields(row[k] as int, run_len(row, k));
            }
        }
    }
}

pub(crate) proof fn lemma_run_len_bound(row: Seq<u32>, i: int)
    requires
        0 <= i < row.len(),
    ensures
        1 <= run_len(row, i) <= row.len() - i,
    decreases row.len() - i,
{
    if i + 1 < row.len() && row[i + 1] == row[i] {
        lemma_run_len_bound(row, i + 1);
    }
}

/// Number of cells in one layer plane.
pub const LAYER_PLANE_SIZE: u32 = 1024;

/// Number of layer planes: two slabs of six directions.
pub const LAYER_PLANES: u32 = 12;

/// The layer buffer: twelve planes of 32 rows of 32 cells.
pub open spec fn layers_ok(l: &Array3D) -> bool {
    &&& l.wf()
    &&& l.plane_size == LAYER_PLANE_SIZE
    &&& l.sy == CHUNK_SIZE
    &&& l@.len() == LAYER_PLANE_SIZE * LAYER_PLANES
}

/// The planes that one slab writes: `UP` (plane 0), `DOWN` (plane 5) and the
/// four side planes `cur + 1 ..= cur + 4` of its half of the buffer.
pub open spec fn in_slab_planes(idx: int, cur: int) -> bool {
    ||| 0 <= idx < 1024
    ||| 5 * 1024 <= idx < 6 * 1024
    ||| (cur + 1) * 1024 <= idx < (cur + 5) * 1024
}

/// The plane that holds the faces of direction `dir` for the slab whose side
/// planes start after plane `cur`.
pub open spec fn plane_of(dir: u32, cur: int) -> int {
    if dir == DIRECTION_UP {
        0
    } else if dir == DIRECTION_DOWN {
        5
    } else {
        cur + dir
    }
}

/// Chunk coordinates `(x, y)` of the voxel whose face of direction `dir` sits
/// at `(col, row)` of its plane.
pub open spec fn plane_origin(dir: u32, col: int, row: int) -> (int, int) {
    if dir == DIRECTION_UP {
        (col, row)
    } else if dir == DIRECTION_DOWN {
        (col, 31 - row)
    } else {
        side_origin(dir, col, row)
    }
}

/// The payload that slab `t` (0-based) puts at `(row, col)` of the plane of
/// direction `dir`: that of the face there if it is drawn, else zero.
pub open spec fn plane_value(c: Seq<u32>, dir: u32, t: int, row: int, col: int) -> u32 {
    let o = plane_origin(dir, col, row);
    if face_visible(c, dir, t + 1, o.0 + 1, o.1 + 1) {
        face_payload(c, dir, t + 1, o.0 + 1, o.1 + 1)
    } else {
        0
    }
}

/// The flat index of `(row, col)` of the plane of direction `dir`.
pub open spec fn slab_index(dir: u32, cur: int, row: int, col: int) -> int {
    plane_of(dir, cur) * 1024 + row * 32 + col
}

/// The plane, column and row of the face of direction `dir` of the voxel at
/// chunk coordinates `(rx, ry)`: side planes are turned so that rows run along
/// the face, and `DOWN` is mirrored in `y`.
pub(crate) fn plane_cell(dir: u32, cur: u32, rx: u32, ry: u32) -> (r: (u32, u32, u32))
    requires
        dir < 6,
        cur == 0 || cur == 6,
        rx < 32,
        ry < 32,
    ensures
        r.1 < 32,
        r.2 < 32,
        in_slab_planes(r.0 * 1024 + r.2 * 32 + r.1, cur as int),
        r.0 < 12,
        r.0 == plane_of(dir, cur as int),
        plane_origin(dir, r.1 as int, r.2 as int) == (rx as int, ry as int),
{
    if dir == DIRECTION_UP {
        (0, rx, ry)
    } else if dir == DIRECTION_DOWN {
        (5, rx, 31 - ry)
    } else if dir == 1 {
        (cur + 1, rx, ry)
    } else if dir == 2 {
        (cur + 2, 31 - ry, rx)
    } else if dir == 3 {
        (cur + 3, 31 - rx, 31 - ry)
    } else {
        (cur + 4, ry, 31 - rx)
    }
}

pub(crate) proof fn lemma_slab_index_injective(d1: u32, r1: int, c1: int, d2: u32, r2: int, c2: int, cur: int)
    requires
        d1 < 6,
        d2 < 6,
        cur == 0 || cur == 6,
        0 <= r1 < 32,
        0 <= c1 < 32,
        0 <= r2 < 32,
        0 <= c2 < 32,
        slab_index(d1, cur, r1, c1) == slab_index(d2, cur, r2, c2),
    ensures
        d1 == d2,
        r1 == r2,
        c1 == c2,
{
}

pub(crate) proof fn lemma_slab_index_in_planes(d: u32, r: int, c: int, cur: int)
    requires
        d < 6,
        cur == 0 || cur == 6,
        0 <= r < 32,
        0 <= c < 32,
    ensures
        in_slab_planes(slab_index(d, cur, r, c), cur),
        0 <= slab_index(d, cur, r, c) < 12 * 1024,
{
}

/// Writes the payload of each drawn face of voxel `(h, x, y)` into its layer plane.
pub(crate) fn collect_voxel(chunk: &Array3D, layers: &mut Array3D, h: u32, x: u32, y: u32, cur: u32)
    requires
        voxel_ok(chunk, 0, h, x, y),
        layers_ok(old(layers)),
        cur == 0 || cur == 6,
        forall|d: u32, row: int, col: int|
            d < 6 && 0 <= row < 32 && 0 <= col < 32 && plane_origin(d, col, row) == (x - 1, y - 1) ==> #[trigger] old(
                layers)@[slab_index(d, cur as int, row, col)] == 0,
    ensures
        layers_ok(final(layers)),
        forall|k: int|
            0 <= k < final(layers)@.len() && !in_slab_planes(k, cur as int) ==> #[trigger] final(layers)@[k] == old(
                layers)@[k],
        forall|d: u32, row: int, col: int|
            d < 6 && 0 <= row < 32 && 0 <= col < 32 ==> #[trigger] final(layers)@[slab_index(d, cur as int, row, col)]
                == if plane_origin(d, col, row) == (x - 1, y - 1) {
                plane_value(chunk@, d, h - 1, row, col)
            } else {
                old(layers)@[slab_index(d, cur as int, row, col)]
            },
{
    let mut dir: u32 = 0;
    while dir < 6
        invariant
            voxel_ok(chunk, 0, h, x, y),
            layers_ok(layers),
            cur == 0 || cur == 6,
            dir <= 6,
            forall|d: u32, row: int, col: int|
                d < 6 && 0 <= row < 32 && 0 <= col < 32 && plane_origin(d, col, row) == (x - 1, y - 1) ==> #[trigger] old(
                    layers)@[slab_index(d, cur as int, row, col)] == 0,
            forall|k: int|
                0 <= k < layers@.len() && !in_slab_planes(k, cur as int) ==> #[trigger] layers@[k] == old(layers)@[k],
            forall|d: u32, row: int, col: int|
                d < 6 && 0 <= row < 32 && 0 <= col < 32 ==> #[trigger] layers@[slab_index(d, cur as int, row, col)]
                    == if d < dir && plane_origin(d, col, row) == (x - 1, y - 1) {
                    plane_value(chunk@, d, h - 1, row, col)
                } else {
                    old(layers)@[slab_index(d, cur as int, row, col)]
                },
        decreases 6 - dir,
    {
        let ghost before = layers@;
        let (plane, col, row) = plane_cell(dir, cur, x - 1, y - 1);
        assert(plane_origin(dir, col as int, row as int) == (x - 1, y - 1));
        assert(old(layers)@[slab_index(dir, cur as int, row as int, col as int)] == 0);
        assert(before[slab_index(dir, cur as int, row as int, col as int)] == 0);
        match visible_face(chunk, dir, h, x, y) {
            Some(p) => {
                layers.set_hxy(plane, col, row, p);
            },
            None => {},
        }
        proof {
            assert(slab_index(dir, cur as int, row as int, col as int) == plane * 1024 + row * 32 + col);
            assert forall|k: int| 0 <= k < layers@.len() && !in_slab_planes(k, cur as int) implies #[trigger] layers@[k]
                == old(layers)@[k] by {
                lemma_slab_index_in_planes(dir, row as int, col as int, cur as int);
                assert(layers@[k] == before[k]);
            }
            assert forall|d: u32, r: int, cc: int| d < 6 && 0 <= r < 32 && 0 <= cc < 32 implies #[trigger] layers@[slab_index(d, cur as int, r, cc)]
                == if d < dir + 1 && plane_origin(d, cc, r) == (x - 1, y - 1) {
                plane_value(chunk@, d, h - 1, r, cc)
            } else {
                old(layers)@[slab_index(d, cur as int, r, cc)]
            } by {
                if slab_index(d, cur as int, r, cc) == slab_index(dir, cur as int, row as int, col as int) {
                    lemma_slab_index_injective(d, r, cc, dir, row as int, col as int, cur as int);
                } else {
                    lemma_slab_index_in_planes(d, r, cc, cur as int);
                    assert(layers@[slab_index(d, cur as int, r, cc)] == before[slab_index(d, cur as int, r, cc)]);
                    if d == dir {
                        assert(plane_origin(d, cc, r) != (x - 1, y - 1)) by {
                            if plane_origin(d, cc, r) == (x - 1, y - 1) {
                                lemma_plane_origin_injective(d, cc, r, col as int, row as int);
                            }
                        }
                    }
                }
            }
        }
        dir += 1;
    }
}

pub(crate) proof fn lemma_plane_origin_injective(d: u32, c1: int, r1: int, c2: int, r2: int)
    requires
        d < 6,
        plane_origin(d, c1, r1) == plane_origin(d, c2, r2),
    ensures
        c1 == c2,
        r1 == r2,
{
}

/// Each cell of a plane comes from a voxel of the chunk.
pub(crate) proof fn lemma_plane_origin_range(d: u32, col: int, row: int)
    requires
        d < 6,
        0 <= col < 32,
        0 <= row < 32,
    ensures
        0 <= plane_origin(d, col, row).0 < 32,
        0 <= plane_origin(d, col, row).1 < 32,
{
}

pub(crate) proof fn lemma_plane_value_bound(c: Seq<u32>, d: u32, t: int, row: int, col: int)
    ensures
        plane_value(c, d, t, row, col) < 0x2_0000,
{
    let o = plane_origin(d, col, row);
    lemma_payload_bound(c, d, t + 1, o.0 + 1, o.1 + 1);
}

/// Whether the voxel at chunk coordinates `o` comes before `(x, y)` (haloed) in the sweep.
pub open spec fn swept_before(o: (int, int), x: int, y: int) -> bool {
    o.1 < y - 1 || (o.1 == y - 1 && o.0 < x - 1)
}

/// Writes the payloads of the drawn faces of slab `h` into the layer planes,
/// whose slab cells start cleared.
pub(crate) fn collect_slab(chunk: &Array3D, layers: &mut Array3D, h: u32, cur: u32)
    requires
        is_chunk(chunk),
        known_blocks(chunk@),
        interior(h as int),
        layers_ok(old(layers)),
        cur == 0 || cur == 6,
        forall|d: u32, row: int, col: int|
            d < 6 && 0 <= row < 32 && 0 <= col < 32 ==> #[trigger] old(layers)@[slab_index(d, cur as int, row, col)] == 0,
    ensures
        layers_ok(final(layers)),
        forall|k: int|
            0 <= k < final(layers)@.len() && !in_slab_planes(k, cur as int) ==> #[trigger] final(layers)@[k] == old(
                layers)@[k],
        forall|d: u32, row: int, col: int|
            d < 6 && 0 <= row < 32 && 0 <= col < 32 ==> #[trigger] final(layers)@[slab_index(d, cur as int, row, col)]
                == plane_value(chunk@, d, h - 1, row, col),
{
    let mut y: u32 = 1;
    while y <= 32
        invariant
            is_chunk(chunk),
            known_blocks(chunk@),
            interior(h as int),
            layers_ok(layers),
            cur == 0 || cur == 6,
            1 <= y <= 33,
            forall|k: int|
                0 <= k < layers@.len() && !in_slab_planes(k, cur as int) ==> #[trigger] layers@[k] == old(layers)@[k],
            forall|d: u32, row: int, col: int|
                d < 6 && 0 <= row < 32 && 0 <= col < 32 ==> #[trigger] layers@[slab_index(d, cur as int, row, col)]
                    == if plane_origin(d, col, row).1 < y - 1 {
                    plane_value(chunk@, d, h - 1, row, col)
                } else {
                    0
                },
        decreases 33 - y,
    {
        let mut x: u32 = 1;
        while x <= 32
            invariant
                is_chunk(chunk),
                known_blocks(chunk@),
                interior(h as int),
                layers_ok(layers),
                cur == 0 || cur == 6,
                1 <= y <= 32,
                1 <= x <= 33,
                forall|k: int|
                    0 <= k < layers@.len() && !in_slab_planes(k, cur as int) ==> #[trigger] layers@[k] == old(layers)@[k],
                forall|d: u32, row: int, col: int|
                    d < 6 && 0 <= row < 32 && 0 <= col < 32 ==> #[trigger] layers@[slab_index(d, cur as int, row, col)]
                        == if swept_before(plane_origin(d, col, row), x as int, y as int) {
                        plane_value(chunk@, d, h - 1, row, col)
                    } else {
                        0
                    },
            decreases 33 - x,
        {
            collect_voxel(chunk, layers, h, x, y, cur);
            x += 1;
        }
        proof {
            assert forall|d: u32, row: int, col: int|
                d < 6 && 0 <= row < 32 && 0 <= col < 32 implies #[trigger] layers@[slab_index(d, cur as int, row, col)]
                    == if plane_origin(d, col, row).1 < y {
                    plane_value(chunk@, d, h - 1, row, col)
                } else {
                    0
                } by {
                lemma_plane_origin_range(d, col, row);
            }
        }
        y += 1;
    }
}

pub(crate) proof fn lemma_cell_bits(v: u32)
    by (bit_vector)
    ensures
        v >> 25 == v / 0x200_0000,
        (v >> 17) & 0xFF == (v / 0x2_0000) % 256,
        v & 0x1FFFF == v % 0x2_0000,
{
}

pub(crate) proof fn lemma_cell_key(v: u32, u: u32)
    by (bit_vector)
    ensures
        ((v & 0x1FF_FFFF) == (u & 0x1FF_FFFF)) == (v % 0x2_0000 == u % 0x2_0000 && (v / 0x2_0000) % 256 == (
        u / 0x2_0000) % 256),
{
}

pub(crate) proof fn lemma_cell_grow(v: u32, t: u32)
    by (bit_vector)
    requires
        t < 64,
    ensures
        ((v & 0x1FF_FFFF) | (t << 25)) % 0x2_0000 == v % 0x2_0000,
        (((v & 0x1FF_FFFF) | (t << 25)) / 0x2_0000) % 256 == (v / 0x2_0000) % 256,
        ((v & 0x1FF_FFFF) | (t << 25)) / 0x200_0000 == t,
{
}

pub(crate) proof fn lemma_index_bits(i: u32)
    by (bit_vector)
    ensures
        i & 31 == i % 32,
        i >> 5 == i / 32,
        i & 1 == i % 2,
{
}

/// World `(x, y)` of the cell at `(col, row)` of a side plane of direction `dir`.
pub open spec fn side_origin(dir: u32, col: int, row: int) -> (int, int) {
    if dir == 1 {
        (col, row)
    } else if dir == 2 {
        (row, 31 - col)
    } else if dir == 3 {
        (31 - col, 31 - row)
    } else {
        (31 - row, col)
    }
}

pub(crate) fn unrotate(dir: u32, col: u32, row: u32) -> (r: (u32, u32))
    requires
        1 <= dir <= 4,
        col < 32,
        row < 32,
    ensures
        r.0 == side_origin(dir, col as int, row as int).0,
        r.1 == side_origin(dir, col as int, row as int).1,
{
    if dir == 1 {
        (col, row)
    } else if dir == 2 {
        (row, 31 - col)
    } else if dir == 3 {
        (31 - col, 31 - row)
    } else {
        (31 - row, col)
    }
}

/// The cell at `(row * 32 + col)` of a plane sits in column `col`.
pub(crate) proof fn lemma_plane_col(row: int, col: int)
    requires
        0 <= col < 32,
        0 <= row,
    ensures
        (row * 32 + col) % 32 == col,
        (row * 32 + col) / 32 == row,
{
    vstd::arithmetic::div_mod::lemma_fundamental_div_mod_converse(row * 32 + col, 32, row, col);
}

/// Row `row` of plane `plane` of a layer buffer.
pub open spec fn plane_row(l: Seq<u32>, plane: int, row: int) -> Seq<u32> {
    l.subrange(plane * 1024 + row * 32, plane * 1024 + row * 32 + 32)
}

/// Merges the runs of each row of a side plane.
pub(crate) fn merge_plane_rows(layers: &mut Array3D, plane: u32)
    requires
        layers_ok(old(layers)),
        plane < 12,
        forall|i: int| 0 <= i < 1024 ==> #[trigger] old(layers)@[plane * 1024 + i] < 0x2_0000,
    ensures
        layers_ok(final(layers)),
        forall|k: int|
            0 <= k < final(layers)@.len() && !(plane * 1024 <= k < plane * 1024 + 1024) ==> #[trigger] final(layers)@[k]
                == old(layers)@[k],
        forall|i: int| 0 <= i < 1024 ==> pending_ok(#[trigger] final(layers)@[plane * 1024 + i], i % 32, 1),
        forall|row: int, col: int|
            0 <= row < 32 && 0 <= col < 32 ==> #[trigger] final(layers)@[plane * 1024 + row * 32 + col] == merged_cell(
                plane_row(old(layers)@, plane as int, row),
                col,
            ),
{
    let base = layers.plane_idx(plane) as u32;
    let mut row: u32 = 0;
    while row < 32
        invariant
            layers_ok(layers),
            old(layers)@.len() == layers@.len(),
            plane < 12,
            base == plane * 1024,
            row <= 32,
            forall|k: int|
                0 <= k < layers@.len() && !(plane * 1024 <= k < plane * 1024 + 1024) ==> #[trigger] layers@[k]
                    == old(layers)@[k],
            forall|i: int| row * 32 <= i < 1024 ==> #[trigger] layers@[plane * 1024 + i] == old(layers)@[plane * 1024 + i],
            forall|i: int| 0 <= i < row * 32 ==> pending_ok(#[trigger] layers@[plane * 1024 + i], i % 32, 1),
            forall|r: int, col: int|
                0 <= r < row && 0 <= col < 32 ==> #[trigger] layers@[plane * 1024 + r * 32 + col] == merged_cell(
                    plane_row(old(layers)@, plane as int, r),
                    col,
                ),
            forall|i: int| 0 <= i < 1024 ==> #[trigger] old(layers)@[plane * 1024 + i] < 0x2_0000,
        decreases 32 - row,
    {
        let start = base + row * 32;
        let ghost before = layers@;
        proof {
            assert forall|k: int| start <= k < start + 32 implies #[trigger] layers.data@[k] < 0x2_0000 by {
                assert(layers@[plane * 1024 + (k - plane * 1024)] == old(layers)@[plane * 1024 + (k - plane * 1024)]);
            }
            assert(before.subrange(start as int, start + 32) =~= plane_row(old(layers)@, plane as int, row as int)) by {
                assert forall|j: int| 0 <= j < 32 implies #[trigger] before.subrange(start as int, start + 32)[j] == plane_row(old(layers)@, plane as int, row as int)[j] by {
                    assert(layers@[plane * 1024 + (row * 32 + j)] == old(layers)@[plane * 1024 + (row * 32 + j)]);
                    assert(start + j == plane * 1024 + (row * 32 + j));
                }
            }
        }
        merge_row(&mut layers.data, start as usize);
        proof {
            assert forall|i: int| 0 <= i < (row + 1) * 32 implies pending_ok(#[trigger] layers@[plane * 1024 + i], i % 32, 1) by {
                if i >= row * 32 {
                    lemma_plane_col(row as int, i - row * 32);
                    assert(layers@[start + (i - row * 32)] == layers@[plane * 1024 + i]);
                }
            }
            assert forall|r: int, col: int| 0 <= r < row + 1 && 0 <= col < 32 implies #[trigger] layers@[plane * 1024 + r * 32 + col] == merged_cell(
                plane_row(old(layers)@, plane as int, r),
                col,
            ) by {
                if r == row {
                    assert(layers@[start + col] == layers@[plane * 1024 + r * 32 + col]);
                } else {
                    assert(before[plane * 1024 + r * 32 + col] == layers@[plane * 1024 + r * 32 + col]);
                }
            }
        }
        row += 1;
    }
}

/// The first cell of the run of equal cells that holds cell `col`.
pub open spec fn run_head(rs: Seq<u32>, col: int) -> int
    decreases col,
{
    if col <= 0 || rs[col - 1] != rs[col] {
        col
    } else {
        run_head(rs, col - 1)
    }
}

pub(crate) proof fn lemma_run_reaches(rs: Seq<u32>, j: int, m: int)
    requires
        0 <= j <= m < rs.len(),
        forall|k: int| j <= k <= m ==> #[trigger] rs[k] == rs[j],
    ensures
        run_len(rs, j) >= m - j + 1,
    decreases m - j,
{
    lemma_run_len_bound(rs, j);
    if j < m {
        assert(rs[j + 1] == rs[j]);
        lemma_run_reaches(rs, j + 1, m);
    }
}

pub(crate) proof fn lemma_run_head(rs: Seq<u32>, col: int)
    requires
        0 <= col < rs.len(),
        rs[col] != 0,
    ensures
        0 <= run_head(rs, col) <= col,
        run_start(rs, run_head(rs, col)),
        col < run_head(rs, col) + run_len(rs, run_head(rs, col)),
        forall|k: int| run_head(rs, col) <= k <= col ==> #[trigger] rs[k] == rs[col],
    decreases col,
{
    if col > 0 && rs[col - 1] == rs[col] {
        lemma_run_head(rs, col - 1);
    }
    let j = run_head(rs, col);
    lemma_run_reaches(rs, j, col);
}

/// The plane cell `(col, row)` that holds the face of direction `dir` of the
/// voxel at chunk coordinates `(x, y)`.
pub open spec fn plane_pos(dir: u32, x: int, y: int) -> (int, int) {
    if dir == 0 || dir == 1 {
        (x, y)
    } else if dir == 5 {
        (x, 31 - y)
    } else if dir == 2 {
        (31 - y, x)
    } else if dir == 3 {
        (31 - x, 31 - y)
    } else {
        (y, 31 - x)
    }
}

pub(crate) proof fn lemma_plane_pos(dir: u32, x: int, y: int)
    requires
        dir < 6,
        0 <= x < 32,
        0 <= y < 32,
    ensures
        0 <= plane_pos(dir, x, y).0 < 32,
        0 <= plane_pos(dir, x, y).1 < 32,
        plane_origin(dir, plane_pos(dir, x, y).0, plane_pos(dir, x, y).1) == (x, y),
{
}

/// Two distinct run starts of a row do not overlap.
pub(crate) proof fn lemma_runs_apart(rs: Seq<u32>, c0: int, c1: int)
    requires
        0 <= c0 < c1 < rs.len(),
        run_start(rs, c0),
        run_start(rs, c1),
    ensures
        c0 + run_len(rs, c0) <= c1,
{
    if c1 < c0 + run_len(rs, c0) {
        lemma_run_cells(rs, c0, c1);
        lemma_run_cells(rs, c0, c1 - 1);
    }
}

pub(crate) proof fn lemma_plane_pos_side(dir: u32, col: int, row: int)
    requires
        1 <= dir <= 4,
        0 <= col < 32,
        0 <= row < 32,
    ensures
        plane_pos(dir, side_origin(dir, col, row).0, side_origin(dir, col, row).1) == (col, row),
{
}

pub(crate) proof fn lemma_side_origin_range(dir: u32, col: int, row: int)
    requires
        1 <= dir <= 4,
        0 <= col < 32,
        0 <= row < 32,
    ensures
        0 <= side_origin(dir, col, row).0 < 32,
        0 <= side_origin(dir, col, row).1 < 32,
{
}

pub(crate) proof fn lemma_plane_pos_flat(dir: u32, col: int, r: int)
    requires
        dir == 0 || dir == 5,
        0 <= col < 32,
        0 <= r < 32,
    ensures
        plane_pos(dir, plane_origin(dir, col, r).0, plane_origin(dir, col, r).1) == (col, r),
        0 <= plane_origin(dir, col, r).0 < 32,
        0 <= plane_origin(dir, col, r).1 < 32,
{
}

/// Within its run, every cell equals the run's first cell.
pub(crate) proof fn lemma_run_cells(row: Seq<u32>, i: int, k: int)
    requires
        0 <= i <= k < i + run_len(row, i),
        i < row.len(),
    ensures
        row[k] == row[i],
    decreases k - i,
{
    if k > i {
        assert(i + 1 < row.len() && row[i + 1] == row[i]);
        lemma_run_cells(row, i + 1, k);
    }
}

} // verus!
