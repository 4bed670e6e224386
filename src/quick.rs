//! The quick pass: one 1x1 quad per visible voxel face, no merging.
use vstd::prelude::*;
use vstd::arithmetic::div_mod::lemma_fundamental_div_mod_converse;
use crate::array3d::Array3D;
use crate::blocks::{BLOCK_EMPTY, spec_is_solid};
use crate::chunk::{
    block, face_payload, face_visible, is_chunk, known_blocks, neighbor, visible_face, voxel_ok,
};
use crate::direction::{
    DIRECTION_BACK, DIRECTION_DOWN, DIRECTION_FRONT, DIRECTION_LEFT, DIRECTION_RIGHT, DIRECTION_UP,
};
use crate::encoder::{
    Face, emit_all, emit_onto, lemma_emit_concat, lemma_emit_len, lemma_unit_face_ok, push_face,
};
use crate::face_buffer::FaceBuffer;

verus! {

/// The unit quad of direction `dir` of interior voxel `(h, x, y)`, with its
/// origin in chunk coordinates `0..S`.
pub open spec fn voxel_face(c: Seq<u32>, dir: u32, h: int, x: int, y: int) -> Face {
    Face {
        dir,
        h: (h - 1) as u32,
        x: (x - 1) as u32,
        y: (y - 1) as u32,
        width: 1,
        height: 1,
        data: face_payload(c, dir, h, x, y),
    }
}

/// That quad if it is drawn, else nothing.
pub open spec fn face_if_visible(c: Seq<u32>, dir: u32, h: int, x: int, y: int) -> Seq<Face> {
    if face_visible(c, dir, h, x, y) {
        seq![voxel_face(c, dir, h, x, y)]
    } else {
        Seq::empty()
    }
}

/// The quads of one voxel, in the order `UP, DOWN, FRONT, LEFT, BACK, RIGHT`.
pub open spec fn voxel_faces(c: Seq<u32>, h: int, x: int, y: int) -> Seq<Face> {
    face_if_visible(c, DIRECTION_UP, h, x, y) + face_if_visible(c, DIRECTION_DOWN, h, x, y)
        + face_if_visible(c, DIRECTION_FRONT, h, x, y) + face_if_visible(c, DIRECTION_LEFT, h, x, y)
        + face_if_visible(c, DIRECTION_BACK, h, x, y) + face_if_visible(c, DIRECTION_RIGHT, h, x, y)
}

/// Haloed coordinates of the `n`-th voxel of the sweep: `h` outermost, then `y`, then `x`.
pub open spec fn sweep_h(n: int) -> int {
    n / 1024 + 1
}

pub open spec fn sweep_y(n: int) -> int {
    (n / 32) % 32 + 1
}

pub open spec fn sweep_x(n: int) -> int {
    n % 32 + 1
}

/// The quads of the first `n` voxels of the sweep, in order.
pub open spec fn quick_faces_upto(c: Seq<u32>, n: nat) -> Seq<Face>
    decreases n,
{
    if n == 0 {
        Seq::empty()
    } else {
        let k = n - 1;
        quick_faces_upto(c, k as nat) + voxel_faces(c, sweep_h(k), sweep_x(k), sweep_y(k))
    }
}

/// All quads of the quick pass.
pub open spec fn quick_faces(c: Seq<u32>) -> Seq<Face> {
    quick_faces_upto(c, 32768)
}

/// The quick pass's output buffer: the solid stream, then the water stream.
pub open spec fn quick_mesh(c: Seq<u32>) -> Seq<u32> {
    emit_all(quick_faces(c)).0 + emit_all(quick_faces(c)).1
}

proof fn lemma_quick_faces_len(c: Seq<u32>, n: nat)
    ensures
        quick_faces_upto(c, n).len() <= 6 * n,
    decreases n,
{
    if n > 0 {
        lemma_quick_faces_len(c, (n - 1) as nat);
    }
}

proof fn lemma_sweep_index(h: int, y: int, x: int)
    requires
        1 <= h <= 32,
        1 <= y <= 32,
        1 <= x <= 32,
    ensures
        ({
            let n = (h - 1) * 1024 + (y - 1) * 32 + (x - 1);
            sweep_h(n) == h && sweep_y(n) == y && sweep_x(n) == x
        }),
{
    let n = (h - 1) * 1024 + (y - 1) * 32 + (x - 1);
    lemma_fundamental_div_mod_converse(n, 1024, h - 1, (y - 1) * 32 + (x - 1));
    lemma_fundamental_div_mod_converse(n, 32, (h - 1) * 32 + (y - 1), x - 1);
    lemma_fundamental_div_mod_converse((h - 1) * 32 + (y - 1), 32, h - 1, y - 1);
}

/// Emits the quad of direction `dir` of voxel `(h, x, y)` if it is drawn.
fn emit_quick(chunk: &Array3D, buffer: &mut FaceBuffer, dir: u32, h: u32, x: u32, y: u32)
    requires
        voxel_ok(chunk, dir, h, x, y),
    ensures
        final(buffer)@ == emit_onto(old(buffer)@, face_if_visible(chunk@, dir, h as int, x as int, y as int)),
{
    let ghost fs = face_if_visible(chunk@, dir, h as int, x as int, y as int);
    match visible_face(chunk, dir, h, x, y) {
        Some(data) => {
            let ghost s0 = buffer@;
            proof {
                lemma_unit_face_ok(voxel_face(chunk@, dir, h as int, x as int, y as int));
            }
            buffer.add_face(dir, h - 1, x - 1, y - 1, 1, 1, data, false);
            proof {
                let f = voxel_face(chunk@, dir, h as int, x as int, y as int);
                assert(fs.drop_last() =~= Seq::<Face>::empty());
                assert(fs.last() == f);
                assert(emit_onto(s0, fs.drop_last()) == s0);
                assert(push_face(s0, f) == buffer@);
            }
        },
        None => {
            assert(fs.len() == 0);
        },
    }
}

/// Emits the drawn quads of voxel `(h, x, y)`.
fn mesh_voxel_quick(chunk: &Array3D, buffer: &mut FaceBuffer, h: u32, x: u32, y: u32)
    requires
        voxel_ok(chunk, 0, h, x, y),
    ensures
        final(buffer)@ == emit_onto(old(buffer)@, voxel_faces(chunk@, h as int, x as int, y as int)),
{
    let ghost c = chunk@;
    let ghost (hh, xx, yy) = (h as int, x as int, y as int);
    let ghost s0 = buffer@;
    emit_quick(chunk, buffer, DIRECTION_UP, h, x, y);
    emit_quick(chunk, buffer, DIRECTION_DOWN, h, x, y);
    proof {
        lemma_emit_concat(s0, face_if_visible(c, 0, hh, xx, yy), face_if_visible(c, 5, hh, xx, yy));
    }
    emit_quick(chunk, buffer, DIRECTION_FRONT, h, x, y);
    proof {
        lemma_emit_concat(
            s0,
            face_if_visible(c, 0, hh, xx, yy) + face_if_visible(c, 5, hh, xx, yy),
            face_if_visible(c, 1, hh, xx, yy),
        );
    }
    emit_quick(chunk, buffer, DIRECTION_LEFT, h, x, y);
    proof {
        lemma_emit_concat(
            s0,
            face_if_visible(c, 0, hh, xx, yy) + face_if_visible(c, 5, hh, xx, yy) + face_if_visible(
                c,
                1,
                hh,
                xx,
                yy,
            ),
            face_if_visible(c, 2, hh, xx, yy),
        );
    }
    emit_quick(chunk, buffer, DIRECTION_BACK, h, x, y);
    proof {
        lemma_emit_concat(
            s0,
            face_if_visible(c, 0, hh, xx, yy) + face_if_visible(c, 5, hh, xx, yy) + face_if_visible(
                c,
                1,
                hh,
                xx,
                yy,
            ) + face_if_visible(c, 2, hh, xx, yy),
            face_if_visible(c, 3, hh, xx, yy),
        );
    }
    emit_quick(chunk, buffer, DIRECTION_RIGHT, h, x, y);
    proof {
        lemma_emit_concat(
            s0,
            face_if_visible(c, 0, hh, xx, yy) + face_if_visible(c, 5, hh, xx, yy) + face_if_visible(
                c,
                1,
                hh,
                xx,
                yy,
            ) + face_if_visible(c, 2, hh, xx, yy) + face_if_visible(c, 3, hh, xx, yy),
            face_if_visible(c, 4, hh, xx, yy),
        );
    }
}

/// Meshes a haloed chunk with one quad per visible voxel face. On return
/// `out_mesh` holds the solid stream followed by the water stream, `tmp_mesh`
/// the water stream, and the result is the length of `out_mesh`.
pub fn create_mesh_quick(chunk: &Array3D, out_mesh: &mut Vec<u32>, tmp_mesh: &mut Vec<u32>) -> (r: u32)
    requires
        is_chunk(chunk),
        known_blocks(chunk@),
    ensures
        final(out_mesh)@ == quick_mesh(chunk@),
        final(tmp_mesh)@ == emit_all(quick_faces(chunk@)).1,
        r == final(out_mesh)@.len(),
{
    let ghost c = chunk@;
    let mut buffer = FaceBuffer::new();
    let mut h: u32 = 1;
    while h <= 32
        invariant
            is_chunk(chunk),
            known_blocks(chunk@),
            c == chunk@,
            1 <= h <= 33,
            buffer@ == emit_all(quick_faces_upto(c, ((h - 1) * 1024) as nat)),
        decreases 33 - h,
    {
        let mut y: u32 = 1;
        while y <= 32
            invariant
                is_chunk(chunk),
                known_blocks(chunk@),
                c == chunk@,
                1 <= h <= 32,
                1 <= y <= 33,
                buffer@ == emit_all(quick_faces_upto(c, ((h - 1) * 1024 + (y - 1) * 32) as nat)),
            decreases 33 - y,
        {
            let mut x: u32 = 1;
            while x <= 32
                invariant
                    is_chunk(chunk),
                    known_blocks(chunk@),
                    c == chunk@,
                    1 <= h <= 32,
                    1 <= y <= 32,
                    1 <= x <= 33,
                    buffer@ == emit_all(quick_faces_upto(c, ((h - 1) * 1024 + (y - 1) * 32 + (x - 1)) as nat)),
                decreases 33 - x,
            {
                let ghost n = (h - 1) * 1024 + (y - 1) * 32 + (x - 1);
                let ghost before = buffer@;
                mesh_voxel_quick(chunk, &mut buffer, h, x, y);
                proof {
                    lemma_sweep_index(h as int, y as int, x as int);
                    lemma_emit_concat(
                        (Seq::empty(), Seq::empty()),
                        quick_faces_upto(c, n as nat),
                        voxel_faces(c, h as int, x as int, y as int),
                    );
                }
                x += 1;
            }
            y += 1;
        }
        h += 1;
    }
    proof {
        lemma_quick_faces_len(c, 32768);
        lemma_emit_len((Seq::empty(), Seq::empty()), quick_faces(c));
    }
    let r = buffer.complete();
    *out_mesh = buffer.mesh_data_solid;
    *tmp_mesh = buffer.mesh_data_water;
    r
}

/// `f` is the quad of a drawn face of an interior voxel, with that face's payload.
pub open spec fn drawn_face(c: Seq<u32>, f: Face) -> bool {
    &&& f.dir < 6
    &&& f.h < 32 && f.x < 32 && f.y < 32
    &&& f.width == 1 && f.height == 1
    &&& face_visible(c, f.dir, f.h + 1, f.x + 1, f.y + 1)
    &&& f.data == face_payload(c, f.dir, f.h + 1, f.x + 1, f.y + 1)
}

proof fn lemma_voxel_faces_drawn(c: Seq<u32>, h: int, x: int, y: int)
    requires
        1 <= h <= 32,
        1 <= x <= 32,
        1 <= y <= 32,
    ensures
        forall|k: int| 0 <= k < voxel_faces(c, h, x, y).len() ==> drawn_face(c, #[trigger] voxel_faces(c, h, x, y)[k]),
{
    let fs = voxel_faces(c, h, x, y);
    assert forall|k: int| 0 <= k < fs.len() implies drawn_face(c, #[trigger] fs[k]) by {
        let f = fs[k];
        assert(exists|d: u32| d < 6 && face_visible(c, d, h, x, y) && f == voxel_face(c, d, h, x, y));
    }
}

pub proof fn lemma_quick_faces_drawn(c: Seq<u32>, n: nat)
    requires
        n <= 32768,
    ensures
        forall|k: int| 0 <= k < quick_faces_upto(c, n).len() ==> drawn_face(c, #[trigger] quick_faces_upto(c, n)[k]),
    decreases n,
{
    if n > 0 {
        let m = (n - 1) as int;
        lemma_quick_faces_drawn(c, (n - 1) as nat);
        assert(0 <= m / 1024 < 32) by {
            vstd::arithmetic::div_mod::lemma_div_pos_is_pos(m, 1024);
            vstd::arithmetic::div_mod::lemma_div_is_ordered(m, 32767, 1024);
        }
        assert(0 <= (m / 32) % 32 < 32) by {
            vstd::arithmetic::div_mod::lemma_mod_bound(m / 32, 32);
            vstd::arithmetic::div_mod::lemma_div_pos_is_pos(m, 32);
        }
        lemma_voxel_faces_drawn(c, sweep_h(m), sweep_x(m), sweep_y(m));
        let a = quick_faces_upto(c, (n - 1) as nat);
        let b = voxel_faces(c, sweep_h(m), sweep_x(m), sweep_y(m));
        assert forall|k: int| 0 <= k < (a + b).len() implies drawn_face(c, #[trigger] (a + b)[k]) by {
            if k >= a.len() {
                assert((a + b)[k] == b[k - a.len()]);
            }
        }
    }
}

/// Every quad of the quick pass stands on a voxel that is not empty and whose
/// neighbour in the quad's direction is not solid.
pub proof fn lemma_quick_faces_face_open_air(c: Seq<u32>)
    ensures
        forall|k: int|
            0 <= k < quick_faces(c).len() ==> {
                let f = #[trigger] quick_faces(c)[k];
                &&& block(c, f.h + 1, f.x + 1, f.y + 1) != BLOCK_EMPTY
                &&& !spec_is_solid(neighbor(c, f.dir, f.h + 1, f.x + 1, f.y + 1))
            },
{
    lemma_quick_faces_drawn(c, 32768);
    assert forall|k: int| 0 <= k < quick_faces(c).len() implies {
        let f = #[trigger] quick_faces(c)[k];
        &&& block(c, f.h + 1, f.x + 1, f.y + 1) != BLOCK_EMPTY
        &&& !spec_is_solid(neighbor(c, f.dir, f.h + 1, f.x + 1, f.y + 1))
    } by {
        assert(drawn_face(c, quick_faces(c)[k]));
    }
}

/// A voxel whose six neighbours are all solid has no quad in the quick pass.
pub proof fn lemma_buried_voxel_has_no_faces(c: Seq<u32>, h: int, x: int, y: int)
    requires
        1 <= h <= 32,
        1 <= x <= 32,
        1 <= y <= 32,
        spec_is_solid(block(c, h + 1, x, y)),
        spec_is_solid(block(c, h - 1, x, y)),
        spec_is_solid(block(c, h, x - 1, y)),
        spec_is_solid(block(c, h, x + 1, y)),
        spec_is_solid(block(c, h, x, y - 1)),
        spec_is_solid(block(c, h, x, y + 1)),
    ensures
        voxel_faces(c, h, x, y).len() == 0,
        forall|k: int|
            0 <= k < quick_faces(c).len() ==> {
                let f = #[trigger] quick_faces(c)[k];
                !(f.h + 1 == h && f.x + 1 == x && f.y + 1 == y)
            },
{
    lemma_quick_faces_drawn(c, 32768);
    assert forall|k: int| 0 <= k < quick_faces(c).len() implies {
        let f = #[trigger] quick_faces(c)[k];
        !(f.h + 1 == h && f.x + 1 == x && f.y + 1 == y)
    } by {
        assert(drawn_face(c, quick_faces(c)[k]));
    }
}

/// The quick pass's output depends on the chunk alone: two runs on equal
/// chunks give equal buffers.
pub proof fn lemma_quick_mesh_deterministic(c1: Seq<u32>, c2: Seq<u32>)
    requires
        c1 == c2,
    ensures
        quick_mesh(c1) == quick_mesh(c2),
        emit_all(quick_faces(c1)).1 == emit_all(quick_faces(c2)).1,
{
}

} // verus!
