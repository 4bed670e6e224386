//! How the greedy pass's rectangles relate to the quick pass's quads.
use vstd::prelude::*;
use crate::blocks::spec_is_solid;
use crate::chunk::{block, face_payload, face_visible};
use crate::encoder::{Face, covers};
use crate::rects::{
    covered_by, face_sound, faces_complete, faces_disjoint, faces_sound, lemma_cover_unique,
};
use crate::quick::{drawn_face, lemma_quick_faces_drawn, quick_faces};

verus! {

/// The greedy pass and the quick pass draw the same surface: each quad of the
/// quick pass with a non-zero payload lies in exactly one rectangle of a
/// greedy output, one of its direction and payload; and each unit cell of a
/// greedy rectangle is a face that the quick pass draws, with that payload.
pub proof fn lemma_greedy_covers_quick_once(c: Seq<u32>, fs: Seq<Face>)
    requires
        faces_sound(c, fs),
        faces_complete(c, fs),
        faces_disjoint(fs),
    ensures
        forall|k: int|
            0 <= k < quick_faces(c).len() && (#[trigger] quick_faces(c)[k]).data != 0 ==> {
                let q = quick_faces(c)[k];
                &&& exists|j: int|
                    0 <= j < fs.len() && fs[j].dir == q.dir && fs[j].data == q.data && #[trigger] covers(
                        fs[j],
                        q.h as int,
                        q.x as int,
                        q.y as int,
                    )
                &&& forall|j1: int, j2: int|
                    0 <= j1 < fs.len() && 0 <= j2 < fs.len() && fs[j1].dir == q.dir && fs[j2].dir == q.dir && #[trigger] covers(
                        fs[j1],
                        q.h as int,
                        q.x as int,
                        q.y as int,
                    ) && #[trigger] covers(fs[j2], q.h as int, q.x as int, q.y as int) ==> j1 == j2
            },
        forall|j: int, t: int, x: int, y: int|
            0 <= j < fs.len() && 0 <= t < 32 && 0 <= x < 32 && 0 <= y < 32 && #[trigger] covers(fs[j], t, x, y) ==> {
                &&& face_visible(c, fs[j].dir, t + 1, x + 1, y + 1)
                &&& face_payload(c, fs[j].dir, t + 1, x + 1, y + 1) == fs[j].data
            },
{
    lemma_quick_faces_drawn(c, 32768);
    assert forall|k: int|
        0 <= k < quick_faces(c).len() && (#[trigger] quick_faces(c)[k]).data != 0 implies {
            let q = quick_faces(c)[k];
            &&& exists|j: int|
                0 <= j < fs.len() && fs[j].dir == q.dir && fs[j].data == q.data && #[trigger] covers(
                    fs[j],
                    q.h as int,
                    q.x as int,
                    q.y as int,
                )
            &&& forall|j1: int, j2: int|
                0 <= j1 < fs.len() && 0 <= j2 < fs.len() && fs[j1].dir == q.dir && fs[j2].dir == q.dir && #[trigger] covers(
                    fs[j1],
                    q.h as int,
                    q.x as int,
                    q.y as int,
                ) && #[trigger] covers(fs[j2], q.h as int, q.x as int, q.y as int) ==> j1 == j2
        } by {
        let q = quick_faces(c)[k];
        assert(drawn_face(c, q));
        assert(face_payload(c, q.dir, q.h + 1, q.x + 1, q.y + 1) != 0);
        assert(covered_by(fs, q.dir, q.h as int, q.x as int, q.y as int));
        let j = choose|j: int| 0 <= j < fs.len() && fs[j].dir == q.dir && #[trigger] covers(fs[j], q.h as int, q.x as int, q.y as int);
        assert(face_sound(c, fs[j]));
        assert forall|j1: int, j2: int|
            0 <= j1 < fs.len() && 0 <= j2 < fs.len() && fs[j1].dir == q.dir && fs[j2].dir == q.dir && #[trigger] covers(
                fs[j1],
                q.h as int,
                q.x as int,
                q.y as int,
            ) && #[trigger] covers(fs[j2], q.h as int, q.x as int, q.y as int) implies j1 == j2 by {
            lemma_cover_unique(fs, j1, j2, q.h as int, q.x as int, q.y as int);
        }
    }
    assert forall|j: int, t: int, x: int, y: int|
        0 <= j < fs.len() && 0 <= t < 32 && 0 <= x < 32 && 0 <= y < 32 && #[trigger] covers(fs[j], t, x, y) implies {
            &&& face_visible(c, fs[j].dir, t + 1, x + 1, y + 1)
            &&& face_payload(c, fs[j].dir, t + 1, x + 1, y + 1) == fs[j].data
        } by {
        assert(face_sound(c, fs[j]));
    }
}

/// No rectangle of a greedy output covers any face of a voxel whose six
/// neighbours are all solid.
pub proof fn lemma_greedy_skips_buried_voxel(c: Seq<u32>, fs: Seq<Face>, h: int, x: int, y: int)
    requires
        faces_sound(c, fs),
        1 <= h <= 32,
        1 <= x <= 32,
        1 <= y <= 32,
        spec_is_solid(block(c, h + 1, x, y)),
        spec_is_solid(block(c, h - 1, x, y)),
        spec_is_solid(block(c, h, x - 1, y)),
        spec_is_solid(block(c, h, x + 1, y)),
        spec_is_solid(block(c, h, x, y - 1)),
        spec_is_solid(block(c, h, x, y + 1)),
    ensures
        forall|j: int| 0 <= j < fs.len() ==> !(#[trigger] covers(fs[j], h - 1, x - 1, y - 1)),
{
    assert forall|j: int| 0 <= j < fs.len() implies !(#[trigger] covers(fs[j], h - 1, x - 1, y - 1)) by {
        assert(face_sound(c, fs[j]));
    }
}

} // verus!
