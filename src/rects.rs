//! Rectangles that the greedy pass emits: where they lie, which unit faces
//! they cover, and how a run of them stays apart.
use vstd::prelude::*;
use crate::chunk::{face_payload, face_visible};
use crate::encoder::{Face, corner_fits, covers, emit_all, face_ok, lemma_emit_push};
use crate::face_buffer::FaceBuffer;
use crate::layers::{cell_height, cell_width, plane_origin, plane_pos, plane_value, side_origin};

verus! {

/// Every face is one that the encoder accepts.
pub open spec fn faces_ok(fs: Seq<Face>) -> bool {
    forall|k: int| 0 <= k < fs.len() ==> face_ok(#[trigger] fs[k])
}

/// The streams hold exactly the encoding of the recorded faces, all accepted.
pub open spec fn buffer_ok(b: &FaceBuffer) -> bool {
    &&& b@ == emit_all(b.faces@)
    &&& faces_ok(b.faces@)
}

/// Encodes one merged rectangle.
pub(crate) fn emit_rect(buffer: &mut FaceBuffer, dir: u32, h: u32, x: u32, y: u32, width: u32, height: u32, data: u32)
    requires
        buffer_ok(old(buffer)),
        face_ok(Face { dir, h, x, y, width, height, data }),
    ensures
        buffer_ok(final(buffer)),
        final(buffer).faces@ == old(buffer).faces@.push(Face { dir, h, x, y, width, height, data }),
{
    buffer.add_face(dir, h, x, y, width, height, data, false);
    proof {
        lemma_emit_push((Seq::empty(), Seq::empty()), old(buffer).faces@, Face { dir, h, x, y, width, height, data });
        assert forall|k: int| 0 <= k < buffer.faces@.len() implies face_ok(#[trigger] buffer.faces@[k]) by {
            if k < old(buffer).faces@.len() {
                assert(buffer.faces@[k] == old(buffer).faces@[k]);
            }
        }
    }
}

/// A side rectangle at `(col, row)` of `width` columns and `height` slabs from
/// slab `h` lies inside the chunk.
pub(crate) proof fn lemma_side_face_ok(dir: u32, col: int, row: int, h: int, width: int, height: int, data: u32)
    requires
        1 <= dir <= 4,
        0 <= col,
        0 <= row < 32,
        1 <= width,
        col + width <= 32,
        1 <= height,
        0 <= h,
        h + height <= 32,
        data < 0x2_0000,
    ensures
        face_ok(
            Face {
                dir,
                h: h as u32,
                x: side_origin(dir, col, row).0 as u32,
                y: side_origin(dir, col, row).1 as u32,
                width: width as u32,
                height: height as u32,
                data,
            },
        ),
{
    let f = Face {
        dir,
        h: h as u32,
        x: side_origin(dir, col, row).0 as u32,
        y: side_origin(dir, col, row).1 as u32,
        width: width as u32,
        height: height as u32,
        data,
    };
    assert(f.h == h && f.width == width && f.height == height);
    if dir == 1 {
        assert(f.x == col && f.y == row);
        assert(corner_fits(f, 0));
        assert(corner_fits(f, 1));
        assert(corner_fits(f, 2));
        assert(corner_fits(f, 3));
    } else if dir == 2 {
        assert(f.x == row && f.y == 31 - col);
        assert(corner_fits(f, 0));
        assert(corner_fits(f, 1));
        assert(corner_fits(f, 2));
        assert(corner_fits(f, 3));
    } else if dir == 3 {
        assert(f.x == 31 - col && f.y == 31 - row);
        assert(corner_fits(f, 0));
        assert(corner_fits(f, 1));
        assert(corner_fits(f, 2));
        assert(corner_fits(f, 3));
    } else {
        assert(f.x == 31 - row && f.y == col);
        assert(corner_fits(f, 0));
        assert(corner_fits(f, 1));
        assert(corner_fits(f, 2));
        assert(corner_fits(f, 3));
    }
}

/// A top or bottom rectangle at column `col`, from row `row` over `height` rows, lies inside the chunk.
pub(crate) proof fn lemma_flat_face_ok(dir: u32, h: int, col: int, row: int, width: int, height: int, data: u32)
    requires
        dir == 0 || dir == 5,
        0 <= h < 32,
        0 <= col,
        1 <= width,
        col + width <= 32,
        0 <= row,
        1 <= height,
        row + height <= 32,
        data < 0x2_0000,
    ensures
        face_ok(
            Face {
                dir,
                h: h as u32,
                x: col as u32,
                y: (if dir == 0 { row } else { 31 - row }) as u32,
                width: width as u32,
                height: height as u32,
                data,
            },
        ),
{
    let f = Face {
        dir,
        h: h as u32,
        x: col as u32,
        y: (if dir == 0 { row } else { 31 - row }) as u32,
        width: width as u32,
        height: height as u32,
        data,
    };
    assert(f.h == h && f.width == width && f.height == height && f.x == col);
    if dir == 0 {
        assert(f.y == row);
    } else {
        assert(f.y == 31 - row);
    }
}

/// Every unit cell that `f` covers is a drawn face of the chunk, in `f`'s
/// direction, with `f`'s payload.
pub open spec fn face_sound(c: Seq<u32>, f: Face) -> bool {
    forall|t: int, x: int, y: int|
        0 <= t < 32 && 0 <= x < 32 && 0 <= y < 32 && #[trigger] covers(f, t, x, y) ==> {
            &&& face_visible(c, f.dir, t + 1, x + 1, y + 1)
            &&& face_payload(c, f.dir, t + 1, x + 1, y + 1) == f.data
        }
}

pub open spec fn faces_sound(c: Seq<u32>, fs: Seq<Face>) -> bool {
    forall|k: int| 0 <= k < fs.len() ==> face_sound(c, #[trigger] fs[k])
}

/// Every cell of the rectangle of `width` columns from `col` in row `row` of
/// the side plane of `dir`, over slabs `t0 .. t0 + height`, holds payload `p`.
pub open spec fn side_rect_holds(c: Seq<u32>, dir: u32, row: int, col: int, width: int, t0: int, height: int, p: int) -> bool {
    forall|t: int, k: int|
        t0 <= t < t0 + height && col <= k < col + width ==> #[trigger] plane_value(c, dir, t, row, k) == p
}

/// Every cell of the rectangle of `width` columns from `col` over rows
/// `row0 .. row0 + height` of the flat plane of `dir` in slab `t` holds payload `p`.
pub open spec fn flat_rect_holds(c: Seq<u32>, dir: u32, t: int, row0: int, col: int, width: int, height: int, p: int) -> bool {
    forall|r: int, k: int|
        row0 <= r < row0 + height && col <= k < col + width ==> #[trigger] plane_value(c, dir, t, r, k) == p
}

pub(crate) proof fn lemma_side_face_sound(c: Seq<u32>, dir: u32, row: int, col: int, width: int, t0: int, height: int, p: u32)
    requires
        1 <= dir <= 4,
        0 <= row < 32,
        0 <= col,
        1 <= width,
        col + width <= 32,
        0 <= t0,
        1 <= height,
        t0 + height <= 32,
        p != 0,
        side_rect_holds(c, dir, row, col, width, t0, height, p as int),
    ensures
        face_sound(
            c,
            Face {
                dir,
                h: t0 as u32,
                x: side_origin(dir, col, row).0 as u32,
                y: side_origin(dir, col, row).1 as u32,
                width: width as u32,
                height: height as u32,
                data: p,
            },
        ),
{
    let f = Face {
        dir,
        h: t0 as u32,
        x: side_origin(dir, col, row).0 as u32,
        y: side_origin(dir, col, row).1 as u32,
        width: width as u32,
        height: height as u32,
        data: p,
    };
    assert forall|t: int, x: int, y: int|
        0 <= t < 32 && 0 <= x < 32 && 0 <= y < 32 && #[trigger] covers(f, t, x, y) implies {
        &&& face_visible(c, f.dir, t + 1, x + 1, y + 1)
        &&& face_payload(c, f.dir, t + 1, x + 1, y + 1) == f.data
    } by {
        let k = if dir == 1 {
            x
        } else if dir == 2 {
            31 - y
        } else if dir == 3 {
            31 - x
        } else {
            y
        };
        assert(t0 <= t < t0 + height && col <= k < col + width);
        assert(plane_origin(dir, k, row) == (x, y));
        assert(plane_value(c, dir, t, row, k) == p);
    }
}

pub(crate) proof fn lemma_flat_face_sound(c: Seq<u32>, dir: u32, t: int, row0: int, col: int, width: int, height: int, p: u32)
    requires
        dir == 0 || dir == 5,
        0 <= t < 32,
        0 <= row0,
        0 <= col,
        1 <= width,
        col + width <= 32,
        1 <= height,
        row0 + height <= 32,
        p != 0,
        flat_rect_holds(c, dir, t, row0, col, width, height, p as int),
    ensures
        face_sound(
            c,
            Face {
                dir,
                h: t as u32,
                x: col as u32,
                y: (if dir == 0 { row0 } else { 31 - row0 }) as u32,
                width: width as u32,
                height: height as u32,
                data: p,
            },
        ),
{
    let f = Face {
        dir,
        h: t as u32,
        x: col as u32,
        y: (if dir == 0 { row0 } else { 31 - row0 }) as u32,
        width: width as u32,
        height: height as u32,
        data: p,
    };
    assert forall|tt: int, x: int, y: int|
        0 <= tt < 32 && 0 <= x < 32 && 0 <= y < 32 && #[trigger] covers(f, tt, x, y) implies {
        &&& face_visible(c, f.dir, tt + 1, x + 1, y + 1)
        &&& face_payload(c, f.dir, tt + 1, x + 1, y + 1) == f.data
    } by {
        let r = if dir == 0 { y } else { 31 - y };
        assert(tt == t && row0 <= r < row0 + height && col <= x < col + width);
        assert(plane_origin(dir, x, r) == (x, y));
        assert(plane_value(c, dir, t, r, x) == p);
    }
}

/// Some emitted face of direction `dir` covers unit cell `(t, x, y)`.
pub open spec fn covered_by(fs: Seq<Face>, dir: u32, t: int, x: int, y: int) -> bool {
    exists|k: int| 0 <= k < fs.len() && fs[k].dir == dir && #[trigger] covers(fs[k], t, x, y)
}

/// The pending cell `v` at column `c0`, with `s` layers done, covers layer `t` of column `col`.
pub open spec fn pending_covers(v: u32, s: int, c0: int, t: int, col: int) -> bool {
    &&& v != 0
    &&& c0 <= col < c0 + cell_width(v)
    &&& s - cell_height(v) <= t < s
}

pub(crate) proof fn lemma_covered_push(fs: Seq<Face>, f: Face, dir: u32, t: int, x: int, y: int)
    requires
        covered_by(fs, dir, t, x, y),
    ensures
        covered_by(fs.push(f), dir, t, x, y),
{
    let k = choose|k: int| 0 <= k < fs.len() && fs[k].dir == dir && #[trigger] covers(fs[k], t, x, y);
    assert(fs.push(f)[k] == fs[k]);
}

pub(crate) proof fn lemma_covered_last(fs: Seq<Face>, f: Face, t: int, x: int, y: int)
    requires
        covers(f, t, x, y),
    ensures
        covered_by(fs.push(f), f.dir, t, x, y),
{
    assert(fs.push(f)[fs.len() as int] == f);
}

/// The rectangle built from a side-plane cell covers each cell of its rectangle.
pub(crate) proof fn lemma_side_face_covers(dir: u32, row: int, col0: int, width: int, t0: int, height: int, p: u32, t: int, col: int)
    requires
        1 <= dir <= 4,
        0 <= row < 32,
        0 <= col0,
        1 <= width,
        col0 + width <= 32,
        0 <= t0,
        1 <= height,
        t0 + height <= 32,
        t0 <= t < t0 + height,
        col0 <= col < col0 + width,
    ensures
        covers(
            Face {
                dir,
                h: t0 as u32,
                x: side_origin(dir, col0, row).0 as u32,
                y: side_origin(dir, col0, row).1 as u32,
                width: width as u32,
                height: height as u32,
                data: p,
            },
            t,
            side_origin(dir, col, row).0,
            side_origin(dir, col, row).1,
        ),
{
}

/// The rectangle built from a flat-plane cell covers each cell of its rectangle.
pub(crate) proof fn lemma_flat_face_covers(dir: u32, t: int, row0: int, col0: int, width: int, height: int, p: u32, r: int, col: int)
    requires
        dir == 0 || dir == 5,
        0 <= t < 32,
        0 <= row0,
        0 <= col0,
        1 <= width,
        col0 + width <= 32,
        1 <= height,
        row0 + height <= 32,
        row0 <= r < row0 + height,
        col0 <= col < col0 + width,
    ensures
        covers(
            Face {
                dir,
                h: t as u32,
                x: col0 as u32,
                y: (if dir == 0 { row0 } else { 31 - row0 }) as u32,
                width: width as u32,
                height: height as u32,
                data: p,
            },
            t,
            plane_origin(dir, col, r).0,
            plane_origin(dir, col, r).1,
        ),
{
}

/// `a` is a prefix of `b`.
pub open spec fn prefix_of(a: Seq<Face>, b: Seq<Face>) -> bool {
    a.len() <= b.len() && forall|k: int| 0 <= k < a.len() ==> #[trigger] b[k] == a[k]
}

pub(crate) proof fn lemma_covered_prefix(fs1: Seq<Face>, fs2: Seq<Face>, dir: u32, t: int, x: int, y: int)
    requires
        prefix_of(fs1, fs2),
        covered_by(fs1, dir, t, x, y),
    ensures
        covered_by(fs2, dir, t, x, y),
{
    let k = choose|k: int| 0 <= k < fs1.len() && fs1[k].dir == dir && #[trigger] covers(fs1[k], t, x, y);
    assert(fs2[k] == fs1[k]);
}

pub(crate) proof fn lemma_prefix_push(a: Seq<Face>, b: Seq<Face>, f: Face)
    requires
        prefix_of(a, b),
    ensures
        prefix_of(a, b.push(f)),
        prefix_of(b, b.push(f)),
{
    assert forall|k: int| 0 <= k < a.len() implies #[trigger] b.push(f)[k] == a[k] by {
        assert(b.push(f)[k] == b[k]);
    }
    assert forall|k: int| 0 <= k < b.len() implies #[trigger] b.push(f)[k] == b[k] by {}
}

pub(crate) proof fn lemma_prefix_refl(a: Seq<Face>)
    ensures
        prefix_of(a, a),
{
}

/// `f` covers no unit cell that a face of `fs` with its direction covers.
pub open spec fn fresh(fs: Seq<Face>, f: Face) -> bool {
    forall|t: int, x: int, y: int|
        0 <= t < 32 && 0 <= x < 32 && 0 <= y < 32 && #[trigger] covers(f, t, x, y) ==> !covered_by(fs, f.dir, t, x, y)
}

/// No unit cell is covered by two faces of `fs` of the same direction.
pub open spec fn faces_disjoint(fs: Seq<Face>) -> bool {
    forall|k: int| 0 <= k < fs.len() ==> fresh(#[trigger] fs.take(k), fs[k])
}

pub(crate) proof fn lemma_disjoint_push(fs: Seq<Face>, f: Face)
    requires
        faces_disjoint(fs),
        fresh(fs, f),
    ensures
        faces_disjoint(fs.push(f)),
{
    let fs1 = fs.push(f);
    assert forall|k: int| 0 <= k < fs1.len() implies fresh(#[trigger] fs1.take(k), fs1[k]) by {
        if k < fs.len() {
            assert(fs1.take(k) =~= fs.take(k));
            assert(fresh(fs.take(k), fs[k]));
        } else {
            assert(fs1.take(k) =~= fs);
        }
    }
}

/// The side face built from a rectangle covers only cells of that rectangle.
pub(crate) proof fn lemma_side_face_covers_only(dir: u32, row: int, col0: int, width: int, t0: int, height: int, p: u32, t: int, x: int, y: int)
    requires
        1 <= dir <= 4,
        0 <= row < 32,
        0 <= col0,
        1 <= width,
        col0 + width <= 32,
        0 <= t0,
        1 <= height,
        t0 + height <= 32,
        0 <= t < 32,
        0 <= x < 32,
        0 <= y < 32,
        covers(
            Face {
                dir,
                h: t0 as u32,
                x: side_origin(dir, col0, row).0 as u32,
                y: side_origin(dir, col0, row).1 as u32,
                width: width as u32,
                height: height as u32,
                data: p,
            },
            t,
            x,
            y,
        ),
    ensures
        t0 <= t < t0 + height,
        col0 <= plane_pos(dir, x, y).0 < col0 + width,
        plane_pos(dir, x, y).1 == row,
        side_origin(dir, plane_pos(dir, x, y).0, row) == (x, y),
{
}

/// The flat face built from a rectangle covers only cells of that rectangle.
pub(crate) proof fn lemma_flat_face_covers_only(dir: u32, t0: int, row0: int, col0: int, width: int, height: int, p: u32, t: int, x: int, y: int)
    requires
        dir == 0 || dir == 5,
        0 <= t0 < 32,
        0 <= row0,
        0 <= col0,
        1 <= width,
        col0 + width <= 32,
        1 <= height,
        row0 + height <= 32,
        0 <= t < 32,
        0 <= x < 32,
        0 <= y < 32,
        covers(
            Face {
                dir,
                h: t0 as u32,
                x: col0 as u32,
                y: (if dir == 0 { row0 } else { 31 - row0 }) as u32,
                width: width as u32,
                height: height as u32,
                data: p,
            },
            t,
            x,
            y,
        ),
    ensures
        t == t0,
        col0 <= plane_pos(dir, x, y).0 < col0 + width,
        row0 <= plane_pos(dir, x, y).1 < row0 + height,
        plane_origin(dir, plane_pos(dir, x, y).0, plane_pos(dir, x, y).1) == (x, y),
{
}

pub(crate) proof fn lemma_covered_split(fs: Seq<Face>, f: Face, dir: u32, t: int, x: int, y: int)
    requires
        covered_by(fs.push(f), dir, t, x, y),
    ensures
        covered_by(fs, dir, t, x, y) || (f.dir == dir && covers(f, t, x, y)),
{
    let k = choose|k: int| 0 <= k < fs.push(f).len() && fs.push(f)[k].dir == dir && #[trigger] covers(fs.push(f)[k], t, x, y);
    if k < fs.len() {
        assert(fs.push(f)[k] == fs[k]);
    }
}

/// The faces added after `a` in `b` all have direction `dir`.
pub open spec fn added_dir(a: Seq<Face>, b: Seq<Face>, dir: u32) -> bool {
    forall|k: int| a.len() <= k < b.len() ==> (#[trigger] b[k]).dir == dir
}

pub(crate) proof fn lemma_added_dir_push(a: Seq<Face>, b: Seq<Face>, f: Face, dir: u32)
    requires
        added_dir(a, b, dir),
        a.len() <= b.len(),
        f.dir == dir,
    ensures
        added_dir(a, b.push(f), dir),
{
    assert forall|k: int| a.len() <= k < b.push(f).len() implies (#[trigger] b.push(f)[k]).dir == dir by {
        if k < b.len() {
            assert(b.push(f)[k] == b[k]);
        }
    }
}

/// Faces of another direction leave coverage of direction `dir` as it was.
pub(crate) proof fn lemma_covered_other_dir(a: Seq<Face>, b: Seq<Face>, d: u32, dir: u32, t: int, x: int, y: int)
    requires
        prefix_of(a, b),
        added_dir(a, b, d),
        d != dir,
        covered_by(b, dir, t, x, y),
    ensures
        covered_by(a, dir, t, x, y),
{
    let k = choose|k: int| 0 <= k < b.len() && b[k].dir == dir && #[trigger] covers(b[k], t, x, y);
    assert(k < a.len());
    assert(b[k] == a[k]);
}

pub(crate) proof fn lemma_sound_push(c: Seq<u32>, fs: Seq<Face>, f: Face)
    requires
        faces_sound(c, fs),
        face_sound(c, f),
    ensures
        faces_sound(c, fs.push(f)),
{
    assert forall|k: int| 0 <= k < fs.push(f).len() implies face_sound(c, #[trigger] fs.push(f)[k]) by {
        if k < fs.len() {
            assert(fs.push(f)[k] == fs[k]);
        }
    }
}

/// Every drawn face with a non-zero payload lies in one of the faces `fs`.
pub open spec fn faces_complete(c: Seq<u32>, fs: Seq<Face>) -> bool {
    forall|d: u32, t: int, x: int, y: int|
        d < 6 && 0 <= t < 32 && 0 <= x < 32 && 0 <= y < 32 && face_visible(c, d, t + 1, x + 1, y + 1) && #[trigger] face_payload(
            c,
            d,
            t + 1,
            x + 1,
            y + 1,
        ) != 0 ==> covered_by(fs, d, t, x, y)
}

/// Two faces of `fs` of one direction that cover the same unit cell are the same face.
pub proof fn lemma_cover_unique(fs: Seq<Face>, j1: int, j2: int, t: int, x: int, y: int)
    requires
        faces_disjoint(fs),
        0 <= j1 < fs.len(),
        0 <= j2 < fs.len(),
        fs[j1].dir == fs[j2].dir,
        0 <= t < 32 && 0 <= x < 32 && 0 <= y < 32,
        covers(fs[j1], t, x, y),
        covers(fs[j2], t, x, y),
    ensures
        j1 == j2,
{
    if j1 < j2 {
        assert(fresh(fs.take(j2), fs[j2]));
        assert(fs.take(j2)[j1] == fs[j1]);
        assert(covered_by(fs.take(j2), fs[j2].dir, t, x, y));
    } else if j2 < j1 {
        assert(fresh(fs.take(j1), fs[j1]));
        assert(fs.take(j1)[j2] == fs[j2]);
        assert(covered_by(fs.take(j1), fs[j1].dir, t, x, y));
    }
}

} // verus!
