//! The face encoder: packs one quad into six vertices of two words each, and
//! routes it to the solid or the water stream.
use vstd::prelude::*;
use crate::blocks::{CHUNK_SIZE, WATER_TEXTURE};
use crate::direction::DIRECTION_UP;

verus! {

/// One quad: a direction, the origin cell `(x, y, h)`, its size along the
/// direction's width and height axes, and its payload `(texture << 8) | ao`.
pub struct Face {
    pub dir: u32,
    pub h: u32,
    pub x: u32,
    pub y: u32,
    pub width: u32,
    pub height: u32,
    pub data: u32,
}

/// Offset of the quad's first corner from the origin cell, per direction and axis (x, y, h).
pub open spec fn vertex_offset(dir: u32, axis: int) -> int {
    let v: (int, int, int) = if dir == 0 {
        (0, 0, 1)
    } else if dir == 1 {
        (0, 0, 0)
    } else if dir == 2 {
        (0, 1, 0)
    } else if dir == 3 {
        (1, 1, 0)
    } else if dir == 4 {
        (1, 0, 0)
    } else {
        (0, 1, 0)
    };
    if axis == 0 { v.0 } else if axis == 1 { v.1 } else { v.2 }
}

/// The world axis vector along which a quad's width extends.
pub open spec fn merge_w(dir: u32, axis: int) -> int {
    let v: (int, int, int) = if dir == 0 || dir == 1 || dir == 5 {
        (1, 0, 0)
    } else if dir == 2 {
        (0, -1, 0)
    } else if dir == 3 {
        (-1, 0, 0)
    } else {
        (0, 1, 0)
    };
    if axis == 0 { v.0 } else if axis == 1 { v.1 } else { v.2 }
}

/// The world axis vector along which a quad's height extends.
pub open spec fn merge_h(dir: u32, axis: int) -> int {
    let v: (int, int, int) = if dir == 0 {
        (0, 1, 0)
    } else if dir == 5 {
        (0, -1, 0)
    } else {
        (0, 0, 1)
    };
    if axis == 0 { v.0 } else if axis == 1 { v.1 } else { v.2 }
}

/// Whether corner `m` (0..4, counter-clockwise from the origin) takes the width span.
pub open spec fn mask_w(m: int) -> int {
    if m == 1 || m == 2 { 1 } else { 0 }
}

/// Whether corner `m` takes the height span.
pub open spec fn mask_h(m: int) -> int {
    if m == 2 || m == 3 { 1 } else { 0 }
}

/// The four corner sequences of the two triangles, by row `flip * 2 + reversed`.
pub open spec fn winding(row: int, i: int) -> int {
    let r: Seq<int> = if row == 0 {
        seq![0, 1, 2, 0, 2, 3]
    } else if row == 1 {
        seq![3, 2, 0, 2, 1, 0]
    } else if row == 2 {
        seq![1, 2, 3, 1, 3, 0]
    } else {
        seq![0, 3, 1, 3, 2, 1]
    };
    r[i]
}

/// The texture ID of a payload.
pub open spec fn texture(data: u32) -> int {
    data as int / 256
}

/// The AO value of corner `m` of a payload: bits `2m, 2m + 1`.
pub open spec fn corner_ao(data: u32, m: int) -> int {
    let d = data as int % 256;
    if m == 0 {
        d % 4
    } else if m == 1 {
        (d / 4) % 4
    } else if m == 2 {
        (d / 16) % 4
    } else {
        d / 64
    }
}

/// The triangulation is flipped when the darker corners lie on the 0-2 diagonal.
pub open spec fn flip(data: u32) -> bool {
    corner_ao(data, 0) + corner_ao(data, 2) > corner_ao(data, 1) + corner_ao(data, 3)
}

/// The winding row used for a payload.
pub open spec fn winding_row(data: u32, reversed: bool) -> int {
    (if flip(data) { 2int } else { 0int }) + (if reversed { 1int } else { 0int })
}

/// A face goes to the water stream iff its texture is the water texture.
pub open spec fn is_water_face(f: Face) -> bool {
    texture(f.data) == WATER_TEXTURE
}

/// The lowering flag: 2 for the top of water, otherwise 0.
pub open spec fn lowering(f: Face) -> int {
    if is_water_face(f) && f.dir == DIRECTION_UP { 2 } else { 0 }
}

/// `n` steps along a unit axis direction `v` in `{-1, 0, 1}`.
pub open spec fn steps(v: int, n: int) -> int {
    if v == 1 {
        n
    } else if v == -1 {
        -n
    } else {
        0
    }
}

/// Coordinate `axis` (0 = x, 1 = y, 2 = h) of corner `m` of a face: the origin,
/// the direction's offset, then the width span and the height span where the
/// corner takes them.
pub open spec fn corner_coord(f: Face, m: int, axis: int) -> int {
    let origin = if axis == 0 { f.x as int } else if axis == 1 { f.y as int } else { f.h as int };
    let w = if mask_w(m) == 1 { f.width as int } else { 0 };
    let ht = if mask_h(m) == 1 { f.height as int } else { 0 };
    origin + vertex_offset(f.dir, axis) + steps(merge_w(f.dir, axis), w) + steps(merge_h(f.dir, axis), ht)
}

pub open spec fn corner_fits(f: Face, m: int) -> bool {
    &&& 0 <= corner_coord(f, m, 0) <= CHUNK_SIZE
    &&& 0 <= corner_coord(f, m, 1) <= CHUNK_SIZE
    &&& 0 <= corner_coord(f, m, 2) <= CHUNK_SIZE
}

/// A face the encoder accepts: one of the six directions, a size in `1..=S`
/// on each axis, a 17-bit payload, and all four corners inside the chunk.
pub open spec fn face_ok(f: Face) -> bool {
    &&& f.dir < 6
    &&& 1 <= f.width <= CHUNK_SIZE
    &&& 1 <= f.height <= CHUNK_SIZE
    &&& f.data < 0x2_0000
    &&& corner_fits(f, 0)
    &&& corner_fits(f, 1)
    &&& corner_fits(f, 2)
    &&& corner_fits(f, 3)
}

/// Word 0 of a vertex at corner `m`: `h` in bits 14.., `y` in bits 7..14, `x` in bits 0..7.
pub open spec fn position_word(f: Face, m: int) -> u32 {
    (corner_coord(f, m, 2) * 0x4000 + corner_coord(f, m, 1) * 0x80 + corner_coord(f, m, 0)) as u32
}

/// Word 1 of a vertex at corner `m`: lowering, AO, texture, direction and the
/// spans that this corner carries.
pub open spec fn attribute_word(f: Face, m: int) -> u32 {
    (lowering(f) * 0x2000_0000 + corner_ao(f.data, m) * 0x800_0000 + (texture(f.data) % 256) * 0x8_0000
        + f.dir * 0x1_0000 + f.height * mask_h(m) * 0x80 + f.width * mask_w(m)) as u32
}

/// The twelve words of a face: for each of the six winding slots, position then attributes.
pub open spec fn face_words(f: Face, reversed: bool) -> Seq<u32> {
    Seq::new(
        12,
        |k: int|
            {
                let m = winding(winding_row(f.data, reversed), k / 2);
                if k % 2 == 0 {
                    position_word(f, m)
                } else {
                    attribute_word(f, m)
                }
            },
    )
}

/// The two output streams, solid then water.
pub type Streams = (Seq<u32>, Seq<u32>);

/// The streams after encoding one more face.
pub open spec fn push_face(s: Streams, f: Face) -> Streams {
    if is_water_face(f) {
        (s.0, s.1 + face_words(f, false))
    } else {
        (s.0 + face_words(f, false), s.1)
    }
}

/// The streams after encoding `fs` in order, starting from `s`.
pub open spec fn emit_onto(s: Streams, fs: Seq<Face>) -> Streams
    decreases fs.len(),
{
    if fs.len() == 0 {
        s
    } else {
        push_face(emit_onto(s, fs.drop_last()), fs.last())
    }
}

/// The streams produced by encoding `fs` into empty buffers.
pub open spec fn emit_all(fs: Seq<Face>) -> Streams {
    emit_onto((Seq::empty(), Seq::empty()), fs)
}

/// Encoding two runs of faces is encoding the first, then the second.
pub proof fn lemma_emit_concat(s: Streams, a: Seq<Face>, b: Seq<Face>)
    ensures
        emit_onto(s, a + b) == emit_onto(emit_onto(s, a), b),
    decreases b.len(),
{
    if b.len() == 0 {
        assert(a + b =~= a);
    } else {
        assert((a + b).drop_last() =~= a + b.drop_last());
        assert((a + b).last() == b.last());
        lemma_emit_concat(s, a, b.drop_last());
    }
}

/// Encoding one more face is pushing it onto the streams.
pub proof fn lemma_emit_push(s: Streams, a: Seq<Face>, f: Face)
    ensures
        emit_onto(s, a.push(f)) == push_face(emit_onto(s, a), f),
{
    assert(a.push(f).drop_last() =~= a);
}

/// A unit quad whose origin lies inside the chunk fits the encoder.
pub proof fn lemma_unit_face_ok(f: Face)
    requires
        f.dir < 6,
        f.width == 1,
        f.height == 1,
        f.h < CHUNK_SIZE,
        f.x < CHUNK_SIZE,
        f.y < CHUNK_SIZE,
        f.data < 0x2_0000,
    ensures
        face_ok(f),
{
    assert(face_ok(f)) by {
        if f.dir == 0 {
        } else if f.dir == 1 {
        } else if f.dir == 2 {
        } else if f.dir == 3 {
        } else if f.dir == 4 {
        } else {
        }
    }
}

/// Encoding `fs` adds twelve words per face over the two streams.
pub proof fn lemma_emit_len(s: Streams, fs: Seq<Face>)
    ensures
        emit_onto(s, fs).0.len() + emit_onto(s, fs).1.len() == s.0.len() + s.1.len() + 12 * fs.len(),
    decreases fs.len(),
{
    if fs.len() > 0 {
        lemma_emit_len(s, fs.drop_last());
        let f = fs.last();
        assert(face_words(f, false).len() == 12);
    }
}

/// The words of the faces of `fs` that go to the water stream (`water`) or to
/// the solid stream (`!water`), in order.
pub open spec fn words_of_kind(fs: Seq<Face>, water: bool) -> Seq<u32>
    decreases fs.len(),
{
    if fs.len() == 0 {
        Seq::empty()
    } else {
        words_of_kind(fs.drop_last(), water) + if is_water_face(fs.last()) == water {
            face_words(fs.last(), false)
        } else {
            Seq::empty()
        }
    }
}

/// The solid stream holds exactly the faces whose texture is not the water
/// texture, and the water stream exactly those whose texture is.
pub proof fn lemma_streams_split_by_texture(fs: Seq<Face>)
    ensures
        emit_all(fs).0 == words_of_kind(fs, false),
        emit_all(fs).1 == words_of_kind(fs, true),
    decreases fs.len(),
{
    if fs.len() > 0 {
        lemma_streams_split_by_texture(fs.drop_last());
        let f = fs.last();
        if is_water_face(f) {
            assert(words_of_kind(fs, false) =~= words_of_kind(fs.drop_last(), false));
        } else {
            assert(words_of_kind(fs, true) =~= words_of_kind(fs.drop_last(), true));
        }
    }
}

/// The triangulation flips exactly when corners 0 and 2 are darker than
/// corners 1 and 3: the two triangles then share the 1-3 diagonal instead of
/// the 0-2 one.
pub proof fn lemma_flip_follows_darker_diagonal(f: Face)
    ensures
        (winding_row(f.data, false) == 2) <==> (corner_ao(f.data, 0) + corner_ao(f.data, 2) > corner_ao(f.data, 1)
            + corner_ao(f.data, 3)),
        corner_ao(f.data, 0) + corner_ao(f.data, 2) > corner_ao(f.data, 1) + corner_ao(f.data, 3) ==> {
            &&& face_words(f, false)[0] == position_word(f, 1)
            &&& face_words(f, false)[4] == position_word(f, 3)
            &&& face_words(f, false)[6] == position_word(f, 1)
            &&& face_words(f, false)[8] == position_word(f, 3)
        },
        corner_ao(f.data, 0) + corner_ao(f.data, 2) <= corner_ao(f.data, 1) + corner_ao(f.data, 3) ==> {
            &&& face_words(f, false)[0] == position_word(f, 0)
            &&& face_words(f, false)[4] == position_word(f, 2)
            &&& face_words(f, false)[6] == position_word(f, 0)
            &&& face_words(f, false)[8] == position_word(f, 2)
        },
{
}

/// The least coordinate `axis` of the quad `f` spans.
pub open spec fn span_lo(f: Face, axis: int) -> int {
    let a = corner_coord(f, 0, axis);
    let b = corner_coord(f, 2, axis);
    if a <= b { a } else { b }
}

/// The greatest coordinate `axis` of the quad `f` spans.
pub open spec fn span_hi(f: Face, axis: int) -> int {
    let a = corner_coord(f, 0, axis);
    let b = corner_coord(f, 2, axis);
    if a <= b { b } else { a }
}

/// The unit quad of `f`'s direction whose origin cell is `(t, x, y)`.
pub open spec fn unit_quad(f: Face, t: int, x: int, y: int) -> Face {
    Face { dir: f.dir, h: t as u32, x: x as u32, y: y as u32, width: 1, height: 1, data: f.data }
}

/// The unit quad of cell `(t, x, y)` lies inside the quad `f`.
pub open spec fn covers(f: Face, t: int, x: int, y: int) -> bool {
    let u = unit_quad(f, t, x, y);
    &&& span_lo(f, 0) <= span_lo(u, 0) && span_hi(u, 0) <= span_hi(f, 0)
    &&& span_lo(f, 1) <= span_lo(u, 1) && span_hi(u, 1) <= span_hi(f, 1)
    &&& span_lo(f, 2) <= span_lo(u, 2) && span_hi(u, 2) <= span_hi(f, 2)
}

} // verus!
