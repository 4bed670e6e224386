//! The two output streams and the exec face encoder.
use vstd::prelude::*;
use crate::blocks::WATER_TEXTURE;
use crate::direction::DIRECTION_UP;
use crate::encoder::{
    Face, Streams, attribute_word, corner_ao, corner_coord, face_ok, face_words, is_water_face, lowering,
    merge_h, merge_w, position_word, texture, vertex_offset, winding, winding_row, steps,
};

verus! {

/// The solid stream and the water stream, each a run of encoded faces.
pub struct FaceBuffer {
    pub mesh_data_solid: Vec<u32>,
    pub mesh_data_water: Vec<u32>,
    /// The faces encoded so far, in order.
    pub faces: Ghost<Seq<Face>>,
}

/// Packs the three coordinates of a vertex position.
proof fn lemma_position_bits(x: u32, y: u32, z: u32)
    by (bit_vector)
    requires
        x <= 32,
        y <= 32,
        z <= 32,
    ensures
        (z << 14) | (y << 7) | x == z * 0x4000 + y * 0x80 + x,
{
}

/// Packs the attribute fields of a vertex.
proof fn lemma_attribute_bits(lower: u32, t: u32, d: u32, w: u32, ht: u32, mw: u32, mh: u32, a: u32)
    by (bit_vector)
    requires
        lower <= 2,
        t < 512,
        d < 8,
        w <= 32,
        ht <= 32,
        mw <= 1,
        mh <= 1,
        a <= 3,
    ensures
        (lower << 29) | ((t & 0xFF) << 19) | ((d & 7) << 16) | ((w * mw) as u32) | (((ht << 7) * mh) as u32) | (a << 27)
            == lower * 0x2000_0000 + a * 0x800_0000 + (t % 256) * 0x8_0000 + d * 0x1_0000 + ht * mh
            * 0x80 + w * mw,
{
}

/// Splits a 17-bit payload into its texture and its four AO values.
proof fn lemma_payload_bits(data: u32)
    by (bit_vector)
    requires
        data < 0x2_0000,
    ensures
        data >> 8 == data / 256,
        (data & 0xFF) & 3 == (data % 256) % 4,
        ((data & 0xFF) >> 2) & 3 == ((data % 256) / 4) % 4,
        ((data & 0xFF) >> 4) & 3 == ((data % 256) / 16) % 4,
        ((data & 0xFF) >> 6) & 3 == (data % 256) / 64,
{
}

/// The per-direction tables: first-corner offset, width axis and height axis.
fn direction_vectors(dir: u32) -> (r: ([i32; 3], [i32; 3], [i32; 3]))
    requires
        dir < 6,
    ensures
        forall|a: int|
            0 <= a < 3 ==> {
                &&& #[trigger] r.0[a] == vertex_offset(dir, a)
                &&& r.1[a] == merge_w(dir, a)
                &&& r.2[a] == merge_h(dir, a)
            },
{
    if dir == 0 {
        ([0, 0, 1], [1, 0, 0], [0, 1, 0])
    } else if dir == 1 {
        ([0, 0, 0], [1, 0, 0], [0, 0, 1])
    } else if dir == 2 {
        ([0, 1, 0], [0, -1, 0], [0, 0, 1])
    } else if dir == 3 {
        ([1, 1, 0], [-1, 0, 0], [0, 0, 1])
    } else if dir == 4 {
        ([1, 0, 0], [0, 1, 0], [0, 0, 1])
    } else {
        ([0, 1, 0], [1, 0, 0], [0, -1, 0])
    }
}

/// The six corner indices of a winding row.
fn winding_row_corners(row: u32) -> (r: [u32; 6])
    requires
        row < 4,
    ensures
        forall|i: int| 0 <= i < 6 ==> #[trigger] r[i] == winding(row as int, i),
{
    if row == 0 {
        [0, 1, 2, 0, 2, 3]
    } else if row == 1 {
        [3, 2, 0, 2, 1, 0]
    } else if row == 2 {
        [1, 2, 3, 1, 3, 0]
    } else {
        [0, 3, 1, 3, 2, 1]
    }
}

/// `n` steps along a unit axis direction `v`.
fn scaled(v: i32, n: i32) -> (r: i32)
    requires
        -1 <= v <= 1,
        0 <= n <= 32,
    ensures
        r == steps(v as int, n as int),
{
    if v == 1 {
        n
    } else if v == -1 {
        -n
    } else {
        0
    }
}

/// The two words of the vertex at corner `m` of a face.
fn encode_vertex(
    dir: u32,
    h: u32,
    x: u32,
    y: u32,
    width: u32,
    height: u32,
    data: u32,
    m: u32,
    ao: u32,
    lower: u32,
    bits: u32,
) -> (r: (u32, u32))
    requires
        face_ok(Face { dir, h, x, y, width, height, data }),
        m < 4,
        ao == corner_ao(data, m as int),
        lower == lowering(Face { dir, h, x, y, width, height, data }),
        bits == (lower << 29) | (((data >> 8) & 0xFF) << 19) | ((dir & 7) << 16),
    ensures
        r.0 == position_word(Face { dir, h, x, y, width, height, data }, m as int),
        r.1 == attribute_word(Face { dir, h, x, y, width, height, data }, m as int),
{
    let ghost f = Face { dir, h, x, y, width, height, data };
    proof {
        lemma_payload_bits(data);
    }
    let (offset, along_w, along_h) = direction_vectors(dir);
    let mw: u32 = if m == 1 || m == 2 { 1 } else { 0 };
    let mh: u32 = if m == 2 || m == 3 { 1 } else { 0 };
    let sw: i32 = if mw == 1 { width as i32 } else { 0 };
    let sh: i32 = if mh == 1 { height as i32 } else { 0 };
    let xi = x as i32 + offset[0] + scaled(along_w[0], sw) + scaled(along_h[0], sh);
    let yi = y as i32 + offset[1] + scaled(along_w[1], sw) + scaled(along_h[1], sh);
    let zi = h as i32 + offset[2] + scaled(along_w[2], sw) + scaled(along_h[2], sh);
    assert(xi == corner_coord(f, m as int, 0));
    assert(yi == corner_coord(f, m as int, 1));
    assert(zi == corner_coord(f, m as int, 2));
    let xb = xi as u32;
    let yb = yi as u32;
    let zb = zi as u32;
    proof {
        lemma_position_bits(xb, yb, zb);
        lemma_attribute_bits(lower, data >> 8, dir, width, height, mw, mh, ao);
    }
    let pos_bits = (zb << 14) | (yb << 7) | xb;
    let attr_bits = bits | (width * mw) | ((height << 7) * mh) | (ao << 27);
    (pos_bits, attr_bits)
}

impl FaceBuffer {
    pub open spec fn view(&self) -> Streams {
        (self.mesh_data_solid@, self.mesh_data_water@)
    }

    /// An empty pair of streams.
    pub fn new() -> (r: Self)
        ensures
            r@ == (Seq::<u32>::empty(), Seq::<u32>::empty()),
            r.faces@ == Seq::<Face>::empty(),
    {
        FaceBuffer { mesh_data_solid: Vec::new(), mesh_data_water: Vec::new(), faces: Ghost(Seq::empty()) }
    }

    /// Appends the water stream to the solid stream and returns the total word count.
    pub fn complete(&mut self) -> (r: u32)
        requires
            old(self)@.0.len() + old(self)@.1.len() <= u32::MAX,
        ensures
            final(self)@.0 == old(self)@.0 + old(self)@.1,
            final(self)@.1 == old(self)@.1,
            final(self).faces == old(self).faces,
            r == old(self)@.0.len() + old(self)@.1.len(),
    {
        let n = self.mesh_data_water.len();
        let mut i: usize = 0;
        while i < n
            invariant
                n == self.mesh_data_water@.len(),
                0 <= i <= n,
                self.mesh_data_water@ == old(self)@.1,
                self.faces == old(self).faces,
                self.mesh_data_solid@ == old(self)@.0 + old(self)@.1.take(i as int),
            decreases n - i,
        {
            let w = self.mesh_data_water[i];
            self.mesh_data_solid.push(w);
            proof {
                assert(old(self)@.1.take(i + 1) =~= old(self)@.1.take(i as int).push(w));
            }
            i += 1;
        }
        proof {
            assert(old(self)@.1.take(n as int) =~= old(self)@.1);
        }
        self.mesh_data_solid.len() as u32
    }

    /// Encodes one quad and appends its twelve words to the water stream when
    /// its texture is the water texture, else to the solid stream.
    pub fn add_face(
        &mut self,
        dir: u32,
        h: u32,
        x: u32,
        y: u32,
        width: u32,
        height: u32,
        data: u32,
        reverse_winding: bool,
    )
        requires
            face_ok(Face { dir, h, x, y, width, height, data }),
        ensures
            ({
                let f = Face { dir, h, x, y, width, height, data };
                if is_water_face(f) {
                    final(self)@ == (old(self)@.0, old(self)@.1 + face_words(f, reverse_winding))
                } else {
                    final(self)@ == (old(self)@.0 + face_words(f, reverse_winding), old(self)@.1)
                }
            }),
            final(self).faces@ == old(self).faces@.push(Face { dir, h, x, y, width, height, data }),
    {
        let ghost f = Face { dir, h, x, y, width, height, data };
        proof {
            lemma_payload_bits(data);
        }
        let texture_id = data >> 8;
        let shadows = data & 0xFF;
        let corner_shadows: [u32; 4] = [
            shadows & 3,
            (shadows >> 2) & 3,
            (shadows >> 4) & 3,
            (shadows >> 6) & 3,
        ];
        assert(forall|m: int| 0 <= m < 4 ==> #[trigger] corner_shadows[m] == corner_ao(data, m));
        let flip: u32 = if corner_shadows[0] + corner_shadows[2] > corner_shadows[1] + corner_shadows[3] {
            1
        } else {
            0
        };
        let reversed: u32 = if reverse_winding { 1 } else { 0 };
        let lower: u32 = if texture_id == WATER_TEXTURE && dir == DIRECTION_UP { 2 } else { 0 };
        let bits: u32 = (lower << 29) | ((texture_id & 0xFF) << 19) | ((dir & 7) << 16);
        let vns = winding_row_corners(flip * 2 + reversed);
        let ghost words = face_words(f, reverse_winding);
        let ghost solid0 = self@.0;
        let ghost water0 = self@.1;
        let water = texture_id == WATER_TEXTURE;
        let mut i: usize = 0;
        while i < 6
            invariant
                0 <= i <= 6,
                f == (Face { dir, h, x, y, width, height, data }),
                face_ok(f),
                words == face_words(f, reverse_winding),
                water == is_water_face(f),
                forall|k: int| 0 <= k < 6 ==> #[trigger] vns[k] == winding(winding_row(data, reverse_winding), k),
                forall|m: int| 0 <= m < 4 ==> #[trigger] corner_shadows[m] == corner_ao(data, m),
                bits == (lower << 29) | ((texture_id & 0xFF) << 19) | ((dir & 7) << 16),
                lower == lowering(f),
                texture_id == texture(data),
                texture_id == data >> 8,
                water ==> self@ == (solid0, water0 + words.take(2 * i)),
                !water ==> self@ == (solid0 + words.take(2 * i), water0),
                self.faces == old(self).faces,
            decreases 6 - i,
        {
            let vn = vns[i];
            let (pos_bits, attr_bits) = encode_vertex(
                dir,
                h,
                x,
                y,
                width,
                height,
                data,
                vn,
                corner_shadows[vn as usize],
                lower,
                bits,
            );
            assert(words[2 * i as int] == pos_bits);
            assert(words[2 * i as int + 1] == attr_bits);
            if water {
                self.mesh_data_water.push(pos_bits);
                self.mesh_data_water.push(attr_bits);
            } else {
                self.mesh_data_solid.push(pos_bits);
                self.mesh_data_solid.push(attr_bits);
            }
            proof {
                assert(words.take(2 * i + 2) =~= words.take(2 * i).push(pos_bits).push(attr_bits));
            }
            i += 1;
        }
        proof {
            assert(words.take(12) =~= words);
            self.faces = Ghost(self.faces@.push(f));
        }
    }
}

} // verus!
