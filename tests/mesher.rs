use voxel_mesher::array3d::Array3D;
use voxel_mesher::face_buffer::FaceBuffer;
use voxel_mesher::greedy::create_mesh;
use voxel_mesher::quick::create_mesh_quick;

const E: usize = 34;
const SOLID: u32 = 0x8000_0000;
const STONE: u32 = SOLID | 1;
const WATER: u32 = 6;

fn empty_chunk() -> Vec<u32> {
    vec![0u32; E * E * E]
}

fn at(h: usize, x: usize, y: usize) -> usize {
    h * E * E + y * E + x
}

fn quick(data: &[u32]) -> (u32, Vec<u32>, Vec<u32>) {
    let chunk = Array3D::from_raw(data.to_vec(), 34, 34, 34);
    let mut out = Vec::new();
    let mut tmp = Vec::new();
    let n = create_mesh_quick(&chunk, &mut out, &mut tmp);
    (n, out, tmp)
}

fn greedy(data: &[u32]) -> (u32, Vec<u32>, Vec<u32>) {
    let chunk = Array3D::from_raw(data.to_vec(), 34, 34, 34);
    let mut out = Vec::new();
    let mut tmp = Vec::new();
    let n = create_mesh(&chunk, &mut out, &mut tmp);
    (n, out, tmp)
}

/// A decoded quad: direction, texture, lower flag, width, height, AO of its six vertices,
/// and the minimum corner of its vertex positions (x, y, h).
#[derive(Debug, Clone, PartialEq)]
struct Quad {
    dir: u32,
    texture: u32,
    lower: u32,
    width: u32,
    height: u32,
    ao: Vec<u32>,
    min: (u32, u32, u32),
    max: (u32, u32, u32),
}

fn decode(words: &[u32]) -> Vec<Quad> {
    assert_eq!(words.len() % 12, 0);
    words
        .chunks(12)
        .map(|q| {
            let attrs: Vec<u32> = (0..6).map(|i| q[2 * i + 1]).collect();
            let pos: Vec<(u32, u32, u32)> =
                (0..6).map(|i| (q[2 * i] & 0x7F, (q[2 * i] >> 7) & 0x7F, q[2 * i] >> 14)).collect();
            let a = attrs[0];
            for w in &attrs {
                assert_eq!(w & 0xFFFF_0000 & !(3 << 27), a & 0xFFFF_0000 & !(3 << 27));
            }
            Quad {
                dir: (a >> 16) & 7,
                texture: (a >> 19) & 0xFF,
                lower: (a >> 29) & 3,
                width: attrs.iter().map(|w| w & 0x7F).max().unwrap(),
                height: attrs.iter().map(|w| (w >> 7) & 0x7F).max().unwrap(),
                ao: attrs.iter().map(|w| (w >> 27) & 3).collect(),
                min: (
                    pos.iter().map(|p| p.0).min().unwrap(),
                    pos.iter().map(|p| p.1).min().unwrap(),
                    pos.iter().map(|p| p.2).min().unwrap(),
                ),
                max: (
                    pos.iter().map(|p| p.0).max().unwrap(),
                    pos.iter().map(|p| p.1).max().unwrap(),
                    pos.iter().map(|p| p.2).max().unwrap(),
                ),
            }
        })
        .collect()
}

/// The unit face cells a quad covers, as (dir, texture, x, y, h) of their minimum corner.
fn cells(q: &Quad) -> Vec<(u32, u32, u32, u32, u32)> {
    let mut v = Vec::new();
    let (x0, y0, h0) = q.min;
    let (x1, y1, h1) = q.max;
    for x in x0..x1.max(x0 + 1) {
        for y in y0..y1.max(y0 + 1) {
            for h in h0..h1.max(h0 + 1) {
                v.push((q.dir, q.texture, x, y, h));
            }
        }
    }
    v
}

fn covered(words: &[u32]) -> Vec<(u32, u32, u32, u32, u32)> {
    let mut v: Vec<_> = decode(words).iter().flat_map(cells).collect();
    v.sort();
    v
}

#[test]
fn empty_chunk_gives_nothing() {
    let c = empty_chunk();
    let (n, out, tmp) = quick(&c);
    assert_eq!(n, 0);
    assert!(out.is_empty() && tmp.is_empty());
    let (n, out, tmp) = greedy(&c);
    assert_eq!(n, 0);
    assert!(out.is_empty() && tmp.is_empty());
}

#[test]
fn single_block_has_six_faces_in_order() {
    let mut c = empty_chunk();
    c[at(1, 1, 1)] = STONE;
    let (n, out, tmp) = quick(&c);
    assert_eq!(n, 72);
    assert_eq!(out.len(), 72);
    assert!(tmp.is_empty());
    let quads = decode(&out);
    let dirs: Vec<u32> = quads.iter().map(|q| q.dir).collect();
    assert_eq!(dirs, vec![0, 5, 1, 2, 3, 4]);
    for q in &quads {
        assert_eq!(q.texture, 1);
        assert_eq!(q.ao, vec![0; 6]);
        assert_eq!((q.width, q.height), (1, 1));
        assert_eq!(q.lower, 0);
    }
    // UP face lies on the top of the voxel, at chunk origin
    assert_eq!(quads[0].min, (0, 0, 1));
    assert_eq!(quads[0].max, (1, 1, 1));
}

#[test]
fn single_block_words_are_exact() {
    let mut c = empty_chunk();
    c[at(1, 1, 1)] = STONE;
    let (_, out, _) = quick(&c);
    // UP face, winding 0,1,2,0,2,3; corners: (0,0,1) (1,0,1) (1,1,1) (0,1,1)
    let base = (1 << 19) | (0 << 16);
    let expected_up = vec![
        1 << 14,
        base,
        (1 << 14) | 1,
        base | 1,
        (1 << 14) | (1 << 7) | 1,
        base | 1 | (1 << 7),
        1 << 14,
        base,
        (1 << 14) | (1 << 7) | 1,
        base | 1 | (1 << 7),
        (1 << 14) | (1 << 7),
        base | (1 << 7),
    ];
    assert_eq!(&out[0..12], &expected_up[..]);
}

#[test]
fn flat_slab_merges_into_six_rectangles() {
    let mut c = empty_chunk();
    for x in 1..=4 {
        for y in 1..=4 {
            c[at(1, x, y)] = STONE;
        }
    }
    let (nq, outq, _) = quick(&c);
    assert_eq!(nq as usize, (16 + 16 + 4 * 4) * 12);
    let (n, out, _) = greedy(&c);
    let quads = decode(&out);
    assert_eq!(n as usize, out.len());
    let ups: Vec<&Quad> = quads.iter().filter(|q| q.dir == 0).collect();
    let downs: Vec<&Quad> = quads.iter().filter(|q| q.dir == 5).collect();
    assert_eq!(ups.len(), 1);
    assert_eq!(downs.len(), 1);
    assert_eq!((ups[0].width, ups[0].height), (4, 4));
    assert_eq!((downs[0].width, downs[0].height), (4, 4));
    for d in 1..=4 {
        let sides: Vec<&Quad> = quads.iter().filter(|q| q.dir == d).collect();
        assert_eq!(sides.len(), 1);
        assert_eq!((sides[0].width, sides[0].height), (4, 1));
    }
    assert_eq!(covered(&out), covered(&outq));
}

#[test]
fn water_volume_shows_only_its_top() {
    let mut c = empty_chunk();
    for h in 1..=4 {
        for x in 1..=4 {
            for y in 1..=4 {
                c[at(h, x, y)] = WATER;
            }
        }
    }
    let (n, out, tmp) = quick(&c);
    assert_eq!(n, 16 * 12);
    assert_eq!(out, tmp);
    let quads = decode(&out);
    assert_eq!(quads.len(), 16);
    for q in &quads {
        assert_eq!(q.dir, 0);
        assert_eq!(q.texture, 6);
        assert_eq!(q.lower, 2);
        assert_eq!(q.ao, vec![0; 6]);
        assert_eq!(q.max.2, 4);
    }
    let (_, gout, gtmp) = greedy(&c);
    assert_eq!(gout, gtmp);
    let g = decode(&gout);
    assert_eq!(g.len(), 1);
    assert_eq!((g[0].width, g[0].height), (4, 4));
}

#[test]
fn adjacent_blocks_hide_shared_faces() {
    let mut c = empty_chunk();
    c[at(1, 1, 1)] = STONE;
    c[at(1, 2, 1)] = STONE;
    let (n, out, _) = quick(&c);
    assert_eq!(n, 10 * 12);
    let quads = decode(&out);
    assert_eq!(quads.iter().filter(|q| q.dir == 2).count(), 1);
    assert_eq!(quads.iter().filter(|q| q.dir == 4).count(), 1);
    let (_, gout, _) = greedy(&c);
    assert_eq!(covered(&gout), covered(&out));
}

#[test]
fn diagonal_neighbor_darkens_one_corner() {
    let mut c = empty_chunk();
    c[at(1, 1, 1)] = STONE;
    c[at(2, 0, 0)] = STONE;
    let (_, out, _) = quick(&c);
    let up = &out[0..12];
    assert_eq!((up[1] >> 16) & 7, 0);
    // the corner at the voxel's origin, (0, 0) on top of it, is the darkened one
    for v in 0..6 {
        let shade = (up[2 * v + 1] >> 27) & 3;
        if up[2 * v] == 1 << 14 {
            assert_eq!(shade, 1);
        } else {
            assert_eq!(shade, 0);
        }
    }
    // corners 0 and 2 outweigh corners 1 and 3: the winding flips and starts at corner 1
    assert_eq!(up[0], (1 << 14) | 1);
}

#[test]
fn two_solid_edges_give_full_shadow() {
    let mut c = empty_chunk();
    c[at(1, 1, 1)] = STONE;
    c[at(2, 0, 1)] = STONE;
    c[at(2, 1, 0)] = STONE;
    let (_, out, _) = quick(&c);
    let quads = decode(&out);
    assert_eq!(quads[0].dir, 0);
    assert!(quads[0].ao.contains(&3));
}

#[test]
fn buried_block_emits_nothing() {
    let mut c = empty_chunk();
    for h in 1..=3 {
        for x in 1..=3 {
            for y in 1..=3 {
                c[at(h, x, y)] = STONE;
            }
        }
    }
    let (n, out, _) = quick(&c);
    // only the 54 outer unit faces of the cube; none around the centre voxel
    assert_eq!(n, 54 * 12);
    for q in decode(&out) {
        let (x, y, h) = q.min;
        let (x1, y1, h1) = q.max;
        assert!(x == 0 || y == 0 || h == 0 || x1 == 3 || y1 == 3 || h1 == 3);
    }
}

#[test]
fn meshing_is_deterministic() {
    let mut c = empty_chunk();
    for i in 0..(E * E * E) {
        let h = i / (E * E);
        if h >= 1 && h <= 32 && (i * 7919) % 5 == 0 {
            c[i] = if i % 3 == 0 { WATER } else { SOLID | ((i % 8) as u32 + 1) };
        }
    }
    assert_eq!(quick(&c), quick(&c));
    assert_eq!(greedy(&c), greedy(&c));
}

#[test]
fn greedy_covers_the_quick_cells_on_a_mixed_chunk() {
    let mut c = empty_chunk();
    for h in 1..=32 {
        for x in 1..=32 {
            for y in 1..=32 {
                let v = (h * 31 + x * 17 + y * 7) % 11;
                if h < 10 || v < 3 {
                    c[at(h, x, y)] = STONE;
                } else if v == 3 && h < 20 {
                    c[at(h, x, y)] = SOLID | 2;
                }
            }
        }
    }
    let (_, qout, _) = quick(&c);
    let (_, gout, _) = greedy(&c);
    assert_eq!(covered(&gout), covered(&qout));
    for q in decode(&gout) {
        assert!(q.width >= 1 && q.width <= 32);
        assert!(q.height >= 1 && q.height <= 32);
    }
}

#[test]
fn water_stream_follows_solid_stream() {
    let mut c = empty_chunk();
    c[at(1, 1, 1)] = STONE;
    c[at(1, 5, 5)] = WATER;
    let (n, out, tmp) = quick(&c);
    assert_eq!(n as usize, 7 * 12);
    assert_eq!(tmp.len(), 12);
    assert_eq!(&out[72..], &tmp[..]);
    for q in decode(&out[..72]) {
        assert_ne!(q.texture, 6);
    }
    for q in decode(&tmp) {
        assert_eq!(q.texture, 6);
    }
}

#[test]
fn flip_follows_the_darker_diagonal() {
    // ao = [2, 0, 1, 0]: corners 0 and 2 are darker, so the triangulation flips.
    let mut b = FaceBuffer::new();
    b.add_face(0, 0, 0, 0, 1, 1, (1 << 8) | 2 | (1 << 4), false);
    let w = &b.mesh_data_solid;
    // flipped winding starts at corner 1, which carries the width span only
    assert_eq!(w[0], (1 << 14) | 1);
    assert_eq!(w[1] & 0x7F, 1);
    assert_eq!((w[1] >> 7) & 0x7F, 0);
    let mut c = FaceBuffer::new();
    c.add_face(0, 0, 0, 0, 1, 1, (1 << 8) | (2 << 2) | (1 << 6), false);
    // not flipped: starts at corner 0
    assert_eq!(c.mesh_data_solid[0], 1 << 14);
    assert_eq!(c.mesh_data_solid[1] >> 27, 0);
}

#[test]
fn complete_appends_water() {
    let mut b = FaceBuffer::new();
    b.add_face(0, 0, 0, 0, 1, 1, 6 << 8, false);
    b.add_face(1, 0, 0, 0, 2, 3, 1 << 8, false);
    assert_eq!(b.mesh_data_water.len(), 12);
    assert_eq!(b.mesh_data_solid.len(), 12);
    let n = b.complete();
    assert_eq!(n, 24);
    assert_eq!(&b.mesh_data_solid[12..], &b.mesh_data_water[..]);
    // water top is lowered
    assert_eq!(b.mesh_data_water[1] >> 29, 2);
}

#[test]
fn zero_payload_faces_are_left_out_of_merging() {
    // a solid block of type 0 has texture 0 on every side, and with no
    // neighbours its AO is 0: its payload is zero, which the layer planes
    // cannot tell from "no face"
    let mut c = empty_chunk();
    c[at(1, 1, 1)] = SOLID;
    let (n, _, _) = quick(&c);
    assert_eq!(n, 72);
    let (g, _, _) = greedy(&c);
    assert_eq!(g, 0);
}
