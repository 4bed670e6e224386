use voxel_mesher::array3d::Array3D;
use voxel_mesher::blocks::{block_textures, decode_block_id, is_solid, is_solid_int};
use voxel_mesher::direction::DirXY;
use voxel_mesher::quick::create_mesh_quick;

#[test]
fn array3d_addresses_planes_rows_and_cells() {
    let mut a = Array3D::from_raw(vec![0u32; 4 * 4 * 3], 4, 4, 3);
    a.set_xyz(1, 2, 0, 7);
    assert_eq!(a.get_xyz(1, 2, 0), 7);
    assert_eq!(a.get_idx(2 * 4 + 1), 7);
    a.set_hxy(2, 3, 1, 9);
    assert_eq!(a.get_hxy(2, 3, 1), 9);
    assert_eq!(a.get_xyz(3, 1, 2), 9);
    assert_eq!(a.get_idx(2 * 16 + 1 * 4 + 3), 9);
    assert_eq!(a.plane_idx(2), 32);
    assert_eq!(a.row_idx(2, 3), 44);
    a.set_idx(44, 5);
    assert_eq!(a.get_hxy(2, 0, 3), 5);
}

#[test]
fn fill_planes_touches_only_its_planes() {
    let mut a = Array3D::from_raw(vec![1u32; 2 * 2 * 4], 2, 2, 4);
    a.fill_planes(1, 2, 0);
    for i in 0..16u32 {
        let expected = if (4..12).contains(&i) { 0 } else { 1 };
        assert_eq!(a.get_idx(i), expected);
    }
}

#[test]
fn solidity_is_the_high_bit() {
    assert!(is_solid(0x8000_0000));
    assert!(is_solid(0x8000_0003));
    assert!(!is_solid(6));
    assert!(!is_solid(0));
    assert_eq!(is_solid_int(0xFFFF_FFFF), 1);
    assert_eq!(is_solid_int(0x7FFF_FFFF), 0);
    assert_eq!(decode_block_id(0x8000_0008), 8);
    assert_eq!(decode_block_id(6), 6);
}

#[test]
fn texture_table_rows() {
    assert_eq!(block_textures(0), [0, 0, 0, 0, 0, 0]);
    assert_eq!(block_textures(1), [1, 1, 1, 1, 1, 1]);
    assert_eq!(block_textures(2), [3, 2, 2, 2, 2, 1]);
    assert_eq!(block_textures(3), [3, 3, 3, 3, 3, 3]);
    assert_eq!(block_textures(5), [5, 5, 5, 5, 5, 5]);
    assert_eq!(block_textures(6), [6, 6, 6, 6, 6, 6]);
    assert_eq!(block_textures(8), [0, 8, 8, 8, 8, 0]);
}

#[test]
fn sampling_vectors_turn_counter_clockwise() {
    let mut d = DirXY { x: 0, y: 0 };
    d.set(-1, 0);
    d.rotate_ccw();
    assert_eq!((d.x, d.y), (0, -1));
    d.rotate_ccw();
    assert_eq!((d.x, d.y), (1, 0));
    d.rotate_ccw();
    assert_eq!((d.x, d.y), (0, 1));
    d.rotate_ccw();
    assert_eq!((d.x, d.y), (-1, 0));
}

const E: usize = 34;

fn at(h: usize, x: usize, y: usize) -> usize {
    h * E * E + y * E + x
}

#[test]
fn every_quick_face_looks_into_open_air() {
    let mut c = vec![0u32; E * E * E];
    for h in 0..E {
        for x in 0..E {
            for y in 0..E {
                let v = (h * 13 + x * 7 + y * 3) % 5;
                c[at(h, x, y)] = match v {
                    0 => 0x8000_0001,
                    1 => 6,
                    2 => 0x8000_0002,
                    _ => 0,
                };
            }
        }
    }
    let chunk = Array3D::from_raw(c.clone(), 34, 34, 34);
    let mut out = Vec::new();
    let mut tmp = Vec::new();
    let n = create_mesh_quick(&chunk, &mut out, &mut tmp);
    assert_eq!(n as usize, out.len());
    assert!(n > 0);
    for q in out.chunks(12) {
        let attr = q[1];
        let dir = (attr >> 16) & 7;
        // the voxel is the one whose unit quad this is: the minimum corner, shifted back by
        // the direction's first-corner offset
        let xs: Vec<u32> = (0..6).map(|i| q[2 * i] & 0x7F).collect();
        let ys: Vec<u32> = (0..6).map(|i| (q[2 * i] >> 7) & 0x7F).collect();
        let hs: Vec<u32> = (0..6).map(|i| q[2 * i] >> 14).collect();
        let (x0, y0, h0) = (*xs.iter().min().unwrap(), *ys.iter().min().unwrap(), *hs.iter().min().unwrap());
        let (vx, vy, vh) = match dir {
            0 => (x0, y0, h0 - 1),
            1 => (x0, y0, h0),
            2 => (x0, y0, h0),
            3 => (x0, y0 - 1, h0),
            4 => (x0 - 1, y0, h0),
            _ => (x0, y0, h0),
        };
        let (x, y, h) = (vx as usize + 1, vy as usize + 1, vh as usize + 1);
        assert_ne!(c[at(h, x, y)], 0);
        let n = match dir {
            0 => c[at(h + 1, x, y)],
            5 => c[at(h - 1, x, y)],
            1 => c[at(h, x, y - 1)],
            2 => c[at(h, x - 1, y)],
            3 => c[at(h, x, y + 1)],
            _ => c[at(h, x + 1, y)],
        };
        assert!(n & 0x8000_0000 == 0);
    }
}
